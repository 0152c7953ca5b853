//! Laying out the days of a summer on its calendar.

use vstd::prelude::*;
use crate::date::{Date, Weekday};
use crate::group::texts;
use crate::model::{Day, DayView, FacultyWeek, LgiClass, LgiClassView, rosters, days_view, opt_text};
use crate::text::{decimal, push_decimal};
use crate::stats::duty_names;

verus! {

/// A calendar day as the plan reads it: date, weekday (Monday = 1 ...
/// Sunday = 7) and whether it is a holiday.
pub struct DayStamp {
    pub date: (int, int, int),
    pub weekday: int,
    pub holiday: bool,
}

/// A day of the calendar on which a summer is laid out.
#[derive(Clone, Copy, Debug)]
pub struct CalendarDay {
    pub date: Date,
    pub weekday: Weekday,
    pub holiday: bool,
}

impl View for CalendarDay {
    type V = DayStamp;

    open spec fn view(&self) -> DayStamp {
        DayStamp { date: self.date@, weekday: self.weekday.number(), holiday: self.holiday }
    }
}

/// The stamps of a sequence of calendar days.
pub open spec fn stamps(c: Seq<CalendarDay>) -> Seq<DayStamp> {
    c.map_values(|x: CalendarDay| x@)
}

/// Where the planning stands before a day: the number the next teaching
/// day gets, the number of unit lectures given so far, and the week.
pub struct PlanCursor {
    pub day_num: int,
    pub lecture_num: int,
    pub week: int,
}

/// A weekend day or a holiday.
pub open spec fn is_off(c: DayStamp) -> bool {
    c.weekday == 6 || c.weekday == 7 || c.holiday
}

/// An exam is held on Mondays, and on Tuesdays after a holiday, except on
/// teaching days 1, 24, 34 and 44.
pub open spec fn exam_day(cal: Seq<DayStamp>, k: int, day_num: int) -> bool {
    &&& (cal[k].weekday == 2 && k > 0 && cal[k - 1].holiday) || cal[k].weekday == 1
    &&& day_num != 1 && day_num != 24 && day_num != 34 && day_num != 44
}

/// The last teaching day of a week: a Friday, or a Thursday before a holiday.
pub open spec fn review_eve(cal: Seq<DayStamp>, k: int) -> bool {
    (cal[k].weekday == 4 && cal[k + 1].holiday) || cal[k].weekday == 5
}

/// A review day: the last teaching day of a week, or teaching day 27.
pub open spec fn review_day(cal: Seq<DayStamp>, k: int, day_num: int) -> bool {
    review_eve(cal, k) || day_num == 27
}

/// Whether day `k` gives the next unit lecture.
pub open spec fn counts_lecture(cal: Seq<DayStamp>, k: int, st: PlanCursor) -> bool {
    &&& st.day_num != 1
    &&& !is_off(cal[k])
    &&& !review_day(cal, k, st.day_num)
    &&& 2 <= st.day_num <= 26
    &&& !review_eve(cal, k)
}

/// The cursor after day `k`.
pub open spec fn next_cursor(cal: Seq<DayStamp>, k: int, st: PlanCursor) -> PlanCursor {
    PlanCursor {
        day_num: if st.day_num == 1 || !is_off(cal[k]) { st.day_num + 1 } else { st.day_num },
        lecture_num: if counts_lecture(cal, k, st) { st.lecture_num + 1 } else { st.lecture_num },
        week: if cal[k + 1].weekday == 1 { st.week + 1 } else { st.week },
    }
}

/// The cursor before day `k`.
pub open spec fn plan_cursor(cal: Seq<DayStamp>, k: nat) -> PlanCursor
    decreases k,
{
    if k == 0 {
        PlanCursor { day_num: 1, lecture_num: 0, week: 0 }
    } else {
        next_cursor(cal, k - 1, plan_cursor(cal, (k - 1) as nat))
    }
}

/// The faculty member of week `w` whose turn position `i` is, the roster
/// taken round-robin.
pub open spec fn on_duty(fac: Seq<Seq<Seq<char>>>, w: int, i: int) -> Seq<char> {
    fac[w][i % (fac[w].len() as int)]
}

/// The first day: three introductory lectures.
pub open spec fn first_day_view(cal: Seq<DayStamp>, fac: Seq<Seq<Seq<char>>>, k: int, st: PlanCursor) -> DayView {
    DayView {
        week: st.week + 1,
        day: st.day_num,
        date: cal[k].date,
        day_one_lectures: Some(seq![on_duty(fac, st.week, k), on_duty(fac, st.week, k + 1), on_duty(fac, st.week, k + 2)]),
        exam: None,
        morning_optional: None,
        quiz_grader: None,
        drill1: Seq::empty(),
        drill2: Seq::empty(),
        noon_optional1: None,
        noon_optional2: None,
        noon_optional1_title: None,
        noon_optional2_title: None,
        lecture: None,
        lecture_title: None,
        voc_notes: None,
        friday_review1: Seq::empty(),
        friday_review2: Seq::empty(),
        other: None,
        test: Seq::empty(),
    }
}

/// What a day off is called.
pub open spec fn rest_label(weekday: int) -> Seq<char> {
    if weekday == 6 {
        "Rest and Study"@
    } else if weekday == 7 {
        "Review"@
    } else {
        "Holiday, rest and study"@
    }
}

/// A weekend day or holiday.
pub open spec fn day_off_view(cal: Seq<DayStamp>, k: int, st: PlanCursor) -> DayView {
    DayView {
        week: st.week + 1,
        day: 0,
        date: cal[k].date,
        day_one_lectures: None,
        exam: None,
        morning_optional: None,
        quiz_grader: None,
        drill1: Seq::empty(),
        drill2: Seq::empty(),
        noon_optional1: None,
        noon_optional2: None,
        noon_optional1_title: None,
        noon_optional2_title: None,
        lecture: None,
        lecture_title: None,
        voc_notes: None,
        friday_review1: Seq::empty(),
        friday_review2: Seq::empty(),
        other: Some(rest_label(cal[k].weekday)),
        test: Seq::empty(),
    }
}

/// The title of a teaching day's lecture.
pub open spec fn lecture_title_text(cal: Seq<DayStamp>, k: int, st: PlanCursor) -> Option<Seq<char>> {
    if review_day(cal, k, st.day_num) {
        None
    } else if st.day_num == 1 {
        Some("Lecture on Accents"@)
    } else if 2 <= st.day_num <= 26 {
        Some("Lecture on Unit "@ + decimal(if review_eve(cal, k) { 0 } else { (st.lecture_num + 1) as nat }))
    } else {
        None
    }
}

/// The class entry of a teaching day, to be filled in later.
pub open spec fn blank_class() -> LgiClassView {
    LgiClassView { title: ""@, instructor: ""@, handouts: Some(seq![""@]) }
}

/// A teaching day: exams, drills, optionals, lecture and reviews by the
/// rotation of the week's roster.
pub open spec fn teaching_day_view(cal: Seq<DayStamp>, fac: Seq<Seq<Seq<char>>>, k: int, st: PlanCursor) -> DayView {
    let w = st.week;
    let exam = exam_day(cal, k, st.day_num);
    let review = review_day(cal, k, st.day_num);
    let many = fac[w].len() > 3;
    DayView {
        week: w + 1,
        day: st.day_num,
        date: cal[k].date,
        day_one_lectures: None,
        exam: if exam { Some("JM"@) } else { None },
        morning_optional: if st.day_num < 6 || exam {
            None
        } else if many {
            Some(on_duty(fac, w, k + 2))
        } else {
            Some(on_duty(fac, w, k))
        },
        quiz_grader: if exam {
            None
        } else if many {
            Some(on_duty(fac, w, k + 3))
        } else {
            Some(on_duty(fac, w, k + 2))
        },
        drill1: if exam {
            Seq::empty()
        } else if many {
            seq![on_duty(fac, w, k + 3), on_duty(fac, w, k), on_duty(fac, w, k + 1)]
        } else {
            seq![on_duty(fac, w, k + 1), on_duty(fac, w, k + 2)]
        },
        drill2: if exam {
            Seq::empty()
        } else if many {
            seq![on_duty(fac, w, k + 1), on_duty(fac, w, k + 2), on_duty(fac, w, k)]
        } else {
            seq![on_duty(fac, w, k), on_duty(fac, w, k + 1)]
        },
        noon_optional1: if exam {
            None
        } else if many {
            Some(on_duty(fac, w, k + 3))
        } else {
            Some(on_duty(fac, w, k + 1))
        },
        noon_optional2: if exam { None } else { Some(on_duty(fac, w, k + 2)) },
        noon_optional1_title: if exam { None } else { Some("Grammar"@) },
        noon_optional2_title: if exam { None } else { Some("Sight"@) },
        lecture: if review { None } else { Some(on_duty(fac, w, k)) },
        lecture_title: lecture_title_text(cal, k, st),
        voc_notes: if review { None } else { Some(on_duty(fac, w, k + 1)) },
        friday_review1: if review {
            seq![on_duty(fac, w, k + 1), on_duty(fac, w, k)]
        } else {
            Seq::empty()
        },
        friday_review2: if review {
            seq![if many { on_duty(fac, w, k + 3) } else { on_duty(fac, w, k) }, on_duty(fac, w, k + 2)]
        } else {
            Seq::empty()
        },
        other: None,
        test: seq![blank_class()],
    }
}

/// Day `k` of the plan.
pub open spec fn planned_day(cal: Seq<DayStamp>, fac: Seq<Seq<Seq<char>>>, k: int) -> DayView {
    let st = plan_cursor(cal, k as nat);
    if st.day_num == 1 {
        first_day_view(cal, fac, k, st)
    } else if is_off(cal[k]) {
        day_off_view(cal, k, st)
    } else {
        teaching_day_view(cal, fac, k, st)
    }
}

/// The days of the plan.
pub open spec fn planned_days(cal: Seq<DayStamp>, fac: Seq<Seq<Seq<char>>>) -> Seq<DayView> {
    Seq::new(71, |k: int| planned_day(cal, fac, k))
}

/// Whether a day needs the week's roster: the first day and teaching days.
pub open spec fn uses_roster(cal: Seq<DayStamp>, k: int) -> bool {
    plan_cursor(cal, k as nat).day_num == 1 || !is_off(cal[k])
}

/// The plan can be laid out: 72 calendar days from a Monday (the last one
/// only looked at), a roster for every week reached, and a non-empty roster
/// for every week in which the roster is used.
pub open spec fn plan_is_feasible(cal: Seq<DayStamp>, fac: Seq<Seq<Seq<char>>>) -> bool {
    &&& cal.len() == 72
    &&& cal[0].weekday == 1
    &&& plan_cursor(cal, 71).week < fac.len()
    &&& forall|k: int|
        0 <= k < 71 && #[trigger] uses_roster(cal, k) ==> fac[plan_cursor(cal, k as nat).week].len() > 0
}

/// The executable cursor.
struct Cursor {
    day_num: u32,
    lecture_num: u32,
    week: usize,
}

impl View for Cursor {
    type V = PlanCursor;

    closed spec fn view(&self) -> PlanCursor {
        PlanCursor { day_num: self.day_num as int, lecture_num: self.lecture_num as int, week: self.week as int }
    }
}

fn is_exam_day(cal: &Vec<CalendarDay>, k: usize, day_num: u32) -> (b: bool)
    requires
        k < cal.len(),
    ensures
        b == exam_day(stamps(cal@), k as int, day_num as int),
{
    let after_holiday = k > 0 && cal[k - 1].holiday;
    ((cal[k].weekday == Weekday::Tuesday && after_holiday) || cal[k].weekday == Weekday::Monday)
        && day_num != 1 && day_num != 24 && day_num != 34 && day_num != 44
}

fn is_review_eve(cal: &Vec<CalendarDay>, k: usize) -> (b: bool)
    requires
        k + 1 < cal.len(),
    ensures
        b == review_eve(stamps(cal@), k as int),
{
    (cal[k].weekday == Weekday::Thursday && cal[k + 1].holiday) || cal[k].weekday == Weekday::Friday
}

fn is_day_off(c: &CalendarDay) -> (b: bool)
    ensures
        b == is_off(c@),
{
    c.weekday.is_weekend() || c.holiday
}

/// Moves the cursor past day `k`.
fn advance(cal: &Vec<CalendarDay>, k: usize, cur: Cursor) -> (next: Cursor)
    requires
        cal.len() == 72,
        k < 71,
        cur@ == plan_cursor(stamps(cal@), k as nat),
    ensures
        next@ == plan_cursor(stamps(cal@), (k + 1) as nat),
{
    proof {
        lemma_cursor_bounds(stamps(cal@), k as nat);
    }
    let off = is_day_off(&cal[k]);
    let eve = is_review_eve(cal, k);
    let review = eve || cur.day_num == 27;
    let counted = cur.day_num != 1 && !off && !review && 2 <= cur.day_num && cur.day_num <= 26 && !eve;
    let day_num = if cur.day_num == 1 || !off { cur.day_num + 1 } else { cur.day_num };
    let lecture_num = if counted { cur.lecture_num + 1 } else { cur.lecture_num };
    let week = if cal[k + 1].weekday == Weekday::Monday { cur.week + 1 } else { cur.week };
    Cursor { day_num, lecture_num, week }
}

/// The member of week `w` on duty at turn `i`.
fn on_duty_name(faculty: &Vec<FacultyWeek>, w: usize, i: usize) -> (s: String)
    requires
        w < faculty.len(),
        faculty@[w as int].faculty.len() > 0,
    ensures
        s@ == on_duty(rosters(faculty@), w as int, i as int),
{
    let roster = &faculty[w].faculty;
    let r = roster[i % roster.len()].clone();
    assert(rosters(faculty@)[w as int] == texts(roster@));
    r
}

fn text(s: &str) -> (r: String)
    ensures
        r@ == s@,
{
    String::from_str(s)
}

/// The first day of the summer.
fn first_day(cal: &Vec<CalendarDay>, faculty: &Vec<FacultyWeek>, k: usize, cur: &Cursor) -> (d: Day)
    requires
        k + 2 < usize::MAX,
        k < cal.len(),
        cur.week < faculty.len(),
        faculty@[cur.week as int].faculty.len() > 0,
        cur.week + 1 <= u32::MAX,
    ensures
        d@ == first_day_view(stamps(cal@), rosters(faculty@), k as int, cur@),
{
    let lectures = vec![
        on_duty_name(faculty, cur.week, k),
        on_duty_name(faculty, cur.week, k + 1),
        on_duty_name(faculty, cur.week, k + 2),
    ];
    let d = Day {
        week: cur.week as u32 + 1,
        day: cur.day_num,
        date: cal[k].date,
        day_one_lectures: Some(lectures),
        exam: None,
        morning_optional: None,
        quiz_grader: None,
        drill1: Vec::new(),
        drill2: Vec::new(),
        noon_optional1: None,
        noon_optional2: None,
        noon_optional1_title: None,
        noon_optional2_title: None,
        lecture: None,
        lecture_title: None,
        voc_notes: None,
        friday_review1: Vec::new(),
        friday_review2: Vec::new(),
        other: None,
        test: Vec::new(),
    };
    proof {
        let v = first_day_view(stamps(cal@), rosters(faculty@), k as int, cur@);
        assert(texts(lectures@) =~= v.day_one_lectures->0);
        assert(texts(d.drill1@) =~= Seq::<Seq<char>>::empty());
        assert(texts(d.drill2@) =~= Seq::<Seq<char>>::empty());
        assert(texts(d.friday_review1@) =~= Seq::<Seq<char>>::empty());
        assert(texts(d.friday_review2@) =~= Seq::<Seq<char>>::empty());
        assert(d.test@.map_values(|c: LgiClass| c@) =~= Seq::<LgiClassView>::empty());
    }
    d
}

/// A weekend day or holiday.
fn day_off(cal: &Vec<CalendarDay>, k: usize, cur: &Cursor) -> (d: Day)
    requires
        k < cal.len(),
        cur.week + 1 <= u32::MAX,
    ensures
        d@ == day_off_view(stamps(cal@), k as int, cur@),
{
    let label = match cal[k].weekday {
        Weekday::Saturday => text("Rest and Study"),
        Weekday::Sunday => text("Review"),
        _ => text("Holiday, rest and study"),
    };
    let d = Day {
        week: cur.week as u32 + 1,
        day: 0,
        date: cal[k].date,
        day_one_lectures: None,
        exam: None,
        morning_optional: None,
        quiz_grader: None,
        drill1: Vec::new(),
        drill2: Vec::new(),
        noon_optional1: None,
        noon_optional2: None,
        noon_optional1_title: None,
        noon_optional2_title: None,
        lecture: None,
        lecture_title: None,
        voc_notes: None,
        friday_review1: Vec::new(),
        friday_review2: Vec::new(),
        other: Some(label),
        test: Vec::new(),
    };
    proof {
        assert(texts(d.drill1@) =~= Seq::<Seq<char>>::empty());
        assert(texts(d.drill2@) =~= Seq::<Seq<char>>::empty());
        assert(texts(d.friday_review1@) =~= Seq::<Seq<char>>::empty());
        assert(texts(d.friday_review2@) =~= Seq::<Seq<char>>::empty());
        assert(d.test@.map_values(|c: LgiClass| c@) =~= Seq::<LgiClassView>::empty());
    }
    d
}

/// The title of a teaching day's lecture.
fn lecture_title(review: bool, eve: bool, cur: &Cursor) -> (t: Option<String>)
    requires
        cur.lecture_num < u32::MAX,
    ensures
        opt_text(t) == (if review {
            None
        } else if cur.day_num == 1 {
            Some("Lecture on Accents"@)
        } else if 2 <= cur.day_num <= 26 {
            Some("Lecture on Unit "@ + decimal(if eve { 0 } else { (cur.lecture_num + 1) as nat }))
        } else {
            None
        }),
{
    if review {
        None
    } else if cur.day_num == 1 {
        Some(text("Lecture on Accents"))
    } else if 2 <= cur.day_num && cur.day_num <= 26 {
        let n: u32 = if eve { 0 } else { cur.lecture_num + 1 };
        let mut t = text("Lecture on Unit ");
        push_decimal(&mut t, n);
        Some(t)
    } else {
        None
    }
}

/// A teaching day.
fn teaching_day(cal: &Vec<CalendarDay>, faculty: &Vec<FacultyWeek>, k: usize, cur: &Cursor) -> (d: Day)
    requires
        k + 1 < cal.len(),
        k + 3 < usize::MAX,
        cur.week < faculty.len(),
        faculty@[cur.week as int].faculty.len() > 0,
        cur.week + 1 <= u32::MAX,
        cur.lecture_num < u32::MAX,
    ensures
        d@ == teaching_day_view(stamps(cal@), rosters(faculty@), k as int, cur@),
{
    let ghost c = stamps(cal@);
    let ghost fac = rosters(faculty@);
    let w = cur.week;
    let exam = is_exam_day(cal, k, cur.day_num);
    let eve = is_review_eve(cal, k);
    let review = eve || cur.day_num == 27;
    let many = faculty[w].faculty.len() > 3;
    assert(fac[w as int] == texts(faculty@[w as int].faculty@));
    let morning_optional = if cur.day_num < 6 || exam {
        None
    } else if many {
        Some(on_duty_name(faculty, w, k + 2))
    } else {
        Some(on_duty_name(faculty, w, k))
    };
    let quiz_grader = if exam {
        None
    } else if many {
        Some(on_duty_name(faculty, w, k + 3))
    } else {
        Some(on_duty_name(faculty, w, k + 2))
    };
    let drill1 = if exam {
        Vec::new()
    } else if many {
        vec![on_duty_name(faculty, w, k + 3), on_duty_name(faculty, w, k), on_duty_name(faculty, w, k + 1)]
    } else {
        vec![on_duty_name(faculty, w, k + 1), on_duty_name(faculty, w, k + 2)]
    };
    let drill2 = if exam {
        Vec::new()
    } else if many {
        vec![on_duty_name(faculty, w, k + 1), on_duty_name(faculty, w, k + 2), on_duty_name(faculty, w, k)]
    } else {
        vec![on_duty_name(faculty, w, k), on_duty_name(faculty, w, k + 1)]
    };
    let noon_optional1 = if exam {
        None
    } else if many {
        Some(on_duty_name(faculty, w, k + 3))
    } else {
        Some(on_duty_name(faculty, w, k + 1))
    };
    let noon_optional2 = if exam { None } else { Some(on_duty_name(faculty, w, k + 2)) };
    let noon_optional1_title = if exam { None } else { Some(text("Grammar")) };
    let noon_optional2_title = if exam { None } else { Some(text("Sight")) };
    let lecture = if review { None } else { Some(on_duty_name(faculty, w, k)) };
    let lecture_title = lecture_title(review, eve, cur);
    let voc_notes = if review { None } else { Some(on_duty_name(faculty, w, k + 1)) };
    let friday_review1 = if review {
        vec![on_duty_name(faculty, w, k + 1), on_duty_name(faculty, w, k)]
    } else {
        Vec::new()
    };
    let friday_review2 = if review {
        let first = if many { on_duty_name(faculty, w, k + 3) } else { on_duty_name(faculty, w, k) };
        vec![first, on_duty_name(faculty, w, k + 2)]
    } else {
        Vec::new()
    };
    let mut handouts: Vec<String> = Vec::new();
    handouts.push(text(""));
    let class = LgiClass { title: text(""), instructor: text(""), handouts: Some(handouts) };
    let test = vec![class];
    let exam_grader = if exam { Some(text("JM")) } else { None };
    let d = Day {
        week: w as u32 + 1,
        day: cur.day_num,
        date: cal[k].date,
        day_one_lectures: None,
        exam: exam_grader,
        morning_optional,
        quiz_grader,
        drill1,
        drill2,
        noon_optional1,
        noon_optional2,
        noon_optional1_title,
        noon_optional2_title,
        lecture,
        lecture_title,
        voc_notes,
        friday_review1,
        friday_review2,
        other: None,
        test,
    };
    proof {
        let v = teaching_day_view(c, fac, k as int, cur@);
        assert(texts(d.drill1@) =~= v.drill1);
        assert(texts(d.drill2@) =~= v.drill2);
        assert(texts(d.friday_review1@) =~= v.friday_review1);
        assert(texts(d.friday_review2@) =~= v.friday_review2);
        assert(texts(handouts@) =~= seq![""@]);
        assert(d.test@.map_values(|c: LgiClass| c@) =~= v.test);
        assert(d@.lecture_title == v.lecture_title);
    }
    d
}

/// Lays out the days of a summer on its calendar and the weekly rosters:
/// day `k` of the result is `planned_day` of the calendar and rosters.
pub fn plan_days(cal: &Vec<CalendarDay>, faculty: &Vec<FacultyWeek>) -> (days: Vec<Day>)
    requires
        plan_is_feasible(stamps(cal@), rosters(faculty@)),
    ensures
        days_view(days@) == planned_days(stamps(cal@), rosters(faculty@)),
{
    let ghost c = stamps(cal@);
    let ghost fac = rosters(faculty@);
    let mut days: Vec<Day> = Vec::new();
    let mut cur = Cursor { day_num: 1, lecture_num: 0, week: 0 };
    for k in 0..71
        invariant
            c == stamps(cal@),
            fac == rosters(faculty@),
            plan_is_feasible(c, fac),
            cur@ == plan_cursor(c, k as nat),
            days@.len() == k,
            forall|j: int| 0 <= j < k ==> #[trigger] days@[j]@ == planned_day(c, fac, j),
    {
        proof {
            lemma_cursor_bounds(c, k as nat);
            lemma_week_monotone(c, k as nat, 71);
            assert(uses_roster(c, k as int) ==> fac[cur.week as int].len() > 0);
            assert(fac[cur.week as int] == texts(faculty@[cur.week as int].faculty@));
        }
        let d = if cur.day_num == 1 {
            first_day(cal, faculty, k, &cur)
        } else if is_day_off(&cal[k]) {
            day_off(cal, k, &cur)
        } else {
            teaching_day(cal, faculty, k, &cur)
        };
        days.push(d);
        cur = advance(cal, k, cur);
    }
    assert(days_view(days@) =~= planned_days(c, fac));
    days
}

/// Whether the plan can be laid out on `cal` with these rosters.
pub fn check_feasible(cal: &Vec<CalendarDay>, faculty: &Vec<FacultyWeek>) -> (b: bool)
    ensures
        b == plan_is_feasible(stamps(cal@), rosters(faculty@)),
{
    let ghost c = stamps(cal@);
    let ghost fac = rosters(faculty@);
    if cal.len() != 72 || cal[0].weekday != Weekday::Monday {
        return false;
    }
    let mut cur = Cursor { day_num: 1, lecture_num: 0, week: 0 };
    for k in 0..71
        invariant
            c == stamps(cal@),
            fac == rosters(faculty@),
            c.len() == 72,
            c[0].weekday == 1,
            cur@ == plan_cursor(c, k as nat),
            forall|j: int| 0 <= j < k && #[trigger] uses_roster(c, j) ==> fac[plan_cursor(c, j as nat).week].len() > 0,
    {
        let used = cur.day_num == 1 || !is_day_off(&cal[k]);
        if used {
            if cur.week >= faculty.len() || faculty[cur.week].faculty.len() == 0 {
                proof {
                    lemma_week_monotone(c, k as nat, 71);
                    if cur.week < faculty.len() {
                        assert(fac[cur.week as int] == texts(faculty@[cur.week as int].faculty@));
                        assert(uses_roster(c, k as int));
                    }
                }
                return false;
            }
            assert(fac[cur.week as int] == texts(faculty@[cur.week as int].faculty@));
        }
        cur = advance(cal, k, cur);
    }
    cur.week < faculty.len()
}

/// Bounds of the cursor.
pub proof fn lemma_cursor_bounds(cal: Seq<DayStamp>, k: nat)
    requires
        cal.len() == 72,
        k <= 71,
    ensures
        1 <= plan_cursor(cal, k).day_num <= k + 1,
        0 <= plan_cursor(cal, k).lecture_num <= k,
        0 <= plan_cursor(cal, k).week <= k,
        k > 0 ==> plan_cursor(cal, k).day_num >= 2,
    decreases k,
{
    if k > 0 {
        lemma_cursor_bounds(cal, (k - 1) as nat);
    }
}

/// Weeks never go back.
pub proof fn lemma_week_monotone(cal: Seq<DayStamp>, j: nat, k: nat)
    requires
        cal.len() == 72,
        j <= k <= 71,
    ensures
        plan_cursor(cal, j).week <= plan_cursor(cal, k).week,
    decreases k - j,
{
    if j < k {
        lemma_week_monotone(cal, j, (k - 1) as nat);
    }
}


/// A calendar whose weekdays run Monday, Tuesday, ... from its first day.
pub open spec fn weekdays_in_order(cal: Seq<DayStamp>) -> bool {
    forall|k: int| 0 <= k < cal.len() ==> #[trigger] cal[k].weekday == k % 7 + 1
}

/// On a calendar whose weekdays run in order from a Monday, the plan is in
/// week index `k / 7` before day `k`.
pub proof fn lemma_cursor_week_by_seven(cal: Seq<DayStamp>, k: nat)
    requires
        cal.len() == 72,
        weekdays_in_order(cal),
        k <= 71,
    ensures
        plan_cursor(cal, k).week == k / 7,
    decreases k,
{
    if k > 0 {
        lemma_cursor_week_by_seven(cal, (k - 1) as nat);
        assert(cal[k as int].weekday == k % 7 + 1);
    }
}

/// On a calendar whose weekdays run in order from a Monday, day `k` of the
/// plan falls in week `k / 7 + 1`.
pub proof fn lemma_weeks_by_seven(cal: Seq<DayStamp>, fac: Seq<Seq<Seq<char>>>, k: nat)
    requires
        cal.len() == 72,
        weekdays_in_order(cal),
        k < 71,
    ensures
        planned_day(cal, fac, k as int).week == k / 7 + 1,
{
    lemma_cursor_week_by_seven(cal, k);
}

/// The number of days before day `k` that are taught: the first day, and
/// every later day that is neither weekend nor holiday.
pub open spec fn teaching_days_before(cal: Seq<DayStamp>, k: nat) -> nat
    decreases k,
{
    if k == 0 {
        0
    } else {
        teaching_days_before(cal, (k - 1) as nat) + if k - 1 == 0 || !is_off(cal[k - 1]) {
            1nat
        } else {
            0nat
        }
    }
}

proof fn lemma_cursor_counts_days(cal: Seq<DayStamp>, k: nat)
    requires
        cal.len() == 72,
        k <= 71,
    ensures
        plan_cursor(cal, k).day_num == 1 + teaching_days_before(cal, k),
    decreases k,
{
    if k > 0 {
        lemma_cursor_counts_days(cal, (k - 1) as nat);
        lemma_cursor_bounds(cal, (k - 1) as nat);
    }
}

/// Teaching days are numbered 1, 2, 3, ... in calendar order; weekend days
/// and holidays after the first day get number 0 and their rest label.
pub proof fn lemma_day_numbers(cal: Seq<DayStamp>, fac: Seq<Seq<Seq<char>>>, k: nat)
    requires
        cal.len() == 72,
        k < 71,
    ensures
        planned_day(cal, fac, k as int).day == if k > 0 && is_off(cal[k as int]) {
            0
        } else {
            1 + teaching_days_before(cal, k)
        },
        k > 0 && is_off(cal[k as int]) ==> planned_day(cal, fac, k as int).other == Some(
            rest_label(cal[k as int].weekday),
        ),
{
    lemma_cursor_counts_days(cal, k);
    lemma_cursor_bounds(cal, k);
}

/// On exam days there is no quiz, drill, morning or noon optional, and
/// exams fall on Mondays or on Tuesdays after a holiday.
pub proof fn lemma_exam_days(cal: Seq<DayStamp>, fac: Seq<Seq<Seq<char>>>, k: int)
    requires
        cal.len() == 72,
        0 <= k < 71,
        planned_day(cal, fac, k).exam is Some,
    ensures
        planned_day(cal, fac, k).drill1.len() == 0,
        planned_day(cal, fac, k).drill2.len() == 0,
        planned_day(cal, fac, k).quiz_grader is None,
        planned_day(cal, fac, k).morning_optional is None,
        planned_day(cal, fac, k).noon_optional1 is None,
        planned_day(cal, fac, k).noon_optional2 is None,
        cal[k].weekday == 1 || (cal[k].weekday == 2 && k > 0 && cal[k - 1].holiday),
{
}

proof fn lemma_on_duty_in_roster(fac: Seq<Seq<Seq<char>>>, w: int, i: int)
    requires
        0 <= w < fac.len(),
        fac[w].len() > 0,
        i >= 0,
    ensures
        fac[w].contains(on_duty(fac, w, i)),
{
    let j = i % (fac[w].len() as int);
    assert(0 <= j < fac[w].len());
    assert(fac[w][j] == on_duty(fac, w, i));
}

/// Everyone on duty on a planned day, except the exam grader, is on the
/// roster of that day's week.
pub proof fn lemma_duties_from_roster(cal: Seq<DayStamp>, fac: Seq<Seq<Seq<char>>>, k: int)
    requires
        plan_is_feasible(cal, fac),
        0 <= k < 71,
    ensures
        forall|i: int|
            0 <= i < duty_names(planned_day(cal, fac, k)).len() ==> fac[planned_day(cal, fac, k).week - 1].contains(
                #[trigger] duty_names(planned_day(cal, fac, k))[i],
            ),
{
    let st = plan_cursor(cal, k as nat);
    let w = st.week;
    let d = planned_day(cal, fac, k);
    lemma_week_monotone(cal, k as nat, 71);
    lemma_cursor_bounds(cal, k as nat);
    assert(d.week - 1 == w);
    if uses_roster(cal, k) {
        assert(fac[w].len() > 0);
        lemma_on_duty_in_roster(fac, w, k);
        lemma_on_duty_in_roster(fac, w, k + 1);
        lemma_on_duty_in_roster(fac, w, k + 2);
        lemma_on_duty_in_roster(fac, w, k + 3);
        let names = duty_names(d);
        assert forall|i: int| 0 <= i < names.len() implies fac[w].contains(#[trigger] names[i]) by {
            let r = fac[w];
            let a = on_duty(fac, w, k);
            let b = on_duty(fac, w, k + 1);
            let c = on_duty(fac, w, k + 2);
            let e = on_duty(fac, w, k + 3);
            assert(forall|x: Seq<char>| x == a || x == b || x == c || x == e ==> r.contains(x));
        }
    } else {
        assert(duty_names(d) =~= Seq::<Seq<char>>::empty());
    }
}


/// The exam rule: a day holds the exam (graded by JM) exactly when it is a
/// teaching day after the first, not a holiday, on a Monday or on a Tuesday
/// after a holiday, and its teaching-day number is not 24, 34 or 44.
pub proof fn lemma_exam_rule(cal: Seq<DayStamp>, fac: Seq<Seq<Seq<char>>>, k: int)
    requires
        cal.len() == 72,
        0 <= k < 71,
    ensures
        planned_day(cal, fac, k).exam == if k > 0 && !cal[k].holiday && (cal[k].weekday == 1 || (
        cal[k].weekday == 2 && cal[k - 1].holiday)) && planned_day(cal, fac, k).day != 24
            && planned_day(cal, fac, k).day != 34 && planned_day(cal, fac, k).day != 44 {
            Some("JM"@)
        } else {
            None
        },
{
    lemma_cursor_bounds(cal, k as nat);
}

/// Round-robin duties: on a teaching day `k` after the first without an
/// exam, with `r` the roster of its week and `n` its size, the duties are
/// the roster members at turns `k`, `k + 1`, `k + 2` and `k + 3` modulo `n`:
/// first drill `r[k+1], r[k+2]` (three or fewer members) or `r[k+3], r[k],
/// r[k+1]`; second drill `r[k], r[k+1]` or `r[k+1], r[k+2], r[k]`; quiz and
/// first noon optional `r[k+2]` and `r[k+1]`, or `r[k+3]` for both; second
/// noon optional `r[k+2]`; morning optional from day 6 on, `r[k]` or
/// `r[k+2]`; on a review day (Friday, Thursday before a holiday, or day 27)
/// reviews `r[k+1], r[k]` and `r[k] or r[k+3], r[k+2]` and no lecture,
/// otherwise lecture `r[k]` and vocabulary notes `r[k+1]`.
pub proof fn lemma_teaching_duties(cal: Seq<DayStamp>, fac: Seq<Seq<Seq<char>>>, k: int)
    requires
        plan_is_feasible(cal, fac),
        0 < k < 71,
        planned_day(cal, fac, k).day != 0,
        planned_day(cal, fac, k).exam is None,
    ensures
        ({
            let d = planned_day(cal, fac, k);
            let r = fac[d.week - 1];
            let n = r.len() as int;
            let review = cal[k].weekday == 5 || (cal[k].weekday == 4 && cal[k + 1].holiday) || d.day == 27;
            &&& 0 <= d.week - 1 < fac.len()
            &&& n > 0
            &&& n <= 3 ==> {
                &&& d.drill1 == seq![r[(k + 1) % n], r[(k + 2) % n]]
                &&& d.drill2 == seq![r[k % n], r[(k + 1) % n]]
                &&& d.quiz_grader == Some(r[(k + 2) % n])
                &&& d.noon_optional1 == Some(r[(k + 1) % n])
                &&& d.morning_optional == if d.day < 6 { None } else { Some(r[k % n]) }
            }
            &&& n > 3 ==> {
                &&& d.drill1 == seq![r[(k + 3) % n], r[k % n], r[(k + 1) % n]]
                &&& d.drill2 == seq![r[(k + 1) % n], r[(k + 2) % n], r[k % n]]
                &&& d.quiz_grader == Some(r[(k + 3) % n])
                &&& d.noon_optional1 == Some(r[(k + 3) % n])
                &&& d.morning_optional == if d.day < 6 { None } else { Some(r[(k + 2) % n]) }
            }
            &&& d.noon_optional2 == Some(r[(k + 2) % n])
            &&& review ==> {
                &&& d.lecture is None
                &&& d.voc_notes is None
                &&& d.friday_review1 == seq![r[(k + 1) % n], r[k % n]]
                &&& d.friday_review2 == seq![if n > 3 { r[(k + 3) % n] } else { r[k % n] }, r[(k + 2) % n]]
            }
            &&& !review ==> {
                &&& d.lecture == Some(r[k % n])
                &&& d.voc_notes == Some(r[(k + 1) % n])
                &&& d.friday_review1.len() == 0
                &&& d.friday_review2.len() == 0
            }
        }),
{
    lemma_cursor_bounds(cal, k as nat);
    lemma_week_monotone(cal, k as nat, 71);
    assert(uses_roster(cal, k));
}

/// With a roster of distinct names and at least two members, no one is
/// put on two groups of the same drill on a teaching day without exam.
pub proof fn lemma_drill_instructors_distinct(cal: Seq<DayStamp>, fac: Seq<Seq<Seq<char>>>, k: int)
    requires
        plan_is_feasible(cal, fac),
        0 < k < 71,
        planned_day(cal, fac, k).day != 0,
        planned_day(cal, fac, k).exam is None,
        fac[planned_day(cal, fac, k).week - 1].no_duplicates(),
        fac[planned_day(cal, fac, k).week - 1].len() >= 2,
    ensures
        forall|a: int, b: int|
            0 <= a < b < planned_day(cal, fac, k).drill1.len() ==> planned_day(cal, fac, k).drill1[a]
                != planned_day(cal, fac, k).drill1[b],
        forall|a: int, b: int|
            0 <= a < b < planned_day(cal, fac, k).drill2.len() ==> planned_day(cal, fac, k).drill2[a]
                != planned_day(cal, fac, k).drill2[b],
{
    lemma_teaching_duties(cal, fac, k);
    let d = planned_day(cal, fac, k);
    let r = fac[d.week - 1];
    let n = r.len() as int;
    assert((k + 1) % n != (k + 2) % n) by (nonlinear_arith)
        requires
            n >= 2,
            k >= 0,
    ;
    assert(k % n != (k + 1) % n) by (nonlinear_arith)
        requires
            n >= 2,
            k >= 0,
    ;
    if n > 3 {
        assert((k + 3) % n != k % n && (k + 3) % n != (k + 1) % n && (k + 2) % n != k % n) by (nonlinear_arith)
            requires
                n > 3,
                k >= 0,
        ;
    }
    assert forall|x: int, y: int| 0 <= x < n && 0 <= y < n && x != y implies r[x] != r[y] by {}
}

} // verus!
