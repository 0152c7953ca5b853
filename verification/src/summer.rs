//! Creating a summer from its parameters.

use vstd::prelude::*;
use crate::date::{Date, Weekday, next_date, weekday_number, weekday_of, day_number, is_valid_date, zoned_text_date,
    jiff_parse_zoned_date, lemma_next_date, lemma_next_weekday, lemma_year_before_end};
use crate::model::{Params, Summer, strs, rosters, roster_strs, rosters_from, dates_view, days_view};
use crate::plan::{CalendarDay, DayStamp, stamps, plan_is_feasible, planned_days, planned_day, plan_days,
    plan_cursor, uses_roster, lemma_week_monotone, check_feasible, weekdays_in_order, lemma_cursor_week_by_seven,
    lemma_cursor_bounds, lemma_duties_from_roster, is_off};
use crate::stats::duty_names;

verus! {

/// What follows a date written `YYYY-MM-DD` to make it a zoned date-time:
/// half past eight in the morning, New York time.
pub open spec fn zone_suffix() -> Seq<char> {
    " 08:30[America/New_York]"@
}

/// The date of the programme day written as `text`.
pub open spec fn programme_date(text: Seq<char>) -> Option<(int, int, int)> {
    zoned_text_date(text + zone_suffix())
}

/// The dates of the holidays that can be read, in their order; the others
/// are left out.
pub open spec fn holiday_dates(hs: Seq<Seq<char>>) -> Seq<(int, int, int)>
    decreases hs.len(),
{
    if hs.len() == 0 {
        Seq::empty()
    } else {
        let prev = holiday_dates(hs.drop_last());
        match programme_date(hs.last()) {
            Some(d) => prev.push(d),
            None => prev,
        }
    }
}

/// The date `k` days after `start`, if the calendar reaches it.
pub open spec fn date_after(start: (int, int, int), k: nat) -> Option<(int, int, int)>
    decreases k,
{
    if k == 0 {
        Some(start)
    } else {
        match date_after(start, (k - 1) as nat) {
            Some(d) => next_date(d),
            None => None,
        }
    }
}

/// The calendar of 72 days from `start`, with weekdays and holidays marked.
pub open spec fn calendar_of(start: (int, int, int), holidays: Seq<(int, int, int)>) -> Seq<DayStamp> {
    Seq::new(
        72,
        |k: int|
            {
                let d = date_after(start, k as nat)->0;
                DayStamp { date: d, weekday: weekday_number(d.0, d.1, d.2), holiday: holidays.contains(d) }
            },
    )
}

/// The parameters from which a summer can be created: a readable first
/// day, and, where it is a Monday, 72 days of calendar after it and a
/// feasible plan.
pub open spec fn summer_can_be_planned(p: &Params) -> bool {
    match programme_date(p.start_date@) {
        None => false,
        Some(start) => weekday_number(start.0, start.1, start.2) == 1 ==> {
            &&& date_after(start, 71) is Some
            &&& plan_is_feasible(
                calendar_of(start, holiday_dates(strs(p.holidays@))),
                roster_strs(p.faculty@),
            )
        },
    }
}

/// The summer created from `p`: `None` when the first day is no Monday,
/// otherwise the first day, the readable holidays, the rosters, and the
/// days laid out on the calendar from the first day.
pub open spec fn is_summer_of(p: &Params, r: Option<Summer>) -> bool {
    let start = programme_date(p.start_date@)->0;
    &&& r is None <==> weekday_number(start.0, start.1, start.2) != 1
    &&& r matches Some(s) ==> {
        &&& s.start_date@ == start
        &&& is_valid_date(start)
        &&& dates_view(s.holidays@) == holiday_dates(strs(p.holidays@))
        &&& rosters(s.faculty@) == roster_strs(p.faculty@)
        &&& days_view(s.days@) == planned_days(
            calendar_of(start, dates_view(s.holidays@)),
            rosters(s.faculty@),
        )
    }
}

/// Once the calendar ends, it stays ended.
proof fn lemma_date_after_ends(start: (int, int, int), j: nat, k: nat)
    requires
        j <= k,
        date_after(start, j) is None,
    ensures
        date_after(start, k) is None,
    decreases k - j,
{
    if j < k {
        lemma_date_after_ends(start, j, (k - 1) as nat);
    }
}

/// The date of the programme day written as `text` (`YYYY-MM-DD`), read as
/// that day at 08:30 in New York.
pub fn parse_day(text: &str) -> (r: Option<Date>)
    ensures
        match r {
            Some(d) => programme_date(text@) == Some(d@) && is_valid_date(d@),
            None => programme_date(text@) is None,
        },
{
    let mut zoned = String::from_str(text);
    zoned.append(" 08:30[America/New_York]");
    let r = jiff_parse_zoned_date(zoned.as_str());
    match &r {
        Some(d) => {
            let valid = d.is_valid();
            assert(valid);
        },
        None => {},
    }
    r
}

/// The holidays that can be read, in their order.
pub fn parse_holidays(hs: &Vec<&str>) -> (r: Vec<Date>)
    ensures
        dates_view(r@) == holiday_dates(strs(hs@)),
{
    let mut r: Vec<Date> = Vec::new();
    let n = hs.len();
    for i in 0..n
        invariant
            n == hs.len(),
            dates_view(r@) == holiday_dates(strs(hs@).take(i as int)),
    {
        let ghost prev = r@;
        assert(strs(hs@).take(i + 1).drop_last() =~= strs(hs@).take(i as int));
        match parse_day(hs[i]) {
            Some(d) => {
                r.push(d);
                assert(dates_view(r@) =~= dates_view(prev).push(d@));
            },
            None => {},
        }
    }
    assert(strs(hs@).take(n as int) =~= strs(hs@));
    r
}

/// Whether `d` is one of `dates`.
pub fn contains_date(dates: &Vec<Date>, d: &Date) -> (b: bool)
    ensures
        b == dates_view(dates@).contains(d@),
{
    let n = dates.len();
    for i in 0..n
        invariant
            n == dates.len(),
            forall|j: int| 0 <= j < i ==> #[trigger] dates_view(dates@)[j] != d@,
    {
        if dates[i].same_day(d) {
            assert(dates_view(dates@)[i as int] == d@);
            return true;
        }
    }
    false
}

/// The 72 calendar days from `start` with their weekdays and holidays, or
/// `None` where the calendar ends before.
pub fn build_calendar(start: Date, holidays: &Vec<Date>) -> (r: Option<Vec<CalendarDay>>)
    ensures
        r is Some <==> date_after(start@, 71) is Some,
        r matches Some(c) ==> stamps(c@) == calendar_of(start@, dates_view(holidays@)),
{
    let ghost cal = calendar_of(start@, dates_view(holidays@));
    let mut days: Vec<CalendarDay> = Vec::new();
    let mut date = start;
    for k in 0..72
        invariant
            cal == calendar_of(start@, dates_view(holidays@)),
            k <= 71 ==> date_after(start@, k as nat) == Some(date@),
            k > 0 ==> date_after(start@, (k - 1) as nat) is Some,
            days@.len() == k,
            forall|j: int| 0 <= j < k ==> #[trigger] stamps(days@)[j] == cal[j],
    {
        let weekday = date.weekday();
        let holiday = contains_date(holidays, &date);
        let ghost prev = days@;
        days.push(CalendarDay { date, weekday, holiday });
        assert(stamps(days@) =~= stamps(prev).push(cal[k as int]));
        if k < 71 {
            match date.tomorrow() {
                Some(t) => {
                    date = t;
                },
                None => {
                    proof {
                        lemma_date_after_ends(start@, (k + 1) as nat, 71);
                    }
                    return None;
                },
            }
        }
    }
    assert(stamps(days@) =~= cal);
    Some(days)
}

/// Creates the summer planned from `params`: `None` when the first day is
/// not a Monday.
pub fn create_summer(params: &Params) -> (r: Option<Summer>)
    requires
        summer_can_be_planned(params),
    ensures
        is_summer_of(params, r),
{
    let holidays = parse_holidays(&params.holidays);
    let start = parse_day(params.start_date).unwrap();
    let faculty = rosters_from(&params.faculty);
    if start.weekday() != Weekday::Monday {
        return None;
    }
    let cal = build_calendar(start, &holidays).unwrap();
    let days = plan_days(&cal, &faculty);
    Some(Summer { start_date: start, holidays, days, faculty })
}

/// Why a summer cannot be created from its parameters.
#[derive(Clone, Copy, Debug, PartialEq, Eq, Structural)]
pub enum PlanError {
    /// The first day cannot be read as a date.
    UnreadableStart,
    /// The calendar ends within 72 days of the first day.
    CalendarEnds,
    /// A week that is reached has no roster, or an empty one where it is used.
    MissingRoster,
}

/// Creates the summer planned from `params`, or tells why it cannot be.
pub fn try_create_summer(params: &Params) -> (r: Result<Option<Summer>, PlanError>)
    ensures
        r == Err::<Option<Summer>, PlanError>(PlanError::UnreadableStart) <==> programme_date(
            params.start_date@,
        ) is None,
        r is Ok <==> summer_can_be_planned(params),
        r matches Ok(o) ==> is_summer_of(params, o),
        r == Err::<Option<Summer>, PlanError>(PlanError::CalendarEnds) <==> ({
            &&& programme_date(params.start_date@) matches Some(s)
            &&& weekday_number(s.0, s.1, s.2) == 1
            &&& date_after(s, 71) is None
        }),
{
    let start = match parse_day(params.start_date) {
        Some(d) => d,
        None => {
            return Err(PlanError::UnreadableStart);
        },
    };
    if start.weekday() != Weekday::Monday {
        return Ok(create_summer(params));
    }
    let holidays = parse_holidays(&params.holidays);
    let cal = match build_calendar(start, &holidays) {
        Some(c) => c,
        None => {
            return Err(PlanError::CalendarEnds);
        },
    };
    let faculty = rosters_from(&params.faculty);
    if !check_feasible(&cal, &faculty) {
        return Err(PlanError::MissingRoster);
    }
    Ok(create_summer(params))
}


/// The days of a created summer are consecutive dates from its first day.
pub proof fn lemma_summer_dates(p: &Params, s: Summer, k: int)
    requires
        summer_can_be_planned(p),
        is_summer_of(p, Some(s)),
        0 <= k < 71,
    ensures
        s.days@.len() == 71,
        s.days@[k].date@ == date_after(s.start_date@, k as nat)->0,
        s.days@[0].date@ == s.start_date@,
        k + 1 < 71 ==> next_date(s.days@[k].date@) == Some(s.days@[k + 1].date@),
{
    let start = s.start_date@;
    let cal = calendar_of(start, dates_view(s.holidays@));
    let fac = rosters(s.faculty@);
    assert(days_view(s.days@).len() == 71);
    assert(days_view(s.days@)[k] == planned_day(cal, fac, k));
    assert(days_view(s.days@)[0] == planned_day(cal, fac, 0));
    if date_after(start, k as nat) is None {
        lemma_date_after_ends(start, k as nat, 71);
    }
    if date_after(start, (k + 1) as nat) is None {
        lemma_date_after_ends(start, (k + 1) as nat, 71);
    }
    if k + 1 < 71 {
        assert(days_view(s.days@)[k + 1] == planned_day(cal, fac, k + 1));
    }
}


/// Walking `k` days from a valid date gives a valid date `k` days and `k`
/// weekdays later.
pub proof fn lemma_walk(start: (int, int, int), k: nat)
    requires
        is_valid_date(start),
        date_after(start, k) is Some,
    ensures
        is_valid_date(date_after(start, k)->0),
        day_number(date_after(start, k)->0) == day_number(start) + k,
        weekday_of(date_after(start, k)->0) == (weekday_of(start) - 1 + k) % 7 + 1,
    decreases k,
{
    if k > 0 {
        if date_after(start, (k - 1) as nat) is None {
            lemma_date_after_ends(start, (k - 1) as nat, k);
        }
        lemma_walk(start, (k - 1) as nat);
        let t = date_after(start, (k - 1) as nat)->0;
        lemma_next_date(t);
        lemma_next_weekday(t);
    }
}

/// From a valid date before the year 9999 the calendar reaches 71 days on.
pub proof fn lemma_calendar_reaches(start: (int, int, int), k: nat)
    requires
        is_valid_date(start),
        start.0 < 9999,
        k <= 71,
    ensures
        date_after(start, k) is Some,
    decreases k,
{
    if k > 0 {
        lemma_calendar_reaches(start, (k - 1) as nat);
        lemma_walk(start, (k - 1) as nat);
        let t = date_after(start, (k - 1) as nat)->0;
        lemma_next_date(t);
        lemma_year_before_end(start);
    }
}

/// The calendar from a Monday has its weekdays in order.
pub proof fn lemma_calendar_in_order(start: (int, int, int), holidays: Seq<(int, int, int)>)
    requires
        is_valid_date(start),
        weekday_of(start) == 1,
        date_after(start, 71) is Some,
    ensures
        weekdays_in_order(calendar_of(start, holidays)),
{
    let cal = calendar_of(start, holidays);
    assert forall|k: int| 0 <= k < cal.len() implies #[trigger] cal[k].weekday == k % 7 + 1 by {
        if date_after(start, k as nat) is None {
            lemma_date_after_ends(start, k as nat, 71);
        }
        lemma_walk(start, k as nat);
    }
}

/// Eleven non-empty weekly rosters suffice: a summer can be planned from a
/// readable Monday before the year 9999.
pub proof fn lemma_eleven_rosters_suffice(p: &Params)
    requires
        programme_date(p.start_date@) is Some,
        is_valid_date(programme_date(p.start_date@)->0),
        weekday_of(programme_date(p.start_date@)->0) == 1,
        (programme_date(p.start_date@)->0).0 < 9999,
        p.faculty@.len() >= 11,
        forall|w: int| 0 <= w < 11 ==> (#[trigger] p.faculty@[w])@.len() > 0,
    ensures
        summer_can_be_planned(p),
{
    let start = programme_date(p.start_date@)->0;
    let cal = calendar_of(start, holiday_dates(strs(p.holidays@)));
    let fac = roster_strs(p.faculty@);
    lemma_calendar_reaches(start, 71);
    lemma_calendar_in_order(start, holiday_dates(strs(p.holidays@)));
    lemma_cursor_week_by_seven(cal, 71);
    assert forall|k: int| 0 <= k < 71 && #[trigger] uses_roster(cal, k) implies fac[plan_cursor(
        cal,
        k as nat,
    ).week].len() > 0 by {
        lemma_cursor_week_by_seven(cal, k as nat);
        assert(fac[k / 7] == strs(p.faculty@[k / 7]@));
    }
}

/// The days of a summer created from a Monday before the year 9999 with
/// eleven non-empty weekly rosters: day `i` is in week `i / 7 + 1`; everyone
/// on duty but the exam grader is on that week's roster; the exam grader, if
/// any, is JM; and on a teaching day without exam after the first, each drill
/// has three instructors when the roster has more than three members and
/// two otherwise, and there is a morning optional from teaching day 6 on.
pub proof fn lemma_summer_days(p: &Params, s: Summer, i: int)
    requires
        programme_date(p.start_date@) is Some,
        weekday_of(programme_date(p.start_date@)->0) == 1,
        (programme_date(p.start_date@)->0).0 < 9999,
        p.faculty@.len() >= 11,
        forall|w: int| 0 <= w < 11 ==> (#[trigger] p.faculty@[w])@.len() > 0,
        is_summer_of(p, Some(s)),
        0 <= i < 71,
    ensures
        s.days@[i]@.week == i / 7 + 1,
        forall|j: int|
            0 <= j < duty_names(s.days@[i]@).len() ==> roster_strs(p.faculty@)[i / 7].contains(
                #[trigger] duty_names(s.days@[i]@)[j],
            ),
        s.days@[i]@.exam is None || s.days@[i]@.exam == Some("JM"@),
        i > 0 && s.days@[i]@.day != 0 && s.days@[i]@.exam is None ==> {
            &&& s.days@[i]@.drill1.len() == (if roster_strs(p.faculty@)[i / 7].len() > 3 { 3int } else { 2int })
            &&& s.days@[i]@.drill2.len() == (if roster_strs(p.faculty@)[i / 7].len() > 3 { 3int } else { 2int })
            &&& (s.days@[i]@.morning_optional is Some <==> s.days@[i]@.day >= 6)
        },
{
    let start = programme_date(p.start_date@)->0;
    let cal = calendar_of(start, dates_view(s.holidays@));
    let fac = rosters(s.faculty@);
    assert(days_view(s.days@)[i] == planned_day(cal, fac, i));
    assert(dates_view(s.holidays@) == holiday_dates(strs(p.holidays@)));
    assert(fac == roster_strs(p.faculty@));
    lemma_eleven_rosters_suffice(p);
    lemma_calendar_reaches(start, 71);
    lemma_calendar_in_order(start, dates_view(s.holidays@));
    lemma_cursor_week_by_seven(cal, i as nat);
    lemma_cursor_bounds(cal, i as nat);
    lemma_duties_from_roster(cal, fac, i);
    assert(days_view(s.days@).len() == 71);
    assert(days_view(s.days@)[i] == s.days@[i]@);
    assert(planned_day(cal, fac, i).week == i / 7 + 1);
}

} // verus!
