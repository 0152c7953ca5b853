//! The programme's data: classes, days, faculty rosters and the summer plan.

use vstd::prelude::*;
use crate::date::Date;
use crate::group::texts;

verus! {

/// The text of an optional string.
pub open spec fn opt_text(o: Option<String>) -> Option<Seq<char>> {
    match o {
        Some(s) => Some(s@),
        None => None,
    }
}

/// The texts of an optional list of strings.
pub open spec fn opt_texts(o: Option<Vec<String>>) -> Option<Seq<Seq<char>>> {
    match o {
        Some(v) => Some(texts(v@)),
        None => None,
    }
}

/// The texts of a sequence of string slices.
pub open spec fn strs(v: Seq<&str>) -> Seq<Seq<char>> {
    v.map_values(|s: &str| s@)
}

/// A class taught in a session: its title, instructor and handouts.
#[derive(Clone, Debug, PartialEq)]
pub struct LgiClass {
    pub title: String,
    pub instructor: String,
    pub handouts: Option<Vec<String>>,
}

/// The contents of an `LgiClass`.
pub struct LgiClassView {
    pub title: Seq<char>,
    pub instructor: Seq<char>,
    pub handouts: Option<Seq<Seq<char>>>,
}

impl View for LgiClass {
    type V = LgiClassView;

    open spec fn view(&self) -> LgiClassView {
        LgiClassView {
            title: self.title@,
            instructor: self.instructor@,
            handouts: opt_texts(self.handouts),
        }
    }
}

/// What a summer is planned from: one faculty roster per week, the first
/// day, and the holidays, dates written as `YYYY-MM-DD`.
pub struct Params<'a> {
    pub faculty: Vec<Vec<&'a str>>,
    pub start_date: &'a str,
    pub holidays: Vec<&'a str>,
}

/// The faculty on duty in one week.
#[derive(Clone, Debug, PartialEq)]
pub struct FacultyWeek {
    pub faculty: Vec<String>,
}

/// The rosters of a sequence of weeks.
pub open spec fn rosters(f: Seq<FacultyWeek>) -> Seq<Seq<Seq<char>>> {
    f.map_values(|w: FacultyWeek| texts(w.faculty@))
}

/// The rosters of a sequence of weeks given as string slices.
pub open spec fn roster_strs(vv: Seq<Vec<&str>>) -> Seq<Seq<Seq<char>>> {
    vv.map_values(|v: Vec<&str>| strs(v@))
}

/// One day of the programme: its place in the calendar and its duties.
/// `day` is the number of the teaching day, 0 on days off.
#[derive(Clone, Debug, PartialEq)]
pub struct Day {
    pub week: u32,
    pub day: u32,
    pub date: Date,
    pub day_one_lectures: Option<Vec<String>>,
    pub exam: Option<String>,
    pub morning_optional: Option<String>,
    pub quiz_grader: Option<String>,
    pub drill1: Vec<String>,
    pub drill2: Vec<String>,
    pub noon_optional1: Option<String>,
    pub noon_optional2: Option<String>,
    pub noon_optional1_title: Option<String>,
    pub noon_optional2_title: Option<String>,
    pub lecture: Option<String>,
    pub lecture_title: Option<String>,
    pub voc_notes: Option<String>,
    pub friday_review1: Vec<String>,
    pub friday_review2: Vec<String>,
    pub other: Option<String>,
    pub test: Vec<LgiClass>,
}

/// The contents of a `Day`.
pub struct DayView {
    pub week: int,
    pub day: int,
    pub date: (int, int, int),
    pub day_one_lectures: Option<Seq<Seq<char>>>,
    pub exam: Option<Seq<char>>,
    pub morning_optional: Option<Seq<char>>,
    pub quiz_grader: Option<Seq<char>>,
    pub drill1: Seq<Seq<char>>,
    pub drill2: Seq<Seq<char>>,
    pub noon_optional1: Option<Seq<char>>,
    pub noon_optional2: Option<Seq<char>>,
    pub noon_optional1_title: Option<Seq<char>>,
    pub noon_optional2_title: Option<Seq<char>>,
    pub lecture: Option<Seq<char>>,
    pub lecture_title: Option<Seq<char>>,
    pub voc_notes: Option<Seq<char>>,
    pub friday_review1: Seq<Seq<char>>,
    pub friday_review2: Seq<Seq<char>>,
    pub other: Option<Seq<char>>,
    pub test: Seq<LgiClassView>,
}

impl View for Day {
    type V = DayView;

    open spec fn view(&self) -> DayView {
        DayView {
            week: self.week as int,
            day: self.day as int,
            date: self.date@,
            day_one_lectures: opt_texts(self.day_one_lectures),
            exam: opt_text(self.exam),
            morning_optional: opt_text(self.morning_optional),
            quiz_grader: opt_text(self.quiz_grader),
            drill1: texts(self.drill1@),
            drill2: texts(self.drill2@),
            noon_optional1: opt_text(self.noon_optional1),
            noon_optional2: opt_text(self.noon_optional2),
            noon_optional1_title: opt_text(self.noon_optional1_title),
            noon_optional2_title: opt_text(self.noon_optional2_title),
            lecture: opt_text(self.lecture),
            lecture_title: opt_text(self.lecture_title),
            voc_notes: opt_text(self.voc_notes),
            friday_review1: texts(self.friday_review1@),
            friday_review2: texts(self.friday_review2@),
            other: opt_text(self.other),
            test: self.test@.map_values(|c: LgiClass| c@),
        }
    }
}

/// The contents of a sequence of days.
pub open spec fn days_view(d: Seq<Day>) -> Seq<DayView> {
    d.map_values(|x: Day| x@)
}

/// The dates of a sequence of dates.
pub open spec fn dates_view(d: Seq<Date>) -> Seq<(int, int, int)> {
    d.map_values(|x: Date| x@)
}

/// A summer programme: first day, holidays, the planned days and the
/// weekly faculty rosters.
#[derive(Clone, Debug, PartialEq)]
pub struct Summer {
    pub start_date: Date,
    pub holidays: Vec<Date>,
    pub days: Vec<Day>,
    pub faculty: Vec<FacultyWeek>,
}

/// Builds the weekly rosters from rosters of string slices.
pub(crate) fn rosters_from(vv: &Vec<Vec<&str>>) -> (r: Vec<FacultyWeek>)
    ensures
        rosters(r@) == roster_strs(vv@),
{
    let mut r: Vec<FacultyWeek> = Vec::new();
    let n = vv.len();
    for i in 0..n
        invariant
            n == vv.len(),
            r@.len() == i,
            forall|j: int| 0 <= j < i ==> texts(#[trigger] r@[j].faculty@) == strs(vv@[j]@),
    {
        let v = &vv[i];
        let mut names: Vec<String> = Vec::new();
        let m = v.len();
        for k in 0..m
            invariant
                m == v.len(),
                names@.len() == k,
                forall|j: int| 0 <= j < k ==> #[trigger] names@[j]@ == v@[j]@,
        {
            names.push(String::from_str(v[k]));
        }
        assert(texts(names@) =~= strs(v@));
        r.push(FacultyWeek { faculty: names });
    }
    assert(rosters(r@) =~= roster_strs(vv@));
    r
}

/// Builds the weekly rosters, one `FacultyWeek` per inner list, names in
/// their order.
pub fn make_faculty(vv: Vec<Vec<&str>>) -> (r: Vec<FacultyWeek>)
    ensures
        rosters(r@) == roster_strs(vv@),
{
    rosters_from(&vv)
}

} // verus!
