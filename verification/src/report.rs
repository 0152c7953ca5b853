//! Summaries of a summer: each faculty member's duties in a week, and the
//! duties of one day counted per person.

use vstd::prelude::*;
use crate::date::weekday_number;
use crate::group::{texts, events_view, groups_view, is_grouping, group_by_name, lemma_grouping_unique, labels_for, mentions, lemma_labels_unmentioned};
use crate::stats::{occurrences, lemma_occurrences_concat, lemma_occurrences_contains};
use crate::model::{Day, DayView, FacultyWeek, Summer, rosters, days_view, opt_text};

verus! {

/// The label of the `i`-th of `n` drill instructors: groups E, F (F/G when
/// there are more than two) and H.
pub open spec fn group_label(i: int, n: int) -> Seq<char> {
    if i == 0 {
        "E"@
    } else if i == 1 {
        if n > 2 { "F/G"@ } else { "F"@ }
    } else {
        "H"@
    }
}

/// Each name with the same label.
pub open spec fn tagged(names: Seq<Seq<char>>, label: Seq<char>) -> Seq<(Seq<char>, Seq<char>)> {
    names.map_values(|n: Seq<char>| (n, label))
}

/// Each name twice with the same label.
pub open spec fn tagged_twice(names: Seq<Seq<char>>, label: Seq<char>) -> Seq<(Seq<char>, Seq<char>)> {
    Seq::new(2 * names.len(), |j: int| (names[j / 2], label))
}

/// The drill instructors with their group labels.
pub open spec fn drill_events(names: Seq<Seq<char>>) -> Seq<(Seq<char>, Seq<char>)> {
    Seq::new(names.len(), |i: int| (names[i], group_label(i, names.len() as int)))
}

/// A name, if any, with a label.
pub open spec fn opt_event(o: Option<Seq<char>>, label: Seq<char>) -> Seq<(Seq<char>, Seq<char>)> {
    match o {
        Some(n) => seq![(n, label)],
        None => Seq::empty(),
    }
}

/// The members of `roster` not among `present`, in roster order.
pub open spec fn absent(roster: Seq<Seq<char>>, present: Seq<Seq<char>>) -> Seq<Seq<char>>
    decreases roster.len(),
{
    if roster.len() == 0 {
        Seq::empty()
    } else if present.contains(roster.last()) {
        absent(roster.drop_last(), present)
    } else {
        absent(roster.drop_last(), present).push(roster.last())
    }
}

/// A holiday on a weekday: the whole roster is marked off twice.
pub open spec fn weekday_holiday(d: DayView) -> bool {
    d.day == 0 && weekday_number(d.date.0, d.date.1, d.date.2) != 6
        && weekday_number(d.date.0, d.date.1, d.date.2) != 7
}

/// A day without morning optional and with a first drill: roster members
/// not drilling are marked off.
pub open spec fn marks_absent(d: DayView) -> bool {
    d.morning_optional is None && d.drill1.len() > 0
}

/// Whether the summary of `week` reads that week's roster for day `d`.
pub open spec fn needs_roster(d: DayView, week: int) -> bool {
    d.week == week && d.exam is None && (weekday_holiday(d) || marks_absent(d))
}

/// The duties of day `d` in the summary of `week`, given the week's roster:
/// none on days of other weeks and on exam days; otherwise holidays, morning
/// optional, first drill, absences, quiz and second drill, in that order.
pub open spec fn day_events(d: DayView, week: int, roster: Seq<Seq<char>>) -> Seq<(Seq<char>, Seq<char>)> {
    if d.week != week || d.exam is Some {
        Seq::empty()
    } else {
        (if weekday_holiday(d) { tagged_twice(roster, "HOL"@) } else { Seq::empty() })
            + opt_event(d.morning_optional, "MO"@)
            + drill_events(d.drill1)
            + (if marks_absent(d) { tagged(absent(roster, d.drill1), "OFF"@) } else { Seq::empty() })
            + opt_event(d.quiz_grader, "QUIZ"@)
            + drill_events(d.drill2)
    }
}

/// The duties of all `days` in the summary of `week`, in day order.
pub open spec fn week_events(days: Seq<DayView>, week: int, roster: Seq<Seq<char>>) -> Seq<(Seq<char>, Seq<char>)>
    decreases days.len(),
{
    if days.len() == 0 {
        Seq::empty()
    } else {
        week_events(days.drop_last(), week, roster) + day_events(days.last(), week, roster)
    }
}

/// The summary of `week` can be made: where a day needs the week's roster,
/// the week has one.
pub open spec fn seqs_can_be_made(s: &Summer, week: int) -> bool {
    forall|i: int|
        0 <= i < s.days@.len() && #[trigger] needs_roster(s.days@[i]@, week) ==> 1 <= week <= s.faculty@.len()
}

fn push_event(ev: &mut Vec<(String, String)>, name: &String, label: &str)
    ensures
        events_view(final(ev)@) == events_view(old(ev)@).push((name@, label@)),
{
    let ghost prev = ev@;
    ev.push((name.clone(), String::from_str(label)));
    assert(events_view(ev@) =~= events_view(prev).push((name@, label@)));
}

fn push_opt_event(ev: &mut Vec<(String, String)>, name: &Option<String>, label: &str)
    ensures
        events_view(final(ev)@) == events_view(old(ev)@) + opt_event(opt_text(*name), label@),
{
    let ghost prev = events_view(ev@);
    match name {
        Some(n) => {
            push_event(ev, n, label);
            assert(events_view(ev@) =~= prev + opt_event(opt_text(*name), label@));
        },
        None => {
            assert(events_view(ev@) =~= prev + opt_event(opt_text(*name), label@));
        },
    }
}

fn drill_label(i: usize, n: usize) -> (l: &'static str)
    ensures
        l@ == group_label(i as int, n as int),
{
    if i == 0 {
        "E"
    } else if i == 1 {
        if n > 2 { "F/G" } else { "F" }
    } else {
        "H"
    }
}

fn push_drill(ev: &mut Vec<(String, String)>, drill: &Vec<String>)
    ensures
        events_view(final(ev)@) == events_view(old(ev)@) + drill_events(texts(drill@)),
{
    let ghost start = events_view(ev@);
    let n = drill.len();
    for i in 0..n
        invariant
            n == drill.len(),
            events_view(ev@) == start + drill_events(texts(drill@)).take(i as int),
    {
        push_event(ev, &drill[i], drill_label(i, n));
        assert(drill_events(texts(drill@)).take(i + 1) =~= drill_events(texts(drill@)).take(i as int).push(
            (drill@[i as int]@, group_label(i as int, n as int)),
        ));
    }
    assert(drill_events(texts(drill@)).take(n as int) =~= drill_events(texts(drill@)));
}

fn push_twice(ev: &mut Vec<(String, String)>, roster: &Vec<String>, label: &str)
    ensures
        events_view(final(ev)@) == events_view(old(ev)@) + tagged_twice(texts(roster@), label@),
{
    let ghost start = events_view(ev@);
    let n = roster.len();
    for i in 0..n
        invariant
            n == roster.len(),
            events_view(ev@) == start + tagged_twice(texts(roster@), label@).take(2 * i),
    {
        push_event(ev, &roster[i], label);
        push_event(ev, &roster[i], label);
        assert(tagged_twice(texts(roster@), label@).take(2 * (i + 1)) =~= tagged_twice(texts(roster@), label@).take(
            2 * i,
        ).push((roster@[i as int]@, label@)).push((roster@[i as int]@, label@)));
    }
    assert(tagged_twice(texts(roster@), label@).take(2 * n) =~= tagged_twice(texts(roster@), label@));
}

/// Whether `name` is among `names`.
pub fn contains_text(names: &Vec<String>, name: &String) -> (b: bool)
    ensures
        b == texts(names@).contains(name@),
{
    let n = names.len();
    for i in 0..n
        invariant
            n == names.len(),
            forall|j: int| 0 <= j < i ==> #[trigger] texts(names@)[j] != name@,
    {
        if names[i] == *name {
            assert(texts(names@)[i as int] == name@);
            return true;
        }
    }
    false
}

fn push_absent(ev: &mut Vec<(String, String)>, roster: &Vec<String>, present: &Vec<String>, label: &str)
    ensures
        events_view(final(ev)@) == events_view(old(ev)@) + tagged(absent(texts(roster@), texts(present@)), label@),
{
    let ghost start = events_view(ev@);
    let n = roster.len();
    for i in 0..n
        invariant
            n == roster.len(),
            events_view(ev@) == start + tagged(absent(texts(roster@).take(i as int), texts(present@)), label@),
    {
        assert(texts(roster@).take(i + 1).drop_last() =~= texts(roster@).take(i as int));
        assert(texts(roster@).take(i + 1).last() == roster@[i as int]@);
        if !contains_text(present, &roster[i]) {
            push_event(ev, &roster[i], label);
            assert(tagged(absent(texts(roster@).take(i + 1), texts(present@)), label@) =~= tagged(
                absent(texts(roster@).take(i as int), texts(present@)),
                label@,
            ).push((roster@[i as int]@, label@)));
        }
    }
    assert(texts(roster@).take(n as int) =~= texts(roster@));
}

/// Appends the duties of `day` in the summary of `week`.
fn push_day_events(ev: &mut Vec<(String, String)>, day: &Day, week: u32, faculty: &Vec<FacultyWeek>)
    requires
        needs_roster(day@, week as int) ==> 1 <= week <= faculty.len(),
    ensures
        events_view(final(ev)@) == events_view(old(ev)@) + day_events(
            day@,
            week as int,
            rosters(faculty@)[week - 1],
        ),
{
    let ghost start = events_view(ev@);
    let ghost roster = rosters(faculty@)[week - 1];
    if day.week != week || day.exam.is_some() {
        assert(events_view(ev@) =~= start + day_events(day@, week as int, roster));
        return;
    }
    let holiday = day.day == 0 && !day.date.weekday().is_weekend();
    if holiday {
        let w = (week - 1) as usize;
        assert(texts(faculty@[w as int].faculty@) == roster);
        push_twice(ev, &faculty[w].faculty, "HOL");
    }
    let ghost after_holiday = events_view(ev@);
    push_opt_event(ev, &day.morning_optional, "MO");
    push_drill(ev, &day.drill1);
    let ghost after_drill = events_view(ev@);
    let absences = day.morning_optional.is_none() && day.drill1.len() > 0;
    if absences {
        let w = (week - 1) as usize;
        assert(texts(faculty@[w as int].faculty@) == roster);
        push_absent(ev, &faculty[w].faculty, &day.drill1, "OFF");
    }
    let ghost after_absent = events_view(ev@);
    push_opt_event(ev, &day.quiz_grader, "QUIZ");
    push_drill(ev, &day.drill2);
    proof {
        let d = day@;
        let hol_part = if weekday_holiday(d) { tagged_twice(roster, "HOL"@) } else { Seq::empty() };
        let off_part = if marks_absent(d) { tagged(absent(roster, d.drill1), "OFF"@) } else { Seq::empty() };
        assert(after_holiday =~= start + hol_part);
        assert(after_absent =~= after_drill + off_part);
        assert(events_view(ev@) =~= start + day_events(d, week as int, roster));
    }
}

impl Summer {
    /// For `week` (counted from 1), each faculty member's duties in day
    /// order (HOL, MO, E, F, F/G, H, OFF, QUIZ), one entry per member in name
    /// order. Exam days contribute nothing.
    pub fn get_seqs(&self, week: u32) -> (r: Vec<(String, Vec<String>)>)
        requires
            seqs_can_be_made(self, week as int),
        ensures
            is_grouping(
                groups_view(r@),
                week_events(days_view(self.days@), week as int, rosters(self.faculty@)[week - 1]),
            ),
    {
        let ghost roster = rosters(self.faculty@)[week - 1];
        let ghost all = days_view(self.days@);
        let mut ev: Vec<(String, String)> = Vec::new();
        let n = self.days.len();
        for i in 0..n
            invariant
                n == self.days.len(),
                all == days_view(self.days@),
                roster == rosters(self.faculty@)[week - 1],
                seqs_can_be_made(self, week as int),
                events_view(ev@) == week_events(all.take(i as int), week as int, roster),
        {
            assert(needs_roster(self.days@[i as int]@, week as int) ==> 1 <= week <= self.faculty@.len());
            push_day_events(&mut ev, &self.days[i], week, &self.faculty);
            assert(all.take(i + 1).drop_last() =~= all.take(i as int));
        }
        assert(all.take(n as int) =~= all);
        group_by_name(&ev)
    }

    /// The summary of `week`, or `None` where a day of that week needs a
    /// roster that the summer does not have.
    pub fn checked_seqs(&self, week: u32) -> (r: Option<Vec<(String, Vec<String>)>>)
        ensures
            r is Some <==> seqs_can_be_made(self, week as int),
            r matches Some(g) ==> is_grouping(
                groups_view(g@),
                week_events(days_view(self.days@), week as int, rosters(self.faculty@)[week - 1]),
            ),
    {
        let in_range = 1 <= week && (week as usize) <= self.faculty.len();
        let n = self.days.len();
        for i in 0..n
            invariant
                n == self.days.len(),
                in_range == (1 <= week <= self.faculty@.len()),
                !in_range ==> forall|j: int| 0 <= j < i ==> !#[trigger] needs_roster(self.days@[j]@, week as int),
        {
            let d = &self.days[i];
            if !in_range && d.week == week && d.exam.is_none() {
                let holiday = d.day == 0 && !d.date.weekday().is_weekend();
                if holiday || (d.morning_optional.is_none() && d.drill1.len() > 0) {
                    assert(needs_roster(self.days@[i as int]@, week as int));
                    return None;
                }
            }
        }
        Some(self.get_seqs(week))
    }
}


/// The days that hold no exam, in their order.
pub open spec fn without_exams(days: Seq<DayView>) -> Seq<DayView>
    decreases days.len(),
{
    if days.len() == 0 {
        Seq::empty()
    } else if days.last().exam is Some {
        without_exams(days.drop_last())
    } else {
        without_exams(days.drop_last()).push(days.last())
    }
}

proof fn lemma_events_without_exams(days: Seq<DayView>, week: int, roster: Seq<Seq<char>>)
    ensures
        week_events(days, week, roster) == week_events(without_exams(days), week, roster),
    decreases days.len(),
{
    if days.len() > 0 {
        lemma_events_without_exams(days.drop_last(), week, roster);
        let rest = without_exams(days.drop_last());
        if days.last().exam is Some {
            assert(week_events(days, week, roster) =~= week_events(days.drop_last(), week, roster));
        } else {
            assert(rest.push(days.last()).drop_last() =~= rest);
        }
    }
}

/// Exam days contribute nothing to a weekly summary: two summers with the
/// same rosters whose days agree once the exam days are left out have the
/// same summary of every week.
pub proof fn lemma_seqs_ignore_exam_days(
    s1: &Summer,
    s2: &Summer,
    week: int,
    g1: Seq<(Seq<char>, Seq<Seq<char>>)>,
    g2: Seq<(Seq<char>, Seq<Seq<char>>)>,
)
    requires
        rosters(s1.faculty@) == rosters(s2.faculty@),
        without_exams(days_view(s1.days@)) == without_exams(days_view(s2.days@)),
        is_grouping(g1, week_events(days_view(s1.days@), week, rosters(s1.faculty@)[week - 1])),
        is_grouping(g2, week_events(days_view(s2.days@), week, rosters(s2.faculty@)[week - 1])),
    ensures
        g1 == g2,
{
    let roster = rosters(s1.faculty@)[week - 1];
    lemma_events_without_exams(days_view(s1.days@), week, roster);
    lemma_events_without_exams(days_view(s2.days@), week, roster);
    lemma_grouping_unique(g1, g2, week_events(days_view(s1.days@), week, roster));
}


/// A day of `week` without exam that is off (teaching-day number 0) and
/// falls on Monday to Friday.
pub open spec fn is_weekday_holiday_of(d: DayView, week: int) -> bool {
    &&& d.week == week
    &&& d.exam is None
    &&& d.day == 0
    &&& weekday_number(d.date.0, d.date.1, d.date.2) <= 5
}

/// How many of `days` are weekday holidays of `week`.
pub open spec fn weekday_holidays(days: Seq<DayView>, week: int) -> nat
    decreases days.len(),
{
    if days.len() == 0 {
        0
    } else {
        weekday_holidays(days.drop_last(), week) + if is_weekday_holiday_of(days.last(), week) {
            1nat
        } else {
            0nat
        }
    }
}

proof fn lemma_labels_concat(a: Seq<(Seq<char>, Seq<char>)>, b: Seq<(Seq<char>, Seq<char>)>, name: Seq<char>)
    ensures
        labels_for(a + b, name) == labels_for(a, name) + labels_for(b, name),
    decreases b.len(),
{
    if b.len() == 0 {
        assert(a + b =~= a);
        assert(labels_for(a, name) + labels_for(b, name) =~= labels_for(a, name));
    } else {
        assert((a + b).drop_last() =~= a + b.drop_last());
        lemma_labels_concat(a, b.drop_last(), name);
        let x = labels_for(a, name);
        let y = labels_for(b.drop_last(), name);
        assert((x + y).push(b.last().1) =~= x + y.push(b.last().1));
    }
}

proof fn lemma_label_absent(ev: Seq<(Seq<char>, Seq<char>)>, name: Seq<char>, l: Seq<char>)
    requires
        forall|i: int| 0 <= i < ev.len() ==> #[trigger] ev[i].1 != l,
    ensures
        occurrences(labels_for(ev, name), l) == 0,
    decreases ev.len(),
{
    if ev.len() > 0 {
        let rest = ev.drop_last();
        assert forall|i: int| 0 <= i < rest.len() implies #[trigger] rest[i].1 != l by {
            assert(rest[i] == ev[i]);
        }
        lemma_label_absent(rest, name, l);
        assert(ev[ev.len() - 1] == ev.last());
        let x = labels_for(rest, name);
        assert(x.push(ev.last().1).drop_last() =~= x);
    } else {
        assert(labels_for(ev, name) =~= Seq::<Seq<char>>::empty());
    }
}

proof fn lemma_pair_marks(n: Seq<char>, name: Seq<char>, l: Seq<char>)
    ensures
        occurrences(labels_for(seq![(n, l), (n, l)], name), l) == if n == name { 2nat } else { 0nat },
{
    let single = seq![(n, l)];
    let pair = seq![(n, l), (n, l)];
    let e = Seq::<(Seq<char>, Seq<char>)>::empty();
    let none = Seq::<Seq<char>>::empty();
    assert(single.drop_last() =~= e);
    assert(pair.drop_last() =~= single);
    assert(labels_for(e, name) == none);
    let one = none.push(l);
    let two = one.push(l);
    assert(labels_for(single, name) == if n == name { one } else { none });
    assert(labels_for(pair, name) == if n == name { two } else { none });
    assert(one.drop_last() =~= none);
    assert(two.drop_last() =~= one);
    assert(occurrences(none, l) == 0);
    assert(occurrences(one, l) == 1);
    assert(occurrences(two, l) == 2);
}

proof fn lemma_roster_marks(r: Seq<Seq<char>>, name: Seq<char>, l: Seq<char>)
    ensures
        occurrences(labels_for(tagged_twice(r, l), name), l) == 2 * occurrences(r, name),
    decreases r.len(),
{
    if r.len() == 0 {
        assert(tagged_twice(r, l) =~= Seq::<(Seq<char>, Seq<char>)>::empty());
        assert(labels_for(tagged_twice(r, l), name) =~= Seq::<Seq<char>>::empty());
    } else {
        let rest = r.drop_last();
        let pair = seq![(r.last(), l), (r.last(), l)];
        assert(tagged_twice(r, l) =~= tagged_twice(rest, l) + pair);
        lemma_roster_marks(rest, name, l);
        lemma_labels_concat(tagged_twice(rest, l), pair, name);
        lemma_occurrences_concat(labels_for(tagged_twice(rest, l), name), labels_for(pair, name), l);
        lemma_pair_marks(r.last(), name, l);
    }
}

proof fn lemma_day_holiday_marks(d: DayView, week: int, roster: Seq<Seq<char>>, name: Seq<char>)
    ensures
        occurrences(labels_for(day_events(d, week, roster), name), "HOL"@) == if is_weekday_holiday_of(d, week) {
            2 * occurrences(roster, name)
        } else {
            0
        },
{
    let hol = "HOL"@;
    if d.week != week || d.exam is Some {
        assert(labels_for(day_events(d, week, roster), name) =~= Seq::<Seq<char>>::empty());
    } else {
        reveal_strlit("HOL");
        reveal_strlit("MO");
        reveal_strlit("E");
        reveal_strlit("F");
        reveal_strlit("F/G");
        reveal_strlit("H");
        reveal_strlit("OFF");
        reveal_strlit("QUIZ");
        let h = if weekday_holiday(d) { tagged_twice(roster, hol) } else { Seq::empty() };
        let mo = opt_event(d.morning_optional, "MO"@);
        let d1 = drill_events(d.drill1);
        let off = if marks_absent(d) { tagged(absent(roster, d.drill1), "OFF"@) } else { Seq::empty() };
        let qz = opt_event(d.quiz_grader, "QUIZ"@);
        let d2 = drill_events(d.drill2);
        let p1 = h + mo;
        let p2 = p1 + d1;
        let p3 = p2 + off;
        let p4 = p3 + qz;
        assert(day_events(d, week, roster) == p4 + d2);
        assert forall|i: int| 0 <= i < mo.len() implies #[trigger] mo[i].1 != hol by {
            assert(mo[i].1 == "MO"@);
            assert("MO"@.len() != hol.len());
        }
        assert forall|i: int| 0 <= i < d1.len() implies #[trigger] d1[i].1 != hol by {
            assert(d1[i].1 == group_label(i, d.drill1.len() as int));
            assert("F/G"@[0] != hol[0]);
        }
        assert forall|i: int| 0 <= i < off.len() implies #[trigger] off[i].1 != hol by {
            assert("OFF"@[0] != hol[0]);
        }
        assert forall|i: int| 0 <= i < qz.len() implies #[trigger] qz[i].1 != hol by {
            assert(qz[i].1 == "QUIZ"@);
            assert("QUIZ"@.len() != hol.len());
        }
        assert forall|i: int| 0 <= i < d2.len() implies #[trigger] d2[i].1 != hol by {
            assert(d2[i].1 == group_label(i, d.drill2.len() as int));
            assert("F/G"@[0] != hol[0]);
        }
        lemma_label_absent(mo, name, hol);
        lemma_label_absent(d1, name, hol);
        lemma_label_absent(off, name, hol);
        lemma_label_absent(qz, name, hol);
        lemma_label_absent(d2, name, hol);
        lemma_labels_concat(h, mo, name);
        lemma_labels_concat(p1, d1, name);
        lemma_labels_concat(p2, off, name);
        lemma_labels_concat(p3, qz, name);
        lemma_labels_concat(p4, d2, name);
        lemma_occurrences_concat(labels_for(h, name), labels_for(mo, name), hol);
        lemma_occurrences_concat(labels_for(p1, name), labels_for(d1, name), hol);
        lemma_occurrences_concat(labels_for(p2, name), labels_for(off, name), hol);
        lemma_occurrences_concat(labels_for(p3, name), labels_for(qz, name), hol);
        lemma_occurrences_concat(labels_for(p4, name), labels_for(d2, name), hol);
        if weekday_holiday(d) {
            lemma_roster_marks(roster, name, hol);
        } else {
            assert(labels_for(h, name) =~= Seq::<Seq<char>>::empty());
        }
    }
}

/// How often a weekly summary marks a name HOL: twice per place of the name
/// on the week's roster for every weekday holiday of the week, and never
/// otherwise.
pub proof fn lemma_holiday_marks(days: Seq<DayView>, week: int, roster: Seq<Seq<char>>, name: Seq<char>)
    ensures
        occurrences(labels_for(week_events(days, week, roster), name), "HOL"@) == 2 * occurrences(roster, name)
            * weekday_holidays(days, week),
    decreases days.len(),
{
    if days.len() == 0 {
        assert(labels_for(week_events(days, week, roster), name) =~= Seq::<Seq<char>>::empty());
        assert(occurrences(Seq::<Seq<char>>::empty(), "HOL"@) == 0);
        let o = occurrences(roster, name) as int;
        assert(2 * o * 0 == 0) by (nonlinear_arith);
    } else {
        let rest = days.drop_last();
        lemma_holiday_marks(rest, week, roster, name);
        lemma_labels_concat(week_events(rest, week, roster), day_events(days.last(), week, roster), name);
        lemma_occurrences_concat(
            labels_for(week_events(rest, week, roster), name),
            labels_for(day_events(days.last(), week, roster), name),
            "HOL"@,
        );
        lemma_day_holiday_marks(days.last(), week, roster, name);
        let o = occurrences(roster, name) as int;
        let k = weekday_holidays(rest, week) as int;
        assert(2 * o * (k + 1) == 2 * o * k + 2 * o) by (nonlinear_arith);
        if is_weekday_holiday_of(days.last(), week) {
            assert(weekday_holidays(days, week) == k + 1);
        } else {
            assert(weekday_holidays(days, week) == k);
        }
    }
}

/// Weekday holidays in the summary of a week: each listed person carries
/// HOL twice per place on the week's roster for every day of the week that
/// is off and falls on Monday to Friday, and no other HOL; where the week
/// has such a day, every member of its roster is listed.
pub proof fn lemma_summary_holidays(
    days: Seq<DayView>,
    week: int,
    roster: Seq<Seq<char>>,
    g: Seq<(Seq<char>, Seq<Seq<char>>)>,
)
    requires
        is_grouping(g, week_events(days, week, roster)),
    ensures
        forall|i: int| 0 <= i < g.len() ==> occurrences(#[trigger] g[i].1, "HOL"@) == 2 * occurrences(
            roster,
            g[i].0,
        ) * weekday_holidays(days, week),
        weekday_holidays(days, week) > 0 ==> forall|name: Seq<char>| #[trigger] roster.contains(name)
            ==> exists|i: int| 0 <= i < g.len() && #[trigger] g[i].0 == name,
{
    let ev = week_events(days, week, roster);
    assert forall|i: int| 0 <= i < g.len() implies occurrences(#[trigger] g[i].1, "HOL"@) == 2 * occurrences(
        roster,
        g[i].0,
    ) * weekday_holidays(days, week) by {
        lemma_holiday_marks(days, week, roster, g[i].0);
    }
    if weekday_holidays(days, week) > 0 {
        assert forall|name: Seq<char>| #[trigger] roster.contains(name) implies exists|i: int|
            0 <= i < g.len() && #[trigger] g[i].0 == name by {
            lemma_occurrences_contains(roster, name);
            lemma_holiday_marks(days, week, roster, name);
            let o = occurrences(roster, name) as int;
            let k = weekday_holidays(days, week) as int;
            assert(2 * o * k > 0) by (nonlinear_arith)
                requires
                    o > 0,
                    k > 0,
            ;
            if !mentions(ev, name) {
                lemma_labels_unmentioned(ev, name);
                assert(occurrences(Seq::<Seq<char>>::empty(), "HOL"@) == 0);
            }
        }
    }
}

} // verus!
