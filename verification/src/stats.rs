//! The `SgiDay` interface of a day: its drills and its duties per person.

use vstd::prelude::*;
use crate::group::{texts, events_view, groups_view, labels_for, mentions, names_ascending, names_of, is_grouping, group_by_name, lemma_ascending_unique, total_labels, lemma_grouping_total};
use crate::text::text_less;
use crate::model::{Day, DayView, opt_text};

verus! {

/// What every day of the programme offers.
pub trait SgiDay {
    /// The instructors of the first drill.
    fn get_drill1(&self) -> Vec<String>;

    /// The instructors of the second drill.
    fn get_drill2(&self) -> Vec<String>;

    /// Each person on duty with the number of their duties, in name order.
    fn get_stats(&self) -> Vec<(String, u32)>;

    /// Whether the day is consistent.
    fn validate(&self) -> bool;
}

/// A name, if any, as a sequence of at most one name.
pub open spec fn opt_name(o: Option<Seq<char>>) -> Seq<Seq<char>> {
    match o {
        Some(n) => seq![n],
        None => Seq::empty(),
    }
}

/// Everyone on duty on day `d` apart from the exam grader, once per duty:
/// quiz, morning optional, the two noon optionals, lecture, vocabulary
/// notes, both drills, both Friday reviews and the first-day lectures, in
/// that order.
pub open spec fn duty_names(d: DayView) -> Seq<Seq<char>> {
    opt_name(d.quiz_grader) + opt_name(d.morning_optional) + opt_name(d.noon_optional1)
        + opt_name(d.noon_optional2) + opt_name(d.lecture) + opt_name(d.voc_notes) + d.drill1 + d.drill2
        + d.friday_review1 + d.friday_review2 + match d.day_one_lectures {
        Some(v) => v,
        None => Seq::empty(),
    }
}

/// Everyone on duty on day `d`, once per duty: the exam grader, then the
/// others as `duty_names` lists them.
pub open spec fn staff_names(d: DayView) -> Seq<Seq<char>> {
    opt_name(d.exam) + duty_names(d)
}

/// How often `name` occurs in `names`.
pub open spec fn occurrences(names: Seq<Seq<char>>, name: Seq<char>) -> nat
    decreases names.len(),
{
    if names.len() == 0 {
        0
    } else {
        occurrences(names.drop_last(), name) + if names.last() == name { 1nat } else { 0nat }
    }
}

/// The texts of a list of counts.
pub open spec fn stats_view(v: Seq<(String, u32)>) -> Seq<(Seq<char>, u32)> {
    v.map_values(|p: (String, u32)| (p.0@, p.1))
}

/// `stats` holds, in name order, each of `names` once with the number of
/// its occurrences (as a `u32`, that is modulo 2^32).
pub open spec fn is_tally(stats: Seq<(Seq<char>, u32)>, names: Seq<Seq<char>>) -> bool {
    &&& names_ascending(stats)
    &&& forall|i: int| 0 <= i < stats.len() ==> #[trigger] stats[i].1 == occurrences(names, stats[i].0) as u32
    &&& forall|i: int| 0 <= i < stats.len() ==> names.contains(#[trigger] stats[i].0)
    &&& forall|name: Seq<char>| #[trigger] names.contains(name) ==> exists|i: int|
        0 <= i < stats.len() && #[trigger] stats[i].0 == name
}

/// Each name paired with the same label.
pub open spec fn with_label(names: Seq<Seq<char>>, label: Seq<char>) -> Seq<(Seq<char>, Seq<char>)> {
    names.map_values(|n: Seq<char>| (n, label))
}

proof fn lemma_labels_count(names: Seq<Seq<char>>, label: Seq<char>, name: Seq<char>)
    ensures
        labels_for(with_label(names, label), name).len() == occurrences(names, name),
        mentions(with_label(names, label), name) == names.contains(name),
    decreases names.len(),
{
    let ev = with_label(names, label);
    if names.len() > 0 {
        assert(ev.drop_last() =~= with_label(names.drop_last(), label));
        lemma_labels_count(names.drop_last(), label, name);
    }
    if mentions(ev, name) {
        let i = choose|i: int| 0 <= i < ev.len() && #[trigger] ev[i].0 == name;
        assert(names[i] == name);
    }
    if names.contains(name) {
        let i = choose|i: int| 0 <= i < names.len() && names[i] == name;
        assert(ev[i].0 == name);
    }
}

fn append_names(out: &mut Vec<String>, v: &Vec<String>)
    ensures
        texts(final(out)@) == texts(old(out)@) + texts(v@),
{
    let ghost start = texts(out@);
    let n = v.len();
    for i in 0..n
        invariant
            n == v.len(),
            texts(out@) == start + texts(v@).take(i as int),
    {
        let ghost prev = out@;
        out.push(v[i].clone());
        assert(texts(out@) =~= texts(prev).push(v@[i as int]@));
        assert(texts(v@).take(i + 1) =~= texts(v@).take(i as int).push(v@[i as int]@));
        assert(texts(out@) =~= start + texts(v@).take(i + 1));
    }
    assert(texts(v@).take(n as int) =~= texts(v@));
}

fn append_opt_name(out: &mut Vec<String>, o: &Option<String>)
    ensures
        texts(final(out)@) == texts(old(out)@) + opt_name(opt_text(*o)),
{
    let ghost start = texts(out@);
    match o {
        Some(n) => {
            out.push(n.clone());
        },
        None => {},
    }
    assert(texts(out@) =~= start + opt_name(opt_text(*o)));
}

impl Day {
    /// Everyone on duty apart from the exam grader, once per duty.
    fn duties(&self) -> (names: Vec<String>)
        ensures
            texts(names@) == duty_names(self@),
    {
        let mut names: Vec<String> = Vec::new();
        append_opt_name(&mut names, &self.quiz_grader);
        append_opt_name(&mut names, &self.morning_optional);
        append_opt_name(&mut names, &self.noon_optional1);
        append_opt_name(&mut names, &self.noon_optional2);
        append_opt_name(&mut names, &self.lecture);
        append_opt_name(&mut names, &self.voc_notes);
        append_names(&mut names, &self.drill1);
        append_names(&mut names, &self.drill2);
        append_names(&mut names, &self.friday_review1);
        append_names(&mut names, &self.friday_review2);
        match &self.day_one_lectures {
            Some(v) => {
                append_names(&mut names, v);
            },
            None => {},
        }
        assert(texts(names@) =~= duty_names(self@));
        names
    }

    /// Everyone on duty, once per duty.
    fn staff(&self) -> (names: Vec<String>)
        ensures
            texts(names@) == staff_names(self@),
    {
        let mut names: Vec<String> = Vec::new();
        append_opt_name(&mut names, &self.exam);
        let rest = self.duties();
        append_names(&mut names, &rest);
        assert(texts(names@) =~= staff_names(self@));
        names
    }
}

fn copy_names(v: &Vec<String>) -> (r: Vec<String>)
    ensures
        texts(r@) == texts(v@),
{
    let mut r: Vec<String> = Vec::new();
    append_names(&mut r, v);
    assert(texts(r@) =~= texts(v@));
    r
}

impl SgiDay for Day {
    fn get_drill1(&self) -> (r: Vec<String>)
        ensures
            texts(r@) == texts(self.drill1@),
    {
        copy_names(&self.drill1)
    }

    fn get_drill2(&self) -> (r: Vec<String>)
        ensures
            texts(r@) == texts(self.drill2@),
    {
        copy_names(&self.drill2)
    }

    fn get_stats(&self) -> (r: Vec<(String, u32)>)
        ensures
            is_tally(stats_view(r@), staff_names(self@)),
    {
        let names = self.staff();
        let ghost ns = texts(names@);
        let mut ev: Vec<(String, String)> = Vec::new();
        let n = names.len();
        for i in 0..n
            invariant
                n == names.len(),
                ns == texts(names@),
                events_view(ev@) == with_label(ns.take(i as int), ""@),
        {
            let ghost prev = ev@;
            ev.push((names[i].clone(), String::from_str("")));
            assert(events_view(ev@) =~= events_view(prev).push((ns[i as int], ""@)));
            assert(with_label(ns.take(i + 1), ""@) =~= with_label(ns.take(i as int), ""@).push((ns[i as int], ""@)));
        }
        assert(ns.take(n as int) =~= ns);
        let groups = group_by_name(&ev);
        let ghost g = groups_view(groups@);
        let mut stats: Vec<(String, u32)> = Vec::new();
        let m = groups.len();
        for j in 0..m
            invariant
                m == groups.len(),
                g == groups_view(groups@),
                stats@.len() == j,
                forall|k: int| 0 <= k < j ==> #[trigger] stats_view(stats@)[k] == (g[k].0, g[k].1.len() as u32),
        {
            let count = groups[j].1.len() as u32;
            let ghost prev = stats@;
            stats.push((groups[j].0.clone(), count));
            assert(g[j as int].1.len() == groups@[j as int].1@.len());
            assert(stats_view(stats@) =~= stats_view(prev).push((g[j as int].0, g[j as int].1.len() as u32)));
        }
        proof {
            let ev_v = with_label(ns, ""@);
            let s = stats_view(stats@);
            assert forall|k: int| 0 <= k < s.len() implies #[trigger] s[k].1 == occurrences(ns, s[k].0) as u32 by {
                lemma_labels_count(ns, ""@, g[k].0);
            }
            assert forall|k: int| 0 <= k < s.len() implies ns.contains(#[trigger] s[k].0) by {
                lemma_labels_count(ns, ""@, g[k].0);
            }
            assert forall|name: Seq<char>| #[trigger] ns.contains(name) implies exists|k: int|
                0 <= k < s.len() && #[trigger] s[k].0 == name by {
                lemma_labels_count(ns, ""@, name);
                let k = choose|k: int| 0 <= k < g.len() && #[trigger] g[k].0 == name;
                assert(s[k].0 == name);
            }
            assert forall|a: int, b: int| 0 <= a < b < s.len() implies text_less(
                #[trigger] s[a].0,
                #[trigger] s[b].0,
            ) by {
                assert(g[a].0 == s[a].0 && g[b].0 == s[b].0);
            }
        }
        stats
    }

    fn validate(&self) -> (b: bool)
        ensures
            b,
    {
        true
    }
}


/// A tally is determined by the names: two tallies of the same names are
/// equal.
pub proof fn lemma_tally_unique(s1: Seq<(Seq<char>, u32)>, s2: Seq<(Seq<char>, u32)>, names: Seq<Seq<char>>)
    requires
        is_tally(s1, names),
        is_tally(s2, names),
    ensures
        s1 == s2,
{
    let a = names_of(s1);
    let b = names_of(s2);
    assert forall|i: int, j: int| #![trigger a[i], a[j]] 0 <= i < j < a.len() implies text_less(a[i], a[j]) by {
        assert(text_less(s1[i].0, s1[j].0));
    }
    assert forall|i: int, j: int| #![trigger b[i], b[j]] 0 <= i < j < b.len() implies text_less(b[i], b[j]) by {
        assert(text_less(s2[i].0, s2[j].0));
    }
    assert forall|x: Seq<char>| a.contains(x) <==> b.contains(x) by {
        if a.contains(x) {
            let i = choose|i: int| 0 <= i < a.len() && a[i] == x;
            assert(names.contains(s1[i].0));
            let k = choose|k: int| 0 <= k < s2.len() && #[trigger] s2[k].0 == x;
            assert(b[k] == x);
        }
        if b.contains(x) {
            let i = choose|i: int| 0 <= i < b.len() && b[i] == x;
            assert(names.contains(s2[i].0));
            let k = choose|k: int| 0 <= k < s1.len() && #[trigger] s1[k].0 == x;
            assert(a[k] == x);
        }
    }
    lemma_ascending_unique(a, b);
    assert forall|i: int| 0 <= i < s1.len() implies s1[i] == s2[i] by {
        assert(a[i] == b[i]);
        assert(s1[i].1 == occurrences(names, s1[i].0) as u32);
        assert(s2[i].1 == occurrences(names, s2[i].0) as u32);
    }
    assert(s1 =~= s2);
}


/// The sum of the counts of a tally.
pub open spec fn total_count(s: Seq<(Seq<char>, u32)>) -> nat
    decreases s.len(),
{
    if s.len() == 0 {
        0
    } else {
        total_count(s.drop_last()) + s.last().1 as nat
    }
}

proof fn lemma_occurrences_bound(names: Seq<Seq<char>>, name: Seq<char>)
    ensures
        occurrences(names, name) <= names.len(),
    decreases names.len(),
{
    if names.len() > 0 {
        lemma_occurrences_bound(names.drop_last(), name);
    }
}

proof fn lemma_totals_agree(s: Seq<(Seq<char>, u32)>, g: Seq<(Seq<char>, Seq<Seq<char>>)>)
    requires
        s.len() == g.len(),
        forall|i: int| 0 <= i < s.len() ==> #[trigger] s[i].1 == g[i].1.len(),
    ensures
        total_count(s) == total_labels(g),
    decreases s.len(),
{
    if s.len() > 0 {
        lemma_totals_agree(s.drop_last(), g.drop_last());
    }
}

/// Every duty is counted once: where no one can have more than `u32::MAX`
/// duties, the counts of a tally add up to the number of duties.
pub proof fn lemma_tally_total(s: Seq<(Seq<char>, u32)>, names: Seq<Seq<char>>)
    requires
        is_tally(s, names),
        names.len() <= u32::MAX,
    ensures
        total_count(s) == names.len(),
{
    let ev = with_label(names, ""@);
    let g = Seq::new(s.len(), |i: int| (s[i].0, labels_for(ev, s[i].0)));
    assert forall|i: int| 0 <= i < s.len() implies #[trigger] s[i].1 == g[i].1.len() by {
        lemma_labels_count(names, ""@, s[i].0);
        lemma_occurrences_bound(names, s[i].0);
    }
    assert forall|i: int| 0 <= i < g.len() implies mentions(ev, #[trigger] g[i].0) by {
        lemma_labels_count(names, ""@, s[i].0);
    }
    assert forall|k: Seq<char>| #[trigger] mentions(ev, k) implies exists|i: int|
        0 <= i < g.len() && #[trigger] g[i].0 == k by {
        lemma_labels_count(names, ""@, k);
        let i = choose|i: int| 0 <= i < s.len() && #[trigger] s[i].0 == k;
        assert(g[i].0 == k);
    }
    assert forall|a: int, b: int| 0 <= a < b < g.len() implies text_less(#[trigger] g[a].0, #[trigger] g[b].0) by {
        assert(text_less(s[a].0, s[b].0));
    }
    lemma_grouping_total(g, ev);
    lemma_totals_agree(s, g);
    assert(ev.len() == names.len());
}


proof fn lemma_occurrences_count(names: Seq<Seq<char>>, name: Seq<char>)
    ensures
        occurrences(names, name) == names.to_multiset().count(name),
    decreases names.len(),
{
    broadcast use vstd::seq_lib::group_to_multiset_ensures;

    if names.len() > 0 {
        lemma_occurrences_count(names.drop_last(), name);
        assert(names =~= names.drop_last().push(names.last()));
    } else {
        assert(names.to_multiset().len() == 0);
    }
}

/// A tally depends only on how often each name occurs, not on their order:
/// tallies of two lists that are permutations of each other are equal.
pub proof fn lemma_tally_of_permutation(
    s1: Seq<(Seq<char>, u32)>,
    s2: Seq<(Seq<char>, u32)>,
    n1: Seq<Seq<char>>,
    n2: Seq<Seq<char>>,
)
    requires
        is_tally(s1, n1),
        is_tally(s2, n2),
        n1.to_multiset() == n2.to_multiset(),
    ensures
        s1 == s2,
{
    broadcast use vstd::seq_lib::group_to_multiset_ensures;

    assert forall|name: Seq<char>| n1.contains(name) == n2.contains(name) by {
        vstd::seq_lib::to_multiset_contains(n1, name);
        vstd::seq_lib::to_multiset_contains(n2, name);
    }
    assert forall|i: int| 0 <= i < s2.len() implies #[trigger] s2[i].1 == occurrences(n1, s2[i].0) as u32 by {
        lemma_occurrences_count(n1, s2[i].0);
        lemma_occurrences_count(n2, s2[i].0);
    }
    assert(is_tally(s2, n1));
    lemma_tally_unique(s1, s2, n1);
}

/// Whether two optional lists hold the same names, in any order.
pub open spec fn same_names_opt(a: Option<Seq<Seq<char>>>, b: Option<Seq<Seq<char>>>) -> bool {
    match (a, b) {
        (Some(x), Some(y)) => x.to_multiset() == y.to_multiset(),
        (None, None) => true,
        _ => false,
    }
}

/// The tally of a day does not depend on the order of its drills, reviews
/// and first-day lectures.
pub proof fn lemma_stats_ignore_order(d1: DayView, d2: DayView, s1: Seq<(Seq<char>, u32)>, s2: Seq<(Seq<char>, u32)>)
    requires
        d1.exam == d2.exam,
        d1.quiz_grader == d2.quiz_grader,
        d1.morning_optional == d2.morning_optional,
        d1.noon_optional1 == d2.noon_optional1,
        d1.noon_optional2 == d2.noon_optional2,
        d1.lecture == d2.lecture,
        d1.voc_notes == d2.voc_notes,
        d1.drill1.to_multiset() == d2.drill1.to_multiset(),
        d1.drill2.to_multiset() == d2.drill2.to_multiset(),
        d1.friday_review1.to_multiset() == d2.friday_review1.to_multiset(),
        d1.friday_review2.to_multiset() == d2.friday_review2.to_multiset(),
        same_names_opt(d1.day_one_lectures, d2.day_one_lectures),
        is_tally(s1, staff_names(d1)),
        is_tally(s2, staff_names(d2)),
    ensures
        s1 == s2,
{
    broadcast use vstd::seq_lib::lemma_multiset_commutative;

    let l1 = match d1.day_one_lectures {
        Some(v) => v,
        None => Seq::<Seq<char>>::empty(),
    };
    let l2 = match d2.day_one_lectures {
        Some(v) => v,
        None => Seq::<Seq<char>>::empty(),
    };
    assert(l1.to_multiset() == l2.to_multiset());
    assert(staff_names(d1).to_multiset() == staff_names(d2).to_multiset());
    lemma_tally_of_permutation(s1, s2, staff_names(d1), staff_names(d2));
}


/// 1 where `name` holds the single-person duty `o`, else 0.
pub open spec fn held_by(o: Option<Seq<char>>, name: Seq<char>) -> nat {
    if o == Some(name) { 1 } else { 0 }
}

/// 1 where the single-person duty `o` is filled, else 0.
pub open spec fn filled(o: Option<Seq<char>>) -> nat {
    if o is Some { 1 } else { 0 }
}

/// How many duty slots of day `d` `name` fills, counted field by field:
/// exam, quiz, morning optional, both noon optionals, lecture and
/// vocabulary notes once each, and every place in the two drills, the two
/// Friday reviews and the first-day lectures.
pub open spec fn duty_count(d: DayView, name: Seq<char>) -> nat {
    held_by(d.exam, name) + held_by(d.quiz_grader, name) + held_by(d.morning_optional, name)
        + held_by(d.noon_optional1, name) + held_by(d.noon_optional2, name) + held_by(d.lecture, name)
        + held_by(d.voc_notes, name) + occurrences(d.drill1, name) + occurrences(d.drill2, name)
        + occurrences(d.friday_review1, name) + occurrences(d.friday_review2, name)
        + match d.day_one_lectures {
        Some(v) => occurrences(v, name),
        None => 0,
    }
}

/// The number of filled duty slots of day `d`, counted field by field.
pub open spec fn filled_slots(d: DayView) -> nat {
    filled(d.exam) + filled(d.quiz_grader) + filled(d.morning_optional) + filled(d.noon_optional1)
        + filled(d.noon_optional2) + filled(d.lecture) + filled(d.voc_notes) + d.drill1.len()
        + d.drill2.len() + d.friday_review1.len() + d.friday_review2.len() + match d.day_one_lectures {
        Some(v) => v.len(),
        None => 0,
    }
}

/// Occurrences in a concatenation add up.
pub proof fn lemma_occurrences_concat(a: Seq<Seq<char>>, b: Seq<Seq<char>>, name: Seq<char>)
    ensures
        occurrences(a + b, name) == occurrences(a, name) + occurrences(b, name),
    decreases b.len(),
{
    if b.len() == 0 {
        assert(a + b =~= a);
    } else {
        assert((a + b).drop_last() =~= a + b.drop_last());
        lemma_occurrences_concat(a, b.drop_last(), name);
    }
}

/// A name occurs in a list exactly when it is counted there at least once.
pub proof fn lemma_occurrences_contains(names: Seq<Seq<char>>, name: Seq<char>)
    ensures
        occurrences(names, name) > 0 <==> names.contains(name),
    decreases names.len(),
{
    if names.len() > 0 {
        let rest = names.drop_last();
        lemma_occurrences_contains(rest, name);
        if rest.contains(name) {
            let i = choose|i: int| 0 <= i < rest.len() && rest[i] == name;
            assert(names[i] == name);
        }
        if names.contains(name) {
            let i = choose|i: int| 0 <= i < names.len() && names[i] == name;
            if i < rest.len() {
                assert(rest[i] == name);
            }
        }
    }
}

proof fn lemma_opt_name_count(o: Option<Seq<char>>, name: Seq<char>)
    ensures
        occurrences(opt_name(o), name) == held_by(o, name),
        opt_name(o).len() == filled(o),
{
    if o is Some {
        assert(opt_name(o).drop_last() =~= Seq::<Seq<char>>::empty());
        assert(occurrences(Seq::<Seq<char>>::empty(), name) == 0);
    }
}

proof fn lemma_staff_count(d: DayView, name: Seq<char>)
    ensures
        occurrences(staff_names(d), name) == duty_count(d, name),
        staff_names(d).len() == filled_slots(d),
{
    let lec = match d.day_one_lectures {
        Some(v) => v,
        None => Seq::<Seq<char>>::empty(),
    };
    let p1 = opt_name(d.quiz_grader);
    let p2 = p1 + opt_name(d.morning_optional);
    let p3 = p2 + opt_name(d.noon_optional1);
    let p4 = p3 + opt_name(d.noon_optional2);
    let p5 = p4 + opt_name(d.lecture);
    let p6 = p5 + opt_name(d.voc_notes);
    let p7 = p6 + d.drill1;
    let p8 = p7 + d.drill2;
    let p9 = p8 + d.friday_review1;
    let p10 = p9 + d.friday_review2;
    assert(duty_names(d) == p10 + lec);
    lemma_opt_name_count(d.exam, name);
    lemma_opt_name_count(d.quiz_grader, name);
    lemma_opt_name_count(d.morning_optional, name);
    lemma_opt_name_count(d.noon_optional1, name);
    lemma_opt_name_count(d.noon_optional2, name);
    lemma_opt_name_count(d.lecture, name);
    lemma_opt_name_count(d.voc_notes, name);
    lemma_occurrences_concat(p1, opt_name(d.morning_optional), name);
    lemma_occurrences_concat(p2, opt_name(d.noon_optional1), name);
    lemma_occurrences_concat(p3, opt_name(d.noon_optional2), name);
    lemma_occurrences_concat(p4, opt_name(d.lecture), name);
    lemma_occurrences_concat(p5, opt_name(d.voc_notes), name);
    lemma_occurrences_concat(p6, d.drill1, name);
    lemma_occurrences_concat(p7, d.drill2, name);
    lemma_occurrences_concat(p8, d.friday_review1, name);
    lemma_occurrences_concat(p9, d.friday_review2, name);
    lemma_occurrences_concat(p10, lec, name);
    lemma_occurrences_concat(opt_name(d.exam), duty_names(d), name);
    if d.day_one_lectures is None {
        assert(occurrences(lec, name) == 0);
    }
}

/// A day's tally counts every duty slot of the day: each listed person's
/// count is the number of slots they fill, field by field (modulo 2^32),
/// and is positive; everyone filling a slot is listed; and where the day has
/// no more than `u32::MAX` filled slots, the counts add up to that number.
pub proof fn lemma_tally_counts_duties(d: DayView, s: Seq<(Seq<char>, u32)>)
    requires
        is_tally(s, staff_names(d)),
    ensures
        forall|i: int| 0 <= i < s.len() ==> #[trigger] s[i].1 == duty_count(d, s[i].0) as u32
            && duty_count(d, s[i].0) > 0,
        forall|name: Seq<char>| #[trigger] duty_count(d, name) > 0 ==> exists|i: int|
            0 <= i < s.len() && #[trigger] s[i].0 == name,
        filled_slots(d) <= u32::MAX ==> total_count(s) == filled_slots(d),
{
    let names = staff_names(d);
    assert forall|i: int| 0 <= i < s.len() implies #[trigger] s[i].1 == duty_count(d, s[i].0) as u32
        && duty_count(d, s[i].0) > 0 by {
        lemma_staff_count(d, s[i].0);
        lemma_occurrences_contains(names, s[i].0);
    }
    assert forall|name: Seq<char>| #[trigger] duty_count(d, name) > 0 implies exists|i: int|
        0 <= i < s.len() && #[trigger] s[i].0 == name by {
        lemma_staff_count(d, name);
        lemma_occurrences_contains(names, name);
    }
    lemma_staff_count(d, ""@);
    if filled_slots(d) <= u32::MAX {
        lemma_tally_total(s, names);
    }
}

} // verus!
