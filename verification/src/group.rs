//! Collecting labelled events by name, in name order.

use vstd::prelude::*;
use crate::text::{text_before, text_less, lemma_text_less_irreflexive, lemma_text_less_total, lemma_text_less_transitive};

verus! {

/// The texts of a sequence of strings.
pub open spec fn texts(v: Seq<String>) -> Seq<Seq<char>> {
    v.map_values(|s: String| s@)
}

/// The texts of a sequence of (name, label) pairs.
pub open spec fn events_view(v: Seq<(String, String)>) -> Seq<(Seq<char>, Seq<char>)> {
    v.map_values(|e: (String, String)| (e.0@, e.1@))
}

/// The texts of a sequence of (name, labels) groups.
pub open spec fn groups_view(v: Seq<(String, Vec<String>)>) -> Seq<(Seq<char>, Seq<Seq<char>>)> {
    v.map_values(|g: (String, Vec<String>)| (g.0@, texts(g.1@)))
}

/// The labels of the events about `name`, in the order of the events.
pub open spec fn labels_for(ev: Seq<(Seq<char>, Seq<char>)>, name: Seq<char>) -> Seq<Seq<char>>
    decreases ev.len(),
{
    if ev.len() == 0 {
        Seq::empty()
    } else if ev.last().0 == name {
        labels_for(ev.drop_last(), name).push(ev.last().1)
    } else {
        labels_for(ev.drop_last(), name)
    }
}

/// Whether some event is about `name`.
pub open spec fn mentions(ev: Seq<(Seq<char>, Seq<char>)>, name: Seq<char>) -> bool {
    exists|i: int| 0 <= i < ev.len() && #[trigger] ev[i].0 == name
}

/// Whether the names of `groups` are in strictly increasing order.
pub open spec fn names_ascending<T>(groups: Seq<(Seq<char>, T)>) -> bool {
    forall|i: int, j: int|
        #![trigger groups[i], groups[j]]
        0 <= i < j < groups.len() ==> text_less(groups[i].0, groups[j].0)
}

/// `groups` holds, in name order, one entry for each name that the events
/// mention, with the labels of that name's events in their order.
pub open spec fn is_grouping(
    groups: Seq<(Seq<char>, Seq<Seq<char>>)>,
    ev: Seq<(Seq<char>, Seq<char>)>,
) -> bool {
    &&& names_ascending(groups)
    &&& forall|i: int| 0 <= i < groups.len() ==> #[trigger] groups[i].1 == labels_for(ev, groups[i].0)
    &&& forall|i: int| 0 <= i < groups.len() ==> mentions(ev, #[trigger] groups[i].0)
    &&& forall|name: Seq<char>| #[trigger] mentions(ev, name) ==> exists|i: int|
        0 <= i < groups.len() && #[trigger] groups[i].0 == name
}

proof fn lemma_labels_push(ev: Seq<(Seq<char>, Seq<char>)>, e: (Seq<char>, Seq<char>), name: Seq<char>)
    ensures
        labels_for(ev.push(e), name) == if e.0 == name {
            labels_for(ev, name).push(e.1)
        } else {
            labels_for(ev, name)
        },
{
    assert(ev.push(e).drop_last() =~= ev);
}

proof fn lemma_mentions_push(ev: Seq<(Seq<char>, Seq<char>)>, e: (Seq<char>, Seq<char>), name: Seq<char>)
    ensures
        mentions(ev.push(e), name) == (mentions(ev, name) || e.0 == name),
{
    let ev2 = ev.push(e);
    if mentions(ev, name) {
        let i = choose|i: int| 0 <= i < ev.len() && #[trigger] ev[i].0 == name;
        assert(ev2[i].0 == name);
    }
    if e.0 == name {
        assert(ev2[ev.len() as int].0 == name);
    }
    if mentions(ev2, name) {
        let i = choose|i: int| 0 <= i < ev2.len() && #[trigger] ev2[i].0 == name;
        if i < ev.len() {
            assert(ev[i].0 == name);
        }
    }
}

pub(crate) proof fn lemma_labels_unmentioned(ev: Seq<(Seq<char>, Seq<char>)>, name: Seq<char>)
    requires
        !mentions(ev, name),
    ensures
        labels_for(ev, name) == Seq::<Seq<char>>::empty(),
    decreases ev.len(),
{
    if ev.len() > 0 {
        let rest = ev.drop_last();
        assert(ev.last().0 != name) by {
            assert(ev[ev.len() - 1].0 == ev.last().0);
        }
        assert(!mentions(rest, name)) by {
            if mentions(rest, name) {
                let i = choose|i: int| 0 <= i < rest.len() && #[trigger] rest[i].0 == name;
                assert(ev[i].0 == name);
            }
        }
        lemma_labels_unmentioned(rest, name);
    }
}

/// The names of a sequence of groups.
pub open spec fn names_of<T>(groups: Seq<(Seq<char>, T)>) -> Seq<Seq<char>> {
    groups.map_values(|g: (Seq<char>, T)| g.0)
}

/// Two strictly ascending sequences of texts with the same elements are
/// equal.
pub proof fn lemma_ascending_unique(a: Seq<Seq<char>>, b: Seq<Seq<char>>)
    requires
        forall|i: int, j: int| #![trigger a[i], a[j]] 0 <= i < j < a.len() ==> text_less(a[i], a[j]),
        forall|i: int, j: int| #![trigger b[i], b[j]] 0 <= i < j < b.len() ==> text_less(b[i], b[j]),
        forall|x: Seq<char>| a.contains(x) <==> b.contains(x),
    ensures
        a == b,
    decreases a.len(),
{
    if a.len() == 0 {
        if b.len() > 0 {
            assert(b.contains(b[0]));
        }
        assert(a =~= b);
    } else {
        assert(a.contains(a[0]));
        let j = choose|j: int| 0 <= j < b.len() && b[j] == a[0];
        assert(b.contains(b[0]));
        let m = choose|m: int| 0 <= m < a.len() && a[m] == b[0];
        if j > 0 {
            assert(text_less(b[0], b[j]));
            if m > 0 {
                assert(text_less(a[0], a[m]));
                lemma_text_less_transitive(a[0], a[m], a[0]);
            }
            lemma_text_less_irreflexive(a[0]);
        }
        let a1 = a.drop_first();
        let b1 = b.drop_first();
        assert forall|x: Seq<char>| a1.contains(x) implies b1.contains(x) by {
            let i = choose|i: int| 0 <= i < a1.len() && a1[i] == x;
            assert(a[i + 1] == x);
            assert(text_less(a[0], a[i + 1]));
            lemma_text_less_irreflexive(x);
            assert(b.contains(x));
            let k = choose|k: int| 0 <= k < b.len() && b[k] == x;
            assert(k != 0);
            assert(b1[k - 1] == x);
        }
        assert forall|x: Seq<char>| b1.contains(x) implies a1.contains(x) by {
            let i = choose|i: int| 0 <= i < b1.len() && b1[i] == x;
            assert(b[i + 1] == x);
            assert(text_less(b[0], b[i + 1]));
            lemma_text_less_irreflexive(x);
            assert(a.contains(x));
            let k = choose|k: int| 0 <= k < a.len() && a[k] == x;
            assert(k != 0);
            assert(a1[k - 1] == x);
        }
        lemma_ascending_unique(a1, b1);
        assert(a =~= seq![a[0]] + a1);
        assert(b =~= seq![b[0]] + b1);
    }
}

/// Grouping is determined by the events: two groupings of the same events
/// are equal.
pub proof fn lemma_grouping_unique(
    g1: Seq<(Seq<char>, Seq<Seq<char>>)>,
    g2: Seq<(Seq<char>, Seq<Seq<char>>)>,
    ev: Seq<(Seq<char>, Seq<char>)>,
)
    requires
        is_grouping(g1, ev),
        is_grouping(g2, ev),
    ensures
        g1 == g2,
{
    let a = names_of(g1);
    let b = names_of(g2);
    assert forall|i: int, j: int| #![trigger a[i], a[j]] 0 <= i < j < a.len() implies text_less(a[i], a[j]) by {
        assert(text_less(g1[i].0, g1[j].0));
    }
    assert forall|i: int, j: int| #![trigger b[i], b[j]] 0 <= i < j < b.len() implies text_less(b[i], b[j]) by {
        assert(text_less(g2[i].0, g2[j].0));
    }
    assert forall|x: Seq<char>| a.contains(x) <==> b.contains(x) by {
        if a.contains(x) {
            let i = choose|i: int| 0 <= i < a.len() && a[i] == x;
            assert(mentions(ev, g1[i].0));
            let k = choose|k: int| 0 <= k < g2.len() && #[trigger] g2[k].0 == x;
            assert(b[k] == x);
        }
        if b.contains(x) {
            let i = choose|i: int| 0 <= i < b.len() && b[i] == x;
            assert(mentions(ev, g2[i].0));
            let k = choose|k: int| 0 <= k < g1.len() && #[trigger] g1[k].0 == x;
            assert(a[k] == x);
        }
    }
    lemma_ascending_unique(a, b);
    assert forall|i: int| 0 <= i < g1.len() implies g1[i] == g2[i] by {
        assert(a[i] == b[i]);
        assert(g1[i].1 == labels_for(ev, g1[i].0));
        assert(g2[i].1 == labels_for(ev, g2[i].0));
    }
    assert(g1 =~= g2);
}

/// Adds the event (`name`, `label`) to a grouping of `ev`.
fn add_event(
    groups: &mut Vec<(String, Vec<String>)>,
    name: String,
    label: String,
    Ghost(ev): Ghost<Seq<(Seq<char>, Seq<char>)>>,
)
    requires
        is_grouping(groups_view(old(groups)@), ev),
    ensures
        is_grouping(groups_view(final(groups)@), ev.push((name@, label@))),
{
    let ghost g = groups_view(groups@);
    let ghost e = (name@, label@);
    let ghost ev2 = ev.push(e);
    let n = groups.len();
    let mut i: usize = 0;
    let mut searching = true;
    while searching && i < n
        invariant
            n == groups.len(),
            groups@ == old(groups)@,
            g == groups_view(groups@),
            i <= n,
            forall|j: int| 0 <= j < i ==> text_less(#[trigger] g[j].0, name@),
            !searching ==> i < n && !text_less(g[i as int].0, name@),
        decreases n - i + (if searching { 1int } else { 0int }),
    {
        if text_before(groups[i].0.as_str(), name.as_str()) {
            i = i + 1;
        } else {
            searching = false;
        }
    }
    assert forall|j: int| 0 <= j < i implies #[trigger] g[j].0 != name@ by {
        lemma_text_less_irreflexive(name@);
    }
    if i < n && groups[i].0 == name {
        let ghost before = groups@;
        let mut entry = groups.remove(i);
        let ghost old_labels = entry.1@;
        entry.1.push(label);
        assert(texts(entry.1@) =~= texts(old_labels).push(label@));
        groups.insert(i, entry);
        proof {
            let g2 = groups_view(groups@);
            assert(groups@ =~= before.update(i as int, entry));
            assert(g2 =~= g.update(i as int, (name@, g[i as int].1.push(label@))));
            assert forall|j: int| 0 <= j < g2.len() && j != i implies #[trigger] g2[j].0 != name@ by {
                if j < i {
                } else {
                    assert(text_less(g[i as int].0, g[j].0));
                    lemma_text_less_irreflexive(name@);
                }
            }
            assert forall|j: int| 0 <= j < g2.len() implies #[trigger] g2[j].1 == labels_for(ev2, g2[j].0) by {
                lemma_labels_push(ev, e, g2[j].0);
            }
            assert forall|j: int| 0 <= j < g2.len() implies mentions(ev2, #[trigger] g2[j].0) by {
                lemma_mentions_push(ev, e, g2[j].0);
            }
            assert forall|k: Seq<char>| #[trigger] mentions(ev2, k) implies exists|j: int|
                0 <= j < g2.len() && #[trigger] g2[j].0 == k by {
                lemma_mentions_push(ev, e, k);
                if k == name@ {
                    assert(g2[i as int].0 == k);
                } else {
                    let j = choose|j: int| 0 <= j < g.len() && #[trigger] g[j].0 == k;
                    assert(g2[j].0 == k);
                }
            }
        }
    } else {
        let mut labels: Vec<String> = Vec::new();
        labels.push(label);
        let ghost before = groups@;
        assert(texts(labels@) =~= seq![label@]);
        groups.insert(i, (name, labels));
        proof {
            let g2 = groups_view(groups@);
            assert(g2 =~= g.insert(i as int, (name@, seq![label@])));
            assert forall|j: int| i <= j < n implies text_less(name@, #[trigger] g[j].0) by {
                assert(g[i as int].0 != name@);
                lemma_text_less_total(g[i as int].0, name@);
                if j > i {
                    assert(text_less(g[i as int].0, g[j].0));
                    lemma_text_less_transitive(name@, g[i as int].0, g[j].0);
                }
            }
            assert(!mentions(ev, name@)) by {
                if mentions(ev, name@) {
                    let j = choose|j: int| 0 <= j < g.len() && #[trigger] g[j].0 == name@;
                    if j >= i {
                        lemma_text_less_irreflexive(name@);
                    }
                }
            }
            lemma_labels_unmentioned(ev, name@);
            lemma_labels_push(ev, e, name@);
            assert(labels_for(ev2, name@) =~= seq![label@]);
            assert forall|a: int, b: int| 0 <= a < b < g2.len() implies text_less(
                #[trigger] g2[a].0,
                #[trigger] g2[b].0,
            ) by {
                if a < i && b > i {
                    lemma_text_less_transitive(g2[a].0, name@, g2[b].0);
                }
            }
            assert forall|j: int| 0 <= j < g2.len() implies #[trigger] g2[j].1 == labels_for(ev2, g2[j].0) by {
                lemma_labels_push(ev, e, g2[j].0);
                if j != i {
                    if j > i {
                        assert(g2[j] == g[j - 1]);
                        assert(text_less(name@, g[j - 1].0));
                        lemma_text_less_irreflexive(name@);
                    }
                }
            }
            assert forall|j: int| 0 <= j < g2.len() implies mentions(ev2, #[trigger] g2[j].0) by {
                lemma_mentions_push(ev, e, g2[j].0);
                if j > i {
                    assert(g2[j] == g[j - 1]);
                }
            }
            assert forall|k: Seq<char>| #[trigger] mentions(ev2, k) implies exists|j: int|
                0 <= j < g2.len() && #[trigger] g2[j].0 == k by {
                lemma_mentions_push(ev, e, k);
                if k == name@ {
                    assert(g2[i as int].0 == k);
                } else {
                    let j = choose|j: int| 0 <= j < g.len() && #[trigger] g[j].0 == k;
                    if j < i {
                        assert(g2[j].0 == k);
                    } else {
                        assert(g2[j + 1].0 == k);
                    }
                }
            }
        }
    }
}

/// Groups events by name: one entry per name in name order, holding the
/// labels of that name's events in their order.
pub fn group_by_name(events: &Vec<(String, String)>) -> (groups: Vec<(String, Vec<String>)>)
    ensures
        is_grouping(groups_view(groups@), events_view(events@)),
{
    let mut groups: Vec<(String, Vec<String>)> = Vec::new();
    let n = events.len();
    for i in 0..n
        invariant
            n == events.len(),
            is_grouping(groups_view(groups@), events_view(events@).take(i as int)),
    {
        let ghost before = events_view(events@).take(i as int);
        let name = events[i].0.clone();
        let label = events[i].1.clone();
        add_event(&mut groups, name, label, Ghost(before));
        assert(events_view(events@).take(i + 1) =~= before.push((name@, label@)));
    }
    assert(events_view(events@).take(n as int) =~= events_view(events@));
    groups
}


/// The number of labels in all groups.
pub open spec fn total_labels(g: Seq<(Seq<char>, Seq<Seq<char>>)>) -> nat
    decreases g.len(),
{
    if g.len() == 0 {
        0
    } else {
        total_labels(g.drop_last()) + g.last().1.len()
    }
}

proof fn lemma_total_update(g: Seq<(Seq<char>, Seq<Seq<char>>)>, i: int, x: (Seq<char>, Seq<Seq<char>>))
    requires
        0 <= i < g.len(),
    ensures
        total_labels(g.update(i, x)) + g[i].1.len() == total_labels(g) + x.1.len(),
    decreases g.len(),
{
    let h = g.update(i, x);
    if i == g.len() - 1 {
        assert(h.drop_last() =~= g.drop_last());
    } else {
        assert(h.drop_last() =~= g.drop_last().update(i, x));
        lemma_total_update(g.drop_last(), i, x);
    }
}

proof fn lemma_total_remove(g: Seq<(Seq<char>, Seq<Seq<char>>)>, i: int)
    requires
        0 <= i < g.len(),
    ensures
        total_labels(g.remove(i)) + g[i].1.len() == total_labels(g),
    decreases g.len(),
{
    let h = g.remove(i);
    if i == g.len() - 1 {
        assert(h =~= g.drop_last());
    } else {
        assert(h.drop_last() =~= g.drop_last().remove(i));
        assert(h.last() == g.last());
        lemma_total_remove(g.drop_last(), i);
    }
}

proof fn lemma_labels_mentioned(ev: Seq<(Seq<char>, Seq<char>)>, name: Seq<char>)
    requires
        mentions(ev, name),
    ensures
        labels_for(ev, name).len() > 0,
    decreases ev.len(),
{
    let rest = ev.drop_last();
    if ev.last().0 != name {
        let i = choose|i: int| 0 <= i < ev.len() && #[trigger] ev[i].0 == name;
        assert(rest[i].0 == name);
        lemma_labels_mentioned(rest, name);
    }
}

/// Every event is in exactly one group: the groups hold as many labels as
/// there are events.
pub proof fn lemma_grouping_total(g: Seq<(Seq<char>, Seq<Seq<char>>)>, ev: Seq<(Seq<char>, Seq<char>)>)
    requires
        is_grouping(g, ev),
    ensures
        total_labels(g) == ev.len(),
    decreases ev.len(),
{
    if ev.len() == 0 {
        if g.len() > 0 {
            assert(mentions(ev, g[0].0));
        }
        assert(g.len() == 0);
    } else {
        let rest = ev.drop_last();
        let e = ev.last();
        let name = e.0;
        assert(ev =~= rest.push(e));
        assert(mentions(ev, name)) by {
            assert(ev[ev.len() - 1].0 == name);
        }
        let i = choose|i: int| 0 <= i < g.len() && #[trigger] g[i].0 == name;
        lemma_labels_push(rest, e, name);
        assert forall|j: int| 0 <= j < g.len() && j != i implies #[trigger] g[j].0 != name by {
            if j < i {
                assert(text_less(g[j].0, g[i].0));
            } else {
                assert(text_less(g[i].0, g[j].0));
            }
            lemma_text_less_irreflexive(name);
        }
        if mentions(rest, name) {
            lemma_labels_mentioned(rest, name);
            let h = g.update(i, (name, g[i].1.drop_last()));
            assert(g[i].1 == labels_for(rest, name).push(e.1));
            assert(g[i].1.drop_last() =~= labels_for(rest, name));
            assert forall|j: int| 0 <= j < h.len() implies #[trigger] h[j].1 == labels_for(rest, h[j].0) by {
                lemma_labels_push(rest, e, h[j].0);
            }
            assert forall|j: int| 0 <= j < h.len() implies mentions(rest, #[trigger] h[j].0) by {
                lemma_mentions_push(rest, e, h[j].0);
            }
            assert forall|k: Seq<char>| #[trigger] mentions(rest, k) implies exists|j: int|
                0 <= j < h.len() && #[trigger] h[j].0 == k by {
                lemma_mentions_push(rest, e, k);
                let j = choose|j: int| 0 <= j < g.len() && #[trigger] g[j].0 == k;
                assert(h[j].0 == k);
            }
            assert forall|a: int, b: int| 0 <= a < b < h.len() implies text_less(
                #[trigger] h[a].0,
                #[trigger] h[b].0,
            ) by {
                assert(text_less(g[a].0, g[b].0));
            }
            lemma_grouping_total(h, rest);
            lemma_total_update(g, i, (name, g[i].1.drop_last()));
        } else {
            lemma_labels_unmentioned(rest, name);
            let h = g.remove(i);
            assert forall|j: int| 0 <= j < h.len() implies #[trigger] h[j].1 == labels_for(rest, h[j].0) by {
                if j < i {
                    assert(h[j] == g[j]);
                } else {
                    assert(h[j] == g[j + 1]);
                }
                lemma_labels_push(rest, e, h[j].0);
            }
            assert forall|j: int| 0 <= j < h.len() implies mentions(rest, #[trigger] h[j].0) by {
                if j < i {
                    assert(h[j] == g[j]);
                } else {
                    assert(h[j] == g[j + 1]);
                }
                lemma_mentions_push(rest, e, h[j].0);
            }
            assert forall|k: Seq<char>| #[trigger] mentions(rest, k) implies exists|j: int|
                0 <= j < h.len() && #[trigger] h[j].0 == k by {
                lemma_mentions_push(rest, e, k);
                let j = choose|j: int| 0 <= j < g.len() && #[trigger] g[j].0 == k;
                if j < i {
                    assert(h[j].0 == k);
                } else {
                    assert(h[j - 1].0 == k);
                }
            }
            assert forall|a: int, b: int| 0 <= a < b < h.len() implies text_less(
                #[trigger] h[a].0,
                #[trigger] h[b].0,
            ) by {
                let a0 = if a < i { a } else { a + 1 };
                let b0 = if b < i { b } else { b + 1 };
                assert(h[a] == g[a0]);
                assert(h[b] == g[b0]);
                assert(text_less(g[a0].0, g[b0].0));
            }
            lemma_grouping_total(h, rest);
            lemma_total_remove(g, i);
            assert(g[i].1 =~= seq![e.1]);
        }
    }
}

} // verus!
