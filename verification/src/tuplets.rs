//! Tuplet brackets: which notes, rests and chords each bracket spans, its
//! number, and the stem side it is drawn on.

use vstd::prelude::*;
use std::collections::HashMap;
use crate::events::{Event, EventView, Tuplet, events_view};
use crate::staff::LaidOutItem;

verus! {

/// The tuplet of a note, rest or chord that belongs to a tuplet span (one of
/// positive length); none for other events.
pub open spec fn tuplet_of(e: EventView) -> Option<Tuplet> {
    let t = match e {
        EventView::Note(n) => n.tuplet,
        EventView::Rest(r) => r.tuplet,
        EventView::Chord(c) => c.tuplet,
        _ => None,
    };
    match t {
        Some(u) => if u.span_num > 0 && u.span_den > 0 {
            Some(u)
        } else {
            None
        },
        None => None,
    }
}

/// Brackets closed so far, the open bracket's items and its number, after the
/// first `n` events: an item that opens a tuplet starts a new bracket (an
/// open one is dropped), other tuplet items join the open bracket, and an item
/// that closes a tuplet closes the open bracket.
pub open spec fn tuplet_scan(evs: Seq<EventView>, n: int) -> (Seq<(Seq<int>, i32)>, Seq<int>, i32)
    decreases n,
{
    if n <= 0 {
        (Seq::empty(), Seq::empty(), 0)
    } else {
        let prev = tuplet_scan(evs, n - 1);
        let i = n - 1;
        match tuplet_of(evs[i]) {
            Some(t) => {
                let cur = if t.start {
                    seq![i]
                } else if prev.1.len() > 0 {
                    prev.1.push(i)
                } else {
                    prev.1
                };
                let num = if t.start {
                    t.number
                } else {
                    prev.2
                };
                if t.end && cur.len() > 0 {
                    (prev.0.push((cur, num)), Seq::empty(), num)
                } else {
                    (prev.0, cur, num)
                }
            },
            None => prev,
        }
    }
}

/// The tuplet brackets of a staff: item indices and displayed number.
pub open spec fn spec_tuplet_groups(evs: Seq<EventView>) -> Seq<(Seq<int>, i32)> {
    tuplet_scan(evs, evs.len() as int).0
}

fn tuplet_exec(e: &Event) -> (r: Option<Tuplet>)
    ensures
        r == tuplet_of(e@),
{
    let t = match e {
        Event::Note(n) => n.tuplet,
        Event::Rest(r) => r.tuplet,
        Event::Chord(c) => c.tuplet,
        _ => None,
    };
    match t {
        Some(u) => if u.span_num > 0 && u.span_den > 0 {
            Some(u)
        } else {
            None
        },
        None => None,
    }
}

/// View of tuplet brackets.
pub open spec fn tuplet_groups_view(v: Seq<(Vec<usize>, i32)>) -> Seq<(Seq<int>, i32)> {
    v.map_values(|g: (Vec<usize>, i32)| (g.0@.map_values(|i: usize| i as int), g.1))
}

/// Find the tuplet brackets of a staff.
pub fn tuplet_groups(events: &[Event]) -> (r: Vec<(Vec<usize>, i32)>)
    ensures
        tuplet_groups_view(r@) == spec_tuplet_groups(events_view(events@)),
{
    let ghost evs = events_view(events@);
    let mut groups: Vec<(Vec<usize>, i32)> = Vec::new();
    let mut cur: Vec<usize> = Vec::new();
    let mut cur_number: i32 = 0;
    let mut i: usize = 0;
    while i < events.len()
        invariant
            evs == events_view(events@),
            i <= events@.len(),
            tuplet_groups_view(groups@) == tuplet_scan(evs, i as int).0,
            cur@.map_values(|j: usize| j as int) == tuplet_scan(evs, i as int).1,
            cur_number == tuplet_scan(evs, i as int).2,
        decreases events@.len() - i,
    {
        assert(evs[i as int] == events@[i as int]@);
        let ghost g0 = tuplet_groups_view(groups@);
        let ghost c0 = cur@.map_values(|j: usize| j as int);
        match tuplet_exec(&events[i]) {
            Some(t) => {
                if t.start {
                    cur = Vec::new();
                    cur.push(i);
                    cur_number = t.number;
                    assert(cur@.map_values(|j: usize| j as int) =~= seq![i as int]);
                } else if cur.len() > 0 {
                    let ghost cb = cur@;
                    cur.push(i);
                    assert(cur@.map_values(|j: usize| j as int) =~= cb.map_values(|j: usize| j as int).push(
                        i as int,
                    ));
                }
                if t.end && cur.len() > 0 {
                    let ghost cv = cur@.map_values(|j: usize| j as int);
                    let closed = (cur, cur_number);
                    groups.push(closed);
                    assert(tuplet_groups_view(groups@) =~= g0.push((cv, cur_number)));
                    cur = Vec::new();
                    assert(cur@.map_values(|j: usize| j as int) =~= Seq::<int>::empty());
                }
            },
            None => {},
        }
        i += 1;
    }
    groups
}

/// Direction of the first item of `refs` that has one (skipping items other
/// than notes and chords when `only_notes`): a beam group's override first,
/// then the item's own; "up" if none has one.
pub open spec fn first_stem_dir(
    items: Seq<LaidOutItem>,
    refs: Seq<usize>,
    adj: Map<usize, String>,
    only_notes: bool,
) -> Seq<char>
    decreases refs.len(),
{
    if refs.len() == 0 {
        "up"@
    } else if only_notes && !items[refs[0] as int].event@.is_anchor() {
        first_stem_dir(items, refs.drop_first(), adj, only_notes)
    } else if adj.contains_key(refs[0]) {
        adj[refs[0]]@
    } else if items[refs[0] as int]@.stem_dir is Some {
        items[refs[0] as int]@.stem_dir.unwrap()
    } else {
        first_stem_dir(items, refs.drop_first(), adj, only_notes)
    }
}

/// Stem side a tuplet bracket goes on: that of the first of its notes and
/// chords with a direction (of all its items, if it has no note or chord).
pub open spec fn spec_tuplet_stem_dir(items: Seq<LaidOutItem>, group: Seq<usize>, adj: Map<usize, String>) -> Seq<char> {
    first_stem_dir(
        items,
        group,
        adj,
        exists|k: int| 0 <= k < group.len() && (#[trigger] items[group[k] as int]).event@.is_anchor(),
    )
}

/// Stem side of the tuplet bracket over the items `group`.
pub fn tuplet_stem_dir(items: &[LaidOutItem], group: &[usize], adj_stem_dirs: &HashMap<usize, String>) -> (r: String)
    requires
        forall|k: int| 0 <= k < group@.len() ==> #[trigger] group@[k] < items@.len(),
    ensures
        r@ == spec_tuplet_stem_dir(items@, group@, adj_stem_dirs@),
{
    broadcast use vstd::std_specs::hash::group_hash_axioms;

    let mut has_notes = false;
    let mut k: usize = 0;
    while k < group.len()
        invariant
            forall|j: int| 0 <= j < group@.len() ==> #[trigger] group@[j] < items@.len(),
            k <= group@.len(),
            has_notes == exists|j: int| 0 <= j < k && (#[trigger] items@[group@[j] as int]).event@.is_anchor(),
        decreases group@.len() - k,
    {
        if items[group[k]].event.is_anchor() {
            has_notes = true;
        }
        k += 1;
    }
    let ghost spec_r = spec_tuplet_stem_dir(items@, group@, adj_stem_dirs@);
    assert(group@.skip(0) =~= group@);
    let mut q: usize = 0;
    while q < group.len()
        invariant
            forall|j: int| 0 <= j < group@.len() ==> #[trigger] group@[j] < items@.len(),
            q <= group@.len(),
            spec_r == spec_tuplet_stem_dir(items@, group@, adj_stem_dirs@),
            spec_r == first_stem_dir(items@, group@.skip(q as int), adj_stem_dirs@, has_notes),
        decreases group@.len() - q,
    {
        let idx = group[q];
        assert(group@.skip(q as int)[0] == idx);
        assert(group@.skip(q as int).drop_first() =~= group@.skip(q + 1));
        let item = &items[idx];
        if !has_notes || item.event.is_anchor() {
            match adj_stem_dirs.get(&idx) {
                Some(d) => {
                    return d.clone();
                },
                None => {},
            }
            match &item.stem_dir {
                Some(d) => {
                    return d.clone();
                },
                None => {},
            }
        }
        q += 1;
    }
    let r = String::from_str("up");
    proof {
        reveal_strlit("up");
    }
    r
}

/// Event `j` opens a tuplet.
pub open spec fn opens(evs: Seq<EventView>, j: int) -> bool {
    tuplet_of(evs[j]) matches Some(t) && t.start
}

/// Event `j` closes a tuplet.
pub open spec fn closes(evs: Seq<EventView>, j: int) -> bool {
    tuplet_of(evs[j]) matches Some(t) && t.end
}

/// A run of tuplet items among the first `n` events: increasing, opened by
/// its first item and by no other, closed by none but possibly its last, and
/// holding every tuplet item from its first to its last.
pub open spec fn tuplet_run(evs: Seq<EventView>, g: Seq<int>, n: int) -> bool {
    g.len() > 0 ==> {
        &&& 0 <= g[0]
        &&& g.last() < n
        &&& opens(evs, g[0])
        &&& forall|a: int, b: int| 0 <= a < b < g.len() ==> #[trigger] g[a] < #[trigger] g[b]
        &&& forall|a: int| 0 <= a < g.len() ==> tuplet_of(evs[#[trigger] g[a]]) is Some
        &&& forall|a: int| 0 < a < g.len() ==> !opens(evs, #[trigger] g[a])
        &&& forall|a: int| 0 <= a < g.len() - 1 ==> !closes(evs, #[trigger] g[a])
        &&& forall|j: int|
            g[0] <= j <= g.last() && (tuplet_of(#[trigger] evs[j]) is Some) ==> exists|a: int|
                0 <= a < g.len() && g[a] == j
    }
}

/// Where the open bracket starts, or `n` when there is none.
pub open spec fn open_bound(cur: Seq<int>, n: int) -> int {
    if cur.len() > 0 {
        cur[0]
    } else {
        n
    }
}

/// What the scan over the first `n` events has established.
pub open spec fn tuplet_scan_ok(evs: Seq<EventView>, n: int) -> bool {
    let st = tuplet_scan(evs, n);
    &&& tuplet_run(evs, st.1, n)
    &&& st.1.len() > 0 ==> {
        &&& st.1.last() <= n - 1
        &&& !closes(evs, st.1.last())
        &&& (tuplet_of(evs[st.1[0]]) matches Some(t) && st.2 == t.number)
        &&& forall|j: int|
            st.1[0] <= j < n && (tuplet_of(#[trigger] evs[j]) is Some) ==> exists|a: int|
                0 <= a < st.1.len() && st.1[a] == j
    }
    &&& forall|k: int|
        0 <= k < st.0.len() ==> {
            let g = #[trigger] st.0[k];
            &&& g.0.len() > 0
            &&& tuplet_run(evs, g.0, n)
            &&& closes(evs, g.0.last())
            &&& (tuplet_of(evs[g.0[0]]) matches Some(t) && g.1 == t.number)
            &&& g.0.last() < open_bound(st.1, n)
        }
    &&& forall|k: int, l: int|
        0 <= k < l < st.0.len() ==> (#[trigger] st.0[k]).0.last() < (#[trigger] st.0[l]).0[0]
}

proof fn lemma_tuplet_scan(evs: Seq<EventView>, n: int)
    requires
        0 <= n <= evs.len(),
    ensures
        tuplet_scan_ok(evs, n),
    decreases n,
{
    if n > 0 {
        lemma_tuplet_scan(evs, n - 1);
        let prev = tuplet_scan(evs, n - 1);
        let st = tuplet_scan(evs, n);
        let i = n - 1;
        match tuplet_of(evs[i]) {
            Some(t) => {
                let cur = if t.start {
                    seq![i]
                } else if prev.1.len() > 0 {
                    prev.1.push(i)
                } else {
                    prev.1
                };
                let num = if t.start {
                    t.number
                } else {
                    prev.2
                };
                // The open run after taking item i.
                assert(tuplet_run(evs, cur, n)) by {
                    if !t.start && prev.1.len() > 0 {
                        let c = prev.1;
                        assert forall|a: int, b: int| 0 <= a < b < cur.len() implies #[trigger] cur[a] < #[trigger] cur[b] by {
                            if b < c.len() {
                                assert(cur[a] == c[a] && cur[b] == c[b]);
                            } else {
                                assert(cur[a] == c[a]);
                            }
                        }
                        assert forall|a: int| 0 <= a < cur.len() implies tuplet_of(evs[#[trigger] cur[a]]) is Some by {
                            if a < c.len() {
                                assert(cur[a] == c[a]);
                            }
                        }
                        assert forall|a: int| 0 < a < cur.len() implies !opens(evs, #[trigger] cur[a]) by {
                            if a < c.len() {
                                assert(cur[a] == c[a]);
                            }
                        }
                        assert forall|a: int| 0 <= a < cur.len() - 1 implies !closes(evs, #[trigger] cur[a]) by {
                            assert(cur[a] == c[a]);
                            if a < c.len() - 1 {
                            } else {
                                assert(c[a] == c.last());
                            }
                        }
                        assert forall|j: int|
                            cur[0] <= j <= cur.last() && (tuplet_of(#[trigger] evs[j]) is Some) implies exists|a: int|
                                0 <= a < cur.len() && cur[a] == j by {
                            if j == i {
                                assert(cur[c.len() as int] == j);
                            } else {
                                let a = choose|a: int| 0 <= a < c.len() && c[a] == j;
                                assert(cur[a] == j);
                            }
                        }
                    }
                }
                if t.end && cur.len() > 0 {
                    assert(st.0 == prev.0.push((cur, num)));
                    assert forall|k: int| 0 <= k < st.0.len() implies {
                        let g = #[trigger] st.0[k];
                        &&& g.0.len() > 0
                        &&& tuplet_run(evs, g.0, n)
                        &&& closes(evs, g.0.last())
                        &&& (tuplet_of(evs[g.0[0]]) matches Some(u) && g.1 == u.number)
                        &&& g.0.last() < open_bound(st.1, n)
                    } by {
                        if k < prev.0.len() {
                            assert(st.0[k] == prev.0[k]);
                        } else {
                            assert(st.0[k] == (cur, num));
                            assert(cur.last() == i);
                        }
                    }
                    assert forall|k: int, l: int| 0 <= k < l < st.0.len() implies (#[trigger] st.0[k]).0.last() < (#[trigger] st.0[l]).0[0] by {
                        if l < prev.0.len() {
                            assert(st.0[k] == prev.0[k] && st.0[l] == prev.0[l]);
                        } else {
                            assert(st.0[k] == prev.0[k] && st.0[l] == (cur, num));
                        }
                    }
                } else {
                    assert(st.1 == cur && st.0 == prev.0 && st.2 == num);
                    if cur.len() > 0 {
                        assert forall|j: int|
                            cur[0] <= j < n && (tuplet_of(#[trigger] evs[j]) is Some) implies exists|a: int|
                                0 <= a < cur.len() && cur[a] == j by {
                            if j == i {
                                assert(cur[cur.len() - 1] == j);
                            } else if !t.start {
                                let a = choose|a: int| 0 <= a < prev.1.len() && prev.1[a] == j;
                                assert(cur[a] == j);
                            }
                        }
                    }
                    assert forall|k: int| 0 <= k < st.0.len() implies {
                        let g = #[trigger] st.0[k];
                        &&& g.0.len() > 0
                        &&& tuplet_run(evs, g.0, n)
                        &&& closes(evs, g.0.last())
                        &&& (tuplet_of(evs[g.0[0]]) matches Some(u) && g.1 == u.number)
                        &&& g.0.last() < open_bound(st.1, n)
                    } by {
                        assert(st.0[k] == prev.0[k]);
                    }
                }
            },
            None => {
                assert(st == prev);
                if st.1.len() > 0 {
                    assert forall|j: int|
                        st.1[0] <= j < n && (tuplet_of(#[trigger] evs[j]) is Some) implies exists|a: int|
                            0 <= a < st.1.len() && st.1[a] == j by {
                        assert(j < n - 1);
                    }
                }
            },
        }
    }
}

/// Every tuplet bracket spans a run of tuplet items: it is opened by its first
/// item, whose number it shows, and closed by its last; no item inside opens
/// or closes a tuplet; it holds every tuplet item between its ends, in order;
/// and brackets follow each other without overlapping.
pub proof fn tuplet_brackets_are_spans(evs: Seq<EventView>, k: int)
    requires
        0 <= k < spec_tuplet_groups(evs).len(),
    ensures
        ({
            let gs = spec_tuplet_groups(evs);
            let g = gs[k].0;
            &&& g.len() > 0
            &&& tuplet_run(evs, g, evs.len() as int)
            &&& closes(evs, g.last())
            &&& (tuplet_of(evs[g[0]]) matches Some(t) && gs[k].1 == t.number)
            &&& k + 1 < gs.len() ==> g.last() < gs[k + 1].0[0]
        }),
{
    lemma_tuplet_scan(evs, evs.len() as int);
}

} // verus!
