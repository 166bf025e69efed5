//! Cutting an event stream into systems and measures.

use vstd::prelude::*;
use crate::events::{Event, EventView, events_view, copy_event_range};

verus! {

/// View of a list of event lists.
pub open spec fn groups_view(v: Seq<Vec<Event>>) -> Seq<Seq<EventView>> {
    v.map_values(|g: Vec<Event>| events_view(g@))
}

/// All groups joined in order.
pub open spec fn flatten(gs: Seq<Seq<EventView>>) -> Seq<EventView>
    decreases gs.len(),
{
    if gs.len() == 0 {
        Seq::empty()
    } else {
        flatten(gs.drop_last()) + gs.last()
    }
}

/// Number of barlines in a sequence of events.
pub open spec fn count_barlines(s: Seq<EventView>) -> nat
    decreases s.len(),
{
    if s.len() == 0 {
        0
    } else {
        count_barlines(s.drop_last()) + if s.last().is_barline() {
            1nat
        } else {
            0nat
        }
    }
}

// ─── Line breaks ───────────────────────────────────────────────────────

/// Whether the stream holds a forced system break.
pub fn has_line_breaks(events: &[Event]) -> (r: bool)
    ensures
        r == exists|i: int| 0 <= i < events@.len() && (#[trigger] events@[i])@.is_line_break(),
{
    let mut i: usize = 0;
    while i < events.len()
        invariant
            i <= events@.len(),
            forall|j: int| 0 <= j < i ==> !(#[trigger] events@[j])@.is_line_break(),
        decreases events.len() - i,
    {
        if events[i].is_line_break() {
            return true;
        }
        i += 1;
    }
    false
}

/// Systems between forced breaks: each maximal run of events without a line
/// break, in order; the breaks themselves and empty runs are dropped.
pub open spec fn spec_split_at_line_breaks(s: Seq<EventView>) -> Seq<Seq<EventView>>
    decreases s.len(),
{
    if s.len() == 0 {
        Seq::empty()
    } else {
        let rest = spec_split_at_line_breaks(s.drop_last());
        let e = s.last();
        if e.is_line_break() {
            rest
        } else if s.len() > 1 && !s.drop_last().last().is_line_break() {
            rest.update(rest.len() - 1, rest.last().push(e))
        } else {
            rest.push(seq![e])
        }
    }
}

/// A prefix that does not end in a line break has a nonempty last system.
proof fn lemma_split_open(s: Seq<EventView>)
    requires
        s.len() > 0,
        !s.last().is_line_break(),
    ensures
        spec_split_at_line_breaks(s).len() > 0,
    decreases s.len(),
{
    if s.len() > 1 && !s.drop_last().last().is_line_break() {
        lemma_split_open(s.drop_last());
    }
}

/// Split the stream at forced line breaks.
pub fn split_at_line_breaks(events: &[Event]) -> (r: Vec<Vec<Event>>)
    ensures
        groups_view(r@) == spec_split_at_line_breaks(events_view(events@)),
{
    let mut systems: Vec<Vec<Event>> = Vec::new();
    let mut current: Vec<Event> = Vec::new();
    let mut i: usize = 0;
    while i < events.len()
        invariant
            i <= events@.len(),
            ({
                let pre = events_view(events@.subrange(0, i as int));
                let open = i > 0 && !pre.last().is_line_break();
                &&& open <==> current@.len() > 0
                &&& (if open {
                    groups_view(systems@).push(events_view(current@))
                } else {
                    groups_view(systems@)
                }) == spec_split_at_line_breaks(pre)
            }),
        decreases events.len() - i,
    {
        let ghost pre = events_view(events@.subrange(0, i as int));
        let ghost pre2 = events_view(events@.subrange(0, i + 1));
        assert(pre2.drop_last() =~= pre);
        assert(pre2.last() == events@[i as int]@);
        if events[i].is_line_break() {
            if current.len() > 0 {
                let cur = current;
                current = Vec::new();
                let ghost before = systems@;
                systems.push(cur);
                assert(groups_view(systems@) =~= groups_view(before).push(events_view(cur@)));
            }
        } else {
            let ghost before_cur = current@;
            let ghost sys = groups_view(systems@);
            if current.len() > 0 {
                proof {
                    lemma_split_open(pre);
                }
            }
            current.push(events[i].copy());
            assert(events_view(current@) =~= events_view(before_cur).push(events@[i as int]@));
            assert(groups_view(systems@) == sys);
            proof {
                if before_cur.len() > 0 {
                    assert(sys.push(events_view(current@)) =~= sys.push(
                        events_view(before_cur),
                    ).update(sys.len() as int, events_view(before_cur).push(events@[i as int]@)));
                } else {
                    assert(events_view(current@) =~= seq![events@[i as int]@]);
                }
            }
        }
        i += 1;
    }
    assert(events@.subrange(0, events@.len() as int) =~= events@);
    if current.len() > 0 {
        let ghost before = systems@;
        systems.push(current);
        assert(groups_view(systems@) =~= groups_view(before).push(events_view(current@)));
    }
    systems
}

// ─── Measures ──────────────────────────────────────────────────────────

/// Measures: the stream cut after every barline; a trailing run without a
/// closing barline forms a last measure.
pub open spec fn spec_split_into_measures(s: Seq<EventView>) -> Seq<Seq<EventView>>
    decreases s.len(),
{
    if s.len() == 0 {
        Seq::empty()
    } else {
        let rest = spec_split_into_measures(s.drop_last());
        let e = s.last();
        if s.len() > 1 && !s.drop_last().last().is_barline() {
            rest.update(rest.len() - 1, rest.last().push(e))
        } else {
            rest.push(seq![e])
        }
    }
}

proof fn lemma_measures_open(s: Seq<EventView>)
    requires
        s.len() > 0,
    ensures
        spec_split_into_measures(s).len() > 0,
    decreases s.len(),
{
    if s.len() > 1 {
        lemma_measures_open(s.drop_last());
    }
}

/// Split a stream into measures, each ending with its barline.
pub fn split_into_measures(events: &[Event]) -> (r: Vec<Vec<Event>>)
    ensures
        groups_view(r@) == spec_split_into_measures(events_view(events@)),
{
    let mut measures: Vec<Vec<Event>> = Vec::new();
    let mut current: Vec<Event> = Vec::new();
    let mut i: usize = 0;
    while i < events.len()
        invariant
            i <= events@.len(),
            ({
                let pre = events_view(events@.subrange(0, i as int));
                let open = i > 0 && !pre.last().is_barline();
                &&& open <==> current@.len() > 0
                &&& (if open {
                    groups_view(measures@).push(events_view(current@))
                } else {
                    groups_view(measures@)
                }) == spec_split_into_measures(pre)
            }),
        decreases events.len() - i,
    {
        let ghost pre = events_view(events@.subrange(0, i as int));
        let ghost pre2 = events_view(events@.subrange(0, i + 1));
        assert(pre2.drop_last() =~= pre);
        assert(pre2.last() == events@[i as int]@);
        let ghost before_cur = current@;
        let ghost sys = groups_view(measures@);
        if current.len() > 0 {
            proof {
                lemma_measures_open(pre);
            }
        }
        current.push(events[i].copy());
        assert(events_view(current@) =~= events_view(before_cur).push(events@[i as int]@));
        proof {
            if before_cur.len() > 0 {
                assert(sys.push(events_view(current@)) =~= sys.push(events_view(before_cur)).update(
                    sys.len() as int,
                    events_view(before_cur).push(events@[i as int]@),
                ));
            } else {
                assert(events_view(current@) =~= seq![events@[i as int]@]);
            }
        }
        if events[i].is_barline() {
            let cur = current;
            current = Vec::new();
            let ghost before = measures@;
            measures.push(cur);
            assert(groups_view(measures@) =~= groups_view(before).push(events_view(cur@)));
        }
        i += 1;
    }
    assert(events@.subrange(0, events@.len() as int) =~= events@);
    if current.len() > 0 {
        let ghost before = measures@;
        measures.push(current);
        assert(groups_view(measures@) =~= groups_view(before).push(events_view(current@)));
    }
    measures
}

// ─── Mirroring another staff's system breaks ───────────────────────────

/// Length of the shortest prefix of `rem` that holds `mc` barlines (all of
/// `rem` if it holds fewer); 0 when `mc` is 0.
pub open spec fn bars_prefix_len(rem: Seq<EventView>, mc: int) -> int
    decreases rem.len(),
{
    if mc <= 0 || rem.len() == 0 {
        0
    } else {
        1 + bars_prefix_len(
            rem.drop_first(),
            if rem[0].is_barline() {
                mc - 1
            } else {
                mc
            },
        )
    }
}

/// How many of the remaining events one system takes: everything for the last
/// system; for a system of `mc > 0` measures, the events up to and including
/// its `mc`-th barline; for a system of no measures, a leading line break if
/// there is one, else nothing.
pub open spec fn mirror_consumed(rem: Seq<EventView>, mc: int, is_last: bool) -> int {
    if is_last {
        rem.len() as int
    } else if mc == 0 {
        if rem.len() > 0 && rem[0].is_line_break() {
            1
        } else {
            0
        }
    } else {
        bars_prefix_len(rem, mc)
    }
}

/// Systems of a staff cut to hold as many measures as the corresponding
/// systems of the first staff (`counts`), the last one taking the rest; with
/// no counts, the whole stream is one system (none if it is empty).
pub open spec fn spec_mirror_breaks(rem: Seq<EventView>, counts: Seq<usize>) -> Seq<
    Seq<EventView>,
>
    decreases counts.len(),
{
    if counts.len() == 0 {
        if rem.len() > 0 {
            seq![rem]
        } else {
            Seq::empty()
        }
    } else {
        let c = mirror_consumed(rem, counts[0] as int, counts.len() == 1);
        seq![rem.take(c)] + spec_mirror_breaks(rem.skip(c), counts.drop_first())
    }
}

proof fn lemma_bars_prefix_len_bounds(rem: Seq<EventView>, mc: int)
    ensures
        0 <= bars_prefix_len(rem, mc) <= rem.len(),
    decreases rem.len(),
{
    if mc > 0 && rem.len() > 0 {
        lemma_bars_prefix_len_bounds(
            rem.drop_first(),
            if rem[0].is_barline() {
                mc - 1
            } else {
                mc
            },
        );
    }
}

/// Cut the events of another staff into systems holding the same numbers of
/// measures as the first staff's systems.
pub fn mirror_breaks(events: &[Event], measure_counts: &[usize]) -> (r: Vec<Vec<Event>>)
    ensures
        groups_view(r@) == spec_mirror_breaks(events_view(events@), measure_counts@),
{
    let ghost ev = events_view(events@);
    let mut mirrored: Vec<Vec<Event>> = Vec::new();
    let mut start: usize = 0;
    let n = measure_counts.len();
    let mut idx: usize = 0;
    assert(ev.skip(0) =~= ev);
    assert(measure_counts@.skip(0) =~= measure_counts@);
    while idx < n
        invariant
            n == measure_counts@.len(),
            ev == events_view(events@),
            idx <= n,
            start <= events@.len(),
            groups_view(mirrored@) + spec_mirror_breaks(ev.skip(start as int), measure_counts@.skip(idx as int))
                == spec_mirror_breaks(ev, measure_counts@),
        decreases n - idx,
    {
        let mc = measure_counts[idx];
        let is_last = idx == n - 1;
        let ghost rem = ev.skip(start as int);
        let mut seg: Vec<Event> = Vec::new();
        let mut bars_seen: usize = 0;
        let mut j: usize = start;
        assert(rem.skip(0) =~= rem);
        assert(events_view(seg@) =~= rem.take(0));
        while j < events.len() && (is_last || bars_seen < mc)
            invariant
                ev == events_view(events@),
                rem == ev.skip(start as int),
                start <= j <= events@.len(),
                bars_seen <= j - start,
                !is_last ==> bars_seen <= mc,
                events_view(seg@) == rem.take(j - start),
                !is_last ==> bars_prefix_len(rem, mc as int) == (j - start) + bars_prefix_len(
                    rem.skip(j - start),
                    mc - bars_seen,
                ),
            decreases events@.len() - j,
        {
            let ghost k = j - start;
            let ghost before = seg@;
            seg.push(events[j].copy());
            assert(events_view(seg@) =~= rem.take(k + 1)) by {
                assert(events_view(seg@) =~= events_view(before).push(events@[j as int]@));
            }
            assert(rem.skip(k).drop_first() =~= rem.skip(k + 1));
            assert(rem.skip(k)[0] == events@[j as int]@);
            if events[j].is_barline() {
                bars_seen += 1;
            }
            j += 1;
        }
        proof {
            if !is_last && mc > 0 {
                assert(rem.skip(j - start).len() == 0 || bars_seen == mc);
                lemma_bars_prefix_len_bounds(rem.skip(j - start), mc - bars_seen);
            }
        }
        if mc == 0 && !is_last && start < events.len() && events[start].is_line_break() {
            seg.push(events[start].copy());
            assert(events_view(seg@) =~= rem.take(1));
            j = start + 1;
        } else if is_last {
            assert(rem.take(j - start) =~= rem);
            j = events.len();
        }
        proof {
            let counts = measure_counts@.skip(idx as int);
            assert(counts.drop_first() =~= measure_counts@.skip(idx + 1));
            assert(counts[0] == mc);
            assert(is_last <==> counts.len() == 1);
            let c = mirror_consumed(rem, mc as int, is_last);
            assert(c == j - start);
            assert(events_view(seg@) =~= rem.take(c));
            assert(rem.skip(c) =~= ev.skip(j as int));
        }
        let ghost before = mirrored@;
        mirrored.push(seg);
        assert(groups_view(mirrored@) =~= groups_view(before).push(events_view(seg@)));
        start = j;
        idx += 1;
    }
    if start < events.len() {
        let tail = copy_event_range(events, start, events.len());
        let ghost before = mirrored@;
        mirrored.push(tail);
        assert(groups_view(mirrored@) =~= groups_view(before).push(events_view(tail@)));
    }
    proof {
        assert(measure_counts@.skip(n as int) =~= Seq::<usize>::empty());
        if start < events@.len() {
            assert(events@.subrange(start as int, events@.len() as int) =~= events@.skip(start as int));
            assert(events_view(events@.skip(start as int)) =~= ev.skip(start as int));
        }
    }
    assert(groups_view(mirrored@) =~= spec_mirror_breaks(ev, measure_counts@));
    mirrored
}

// ─── Fixed number of measures per system ───────────────────────────────

/// Consecutive measures grouped `mpl` at a time, each group joined into one
/// system; the last system takes the remaining measures.
pub open spec fn chunk_measures(ms: Seq<Seq<EventView>>, mpl: int) -> Seq<Seq<EventView>>
    decreases ms.len(),
{
    if ms.len() == 0 || mpl <= 0 {
        Seq::empty()
    } else if ms.len() <= mpl {
        seq![flatten(ms)]
    } else {
        seq![flatten(ms.take(mpl))] + chunk_measures(ms.skip(mpl), mpl)
    }
}

/// Systems of `mpl` measures each (the last may hold fewer); a stream without
/// events gives one empty system.
pub open spec fn spec_breaks_by_count(s: Seq<EventView>, mpl: int) -> Seq<Seq<EventView>> {
    let ms = spec_split_into_measures(s);
    if ms.len() == 0 {
        seq![Seq::empty()]
    } else {
        chunk_measures(ms, mpl)
    }
}

proof fn lemma_chunk_append(a: Seq<Seq<EventView>>, b: Seq<Seq<EventView>>, mpl: int)
    requires
        mpl > 0,
        (a.len() as int) % mpl == 0,
    ensures
        chunk_measures(a + b, mpl) == chunk_measures(a, mpl) + chunk_measures(b, mpl),
    decreases a.len(),
{
    if a.len() == 0 {
        assert(a + b =~= b);
        assert(chunk_measures(a, mpl) + chunk_measures(b, mpl) =~= chunk_measures(b, mpl));
    } else {
        assert(a.len() >= mpl) by (nonlinear_arith)
            requires
                (a.len() as int) % mpl == 0,
                a.len() > 0,
                mpl > 0,
        ;
        if (a + b).len() <= mpl {
            assert(b.len() == 0);
            assert(a + b =~= a);
            assert(chunk_measures(a, mpl) + chunk_measures(b, mpl) =~= chunk_measures(a, mpl));
        } else {
            assert((a + b).take(mpl) =~= a.take(mpl));
            assert((a + b).skip(mpl) =~= a.skip(mpl) + b);
            assert((a.skip(mpl).len() as int) % mpl == 0) by (nonlinear_arith)
                requires
                    a.skip(mpl).len() == a.len() - mpl,
                    (a.len() as int) % mpl == 0,
                    mpl > 0,
            ;
            lemma_chunk_append(a.skip(mpl), b, mpl);
            if a.len() <= mpl {
                assert(a.len() == mpl);
                assert(a.take(mpl) =~= a);
                assert(a.skip(mpl) =~= Seq::<Seq<EventView>>::empty());
                assert(a.skip(mpl) + b =~= b);
            }
            assert(chunk_measures(a + b, mpl) =~= chunk_measures(a, mpl) + chunk_measures(b, mpl));
        }
    }
}

proof fn lemma_chunk_short(b: Seq<Seq<EventView>>, mpl: int)
    requires
        0 < b.len() <= mpl,
    ensures
        chunk_measures(b, mpl) == seq![flatten(b)],
{
}

/// Cut the stream into systems of `measures_per_line` measures each.
pub fn compute_system_breaks_by_count(events: &[Event], measures_per_line: i32) -> (r: Vec<
    Vec<Event>,
>)
    requires
        measures_per_line > 0,
    ensures
        groups_view(r@) == spec_breaks_by_count(events_view(events@), measures_per_line as int),
{
    let measures = split_into_measures(events);
    let ghost ms = groups_view(measures@);
    if measures.len() == 0 {
        let mut r: Vec<Vec<Event>> = Vec::new();
        let e: Vec<Event> = Vec::new();
        assert(events_view(e@) =~= Seq::<EventView>::empty());
        r.push(e);
        assert(groups_view(r@) =~= seq![Seq::<EventView>::empty()]);
        return r;
    }
    let mpl: usize = measures_per_line as usize;
    let mut systems: Vec<Vec<Event>> = Vec::new();
    let mut current: Vec<Event> = Vec::new();
    let mut count: usize = 0;
    let mut i: usize = 0;
    assert(ms.take(0) =~= Seq::<Seq<EventView>>::empty());
    assert(ms.subrange(0, 0) =~= Seq::<Seq<EventView>>::empty());
    assert(events_view(current@) =~= flatten(ms.subrange(0, 0)));
    while i < measures.len()
        invariant
            ms == groups_view(measures@),
            mpl == measures_per_line,
            0 < mpl,
            count < mpl,
            count <= i <= measures@.len(),
            (i - count) % (mpl as int) == 0,
            groups_view(systems@) == chunk_measures(ms.take(i - count), mpl as int),
            events_view(current@) == flatten(ms.subrange(i - count, i as int)),
        decreases measures@.len() - i,
    {
        let ghost base = (i - count) as int;
        let ghost cur_before = current@;
        let m = &measures[i];
        let mut k: usize = 0;
        while k < m.len()
            invariant
                k <= m@.len(),
                events_view(current@) == events_view(cur_before) + events_view(m@.subrange(0, k as int)),
            decreases m@.len() - k,
        {
            let ghost c0 = current@;
            current.push(m[k].copy());
            assert(events_view(current@) =~= events_view(c0).push(m@[k as int]@));
            assert(events_view(m@.subrange(0, k + 1)) =~= events_view(m@.subrange(0, k as int)).push(
                m@[k as int]@,
            ));
            k += 1;
        }
        assert(m@.subrange(0, m@.len() as int) =~= m@);
        assert(ms.subrange(base, i + 1).drop_last() =~= ms.subrange(base, i as int));
        assert(ms.subrange(base, i + 1).last() == ms[i as int]);
        assert(ms[i as int] == events_view(measures@[i as int]@));
        assert(events_view(current@) == flatten(ms.subrange(base, i + 1)));
        count += 1;
        i += 1;
        if count >= mpl {
            let cur = current;
            current = Vec::new();
            let ghost before = systems@;
            systems.push(cur);
            proof {
                let blk = ms.subrange(base, i as int);
                assert(groups_view(systems@) =~= groups_view(before).push(events_view(cur@)));
                lemma_chunk_short(blk, mpl as int);
                lemma_chunk_append(ms.take(base), blk, mpl as int);
                assert(ms.take(base) + blk =~= ms.take(i as int));
                assert(seq![events_view(cur@)] + Seq::<Seq<EventView>>::empty() =~= seq![events_view(cur@)]);
                assert(groups_view(systems@) =~= chunk_measures(ms.take(base), mpl as int) + seq![flatten(blk)]);
                assert((i - 0) as int == base + mpl);
                assert(((i - 0) as int) % (mpl as int) == 0) by (nonlinear_arith)
                    requires
                        base % (mpl as int) == 0,
                        (i - 0) as int == base + mpl,
                        mpl > 0,
                ;
                assert(ms.subrange(i as int, i as int) =~= Seq::<Seq<EventView>>::empty());
                assert(events_view(current@) =~= flatten(ms.subrange(i as int, i as int)));
            }
            count = 0;
        }
    }
    proof {
        assert(ms.take(measures@.len() as int) =~= ms);
    }
    if count > 0 {
        let ghost base = (i - count) as int;
        let ghost before = systems@;
        systems.push(current);
        proof {
            let blk = ms.subrange(base, i as int);
            assert(groups_view(systems@) =~= groups_view(before).push(events_view(current@)));
            lemma_chunk_short(blk, mpl as int);
            lemma_chunk_append(ms.take(base), blk, mpl as int);
            assert(ms.take(base) + blk =~= ms);
        }
    } else {
        assert(ms.take(i as int) =~= ms);
    }
    systems
}

// ─── Laws ──────────────────────────────────────────────────────────────

/// The stream with its line breaks removed.
pub open spec fn without_line_breaks(s: Seq<EventView>) -> Seq<EventView>
    decreases s.len(),
{
    if s.len() == 0 {
        Seq::empty()
    } else if s.last().is_line_break() {
        without_line_breaks(s.drop_last())
    } else {
        without_line_breaks(s.drop_last()).push(s.last())
    }
}

proof fn lemma_flatten_push(gs: Seq<Seq<EventView>>, g: Seq<EventView>)
    ensures
        flatten(gs.push(g)) == flatten(gs) + g,
{
    assert(gs.push(g).drop_last() =~= gs);
}

proof fn lemma_flatten_update_last(gs: Seq<Seq<EventView>>, e: EventView)
    requires
        gs.len() > 0,
    ensures
        flatten(gs.update(gs.len() - 1, gs.last().push(e))) == flatten(gs).push(e),
{
    let u = gs.update(gs.len() - 1, gs.last().push(e));
    assert(u.drop_last() =~= gs.drop_last());
    assert(flatten(gs) == flatten(gs.drop_last()) + gs.last());
    assert(flatten(u) =~= flatten(gs).push(e));
}

/// Splitting at line breaks keeps every other event, in order: joining the
/// systems gives the stream without its line breaks.
pub proof fn split_at_line_breaks_keeps_events(s: Seq<EventView>)
    ensures
        flatten(spec_split_at_line_breaks(s)) == without_line_breaks(s),
    decreases s.len(),
{
    if s.len() > 0 {
        split_at_line_breaks_keeps_events(s.drop_last());
        let rest = spec_split_at_line_breaks(s.drop_last());
        let e = s.last();
        if e.is_line_break() {
        } else if s.len() > 1 && !s.drop_last().last().is_line_break() {
            lemma_split_open(s.drop_last());
            lemma_flatten_update_last(rest, e);
        } else {
            lemma_flatten_push(rest, seq![e]);
            assert(flatten(rest) + seq![e] =~= flatten(rest).push(e));
        }
    }
}

/// Every system cut at line breaks is nonempty and holds no line break.
pub proof fn split_at_line_breaks_systems_clean(s: Seq<EventView>)
    ensures
        forall|k: int|
            0 <= k < spec_split_at_line_breaks(s).len() ==> {
                let g = #[trigger] spec_split_at_line_breaks(s)[k];
                &&& g.len() > 0
                &&& forall|j: int| 0 <= j < g.len() ==> !g[j].is_line_break()
            },
    decreases s.len(),
{
    if s.len() > 0 {
        split_at_line_breaks_systems_clean(s.drop_last());
        let rest = spec_split_at_line_breaks(s.drop_last());
        if !s.last().is_line_break() && s.len() > 1 && !s.drop_last().last().is_line_break() {
            lemma_split_open(s.drop_last());
            let r = spec_split_at_line_breaks(s);
            assert forall|k: int| 0 <= k < r.len() implies {
                let g = #[trigger] r[k];
                &&& g.len() > 0
                &&& forall|j: int| 0 <= j < g.len() ==> !g[j].is_line_break()
            } by {
                if k < rest.len() - 1 {
                    assert(r[k] == rest[k]);
                } else {
                    let g = rest.last();
                    assert(rest[rest.len() - 1] == g);
                    assert(r[k] == g.push(s.last()));
                    assert forall|j: int| 0 <= j < g.len() + 1 implies !g.push(
                        s.last(),
                    )[j].is_line_break() by {
                        if j < g.len() {
                            assert(g.push(s.last())[j] == g[j]);
                        }
                    }
                }
            }
        }
    }
}

/// Splitting into measures loses nothing: joining the measures gives the stream.
pub proof fn split_into_measures_keeps_events(s: Seq<EventView>)
    ensures
        flatten(spec_split_into_measures(s)) == s,
    decreases s.len(),
{
    if s.len() > 0 {
        split_into_measures_keeps_events(s.drop_last());
        let rest = spec_split_into_measures(s.drop_last());
        let e = s.last();
        if s.len() > 1 && !s.drop_last().last().is_barline() {
            lemma_measures_open(s.drop_last());
            lemma_flatten_update_last(rest, e);
        } else {
            lemma_flatten_push(rest, seq![e]);
        }
        assert(s.drop_last().push(e) =~= s);
    }
}

/// Every measure is nonempty, holds a barline only as its last event, and
/// every measure but the last ends with a barline.
pub proof fn measures_end_at_barlines(s: Seq<EventView>)
    ensures
        forall|k: int|
            0 <= k < spec_split_into_measures(s).len() ==> {
                let m = #[trigger] spec_split_into_measures(s)[k];
                &&& m.len() > 0
                &&& forall|j: int| 0 <= j < m.len() - 1 ==> !m[j].is_barline()
                &&& k < spec_split_into_measures(s).len() - 1 ==> m.last().is_barline()
            },
        s.len() > 0 ==> (spec_split_into_measures(s).last().last().is_barline()
            <==> s.last().is_barline()),
    decreases s.len(),
{
    if s.len() > 0 {
        measures_end_at_barlines(s.drop_last());
        let rest = spec_split_into_measures(s.drop_last());
        let r = spec_split_into_measures(s);
        let e = s.last();
        if s.len() > 1 && !s.drop_last().last().is_barline() {
            lemma_measures_open(s.drop_last());
            assert forall|k: int| 0 <= k < r.len() implies {
                let m = #[trigger] r[k];
                &&& m.len() > 0
                &&& forall|j: int| 0 <= j < m.len() - 1 ==> !m[j].is_barline()
                &&& k < r.len() - 1 ==> m.last().is_barline()
            } by {
                if k < rest.len() - 1 {
                    assert(r[k] == rest[k]);
                } else {
                    let g = rest.last();
                    assert(rest[rest.len() - 1] == g);
                    assert(!g.last().is_barline());
                    assert(r[k] == g.push(e));
                    assert forall|j: int| 0 <= j < g.len() implies !g.push(e)[j].is_barline() by {
                        assert(g.push(e)[j] == g[j]);
                        if j < g.len() - 1 {
                        }
                    }
                }
            }
        } else {
            assert forall|k: int| 0 <= k < r.len() implies {
                let m = #[trigger] r[k];
                &&& m.len() > 0
                &&& forall|j: int| 0 <= j < m.len() - 1 ==> !m[j].is_barline()
                &&& k < r.len() - 1 ==> m.last().is_barline()
            } by {
                if k < rest.len() {
                    assert(r[k] == rest[k]);
                    if k == rest.len() - 1 {
                        assert(rest.last() == rest[k]);
                    }
                }
            }
        }
    }
}

proof fn lemma_flatten_single(g: Seq<EventView>)
    ensures
        flatten(seq![g]) == g,
{
    let one = seq![g];
    assert(one.drop_last() =~= Seq::<Seq<EventView>>::empty());
    assert(one.last() == g);
    assert(flatten(one.drop_last()) =~= Seq::<EventView>::empty());
    assert(Seq::<EventView>::empty() + g =~= g);
}

proof fn lemma_flatten_prepend(g: Seq<EventView>, gs: Seq<Seq<EventView>>)
    ensures
        flatten(seq![g] + gs) == g + flatten(gs),
    decreases gs.len(),
{
    if gs.len() == 0 {
        assert(seq![g] + gs =~= seq![g]);
        lemma_flatten_single(g);
        assert(g + flatten(gs) =~= g);
    } else {
        lemma_flatten_prepend(g, gs.drop_last());
        assert((seq![g] + gs).drop_last() =~= seq![g] + gs.drop_last());
        assert((seq![g] + gs).last() == gs.last());
        assert(g + flatten(gs) =~= g + flatten(gs.drop_last()) + gs.last());
    }
}

/// Mirroring another staff's breaks loses nothing and reorders nothing:
/// joining the systems gives the staff's stream back.
pub proof fn mirror_breaks_keeps_events(s: Seq<EventView>, counts: Seq<usize>)
    ensures
        flatten(spec_mirror_breaks(s, counts)) == s,
    decreases counts.len(),
{
    if counts.len() == 0 {
        if s.len() > 0 {
            lemma_flatten_single(s);
        }
    } else {
        let c = mirror_consumed(s, counts[0] as int, counts.len() == 1);
        if counts[0] > 0 && counts.len() != 1 {
            lemma_bars_prefix_len_bounds(s, counts[0] as int);
        }
        mirror_breaks_keeps_events(s.skip(c), counts.drop_first());
        lemma_flatten_prepend(s.take(c), spec_mirror_breaks(s.skip(c), counts.drop_first()));
        assert(s.take(c) + s.skip(c) =~= s);
    }
}

/// A staff mirrored onto the first staff's systems gets exactly as many
/// systems as the first staff has.
pub proof fn mirror_breaks_system_count(s: Seq<EventView>, counts: Seq<usize>)
    requires
        counts.len() > 0,
    ensures
        spec_mirror_breaks(s, counts).len() == counts.len(),
    decreases counts.len(),
{
    let c = mirror_consumed(s, counts[0] as int, counts.len() == 1);
    if counts.len() == 1 {
        assert(s.skip(c).len() == 0);
        assert(counts.drop_first().len() == 0);
        assert(spec_mirror_breaks(s.skip(c), counts.drop_first()).len() == 0);
    } else {
        mirror_breaks_system_count(s.skip(c), counts.drop_first());
    }
}


proof fn lemma_flatten_append(a: Seq<Seq<EventView>>, b: Seq<Seq<EventView>>)
    ensures
        flatten(a + b) == flatten(a) + flatten(b),
    decreases b.len(),
{
    if b.len() == 0 {
        assert(a + b =~= a);
        assert(flatten(a) + flatten(b) =~= flatten(a));
    } else {
        lemma_flatten_append(a, b.drop_last());
        assert((a + b).drop_last() =~= a + b.drop_last());
        assert((a + b).last() == b.last());
        assert(flatten(a) + flatten(b) =~= flatten(a) + flatten(b.drop_last()) + b.last());
    }
}

proof fn lemma_chunks_keep_events(ms: Seq<Seq<EventView>>, mpl: int)
    requires
        mpl > 0,
    ensures
        flatten(chunk_measures(ms, mpl)) == flatten(ms),
    decreases ms.len(),
{
    if ms.len() == 0 {
        assert(flatten(chunk_measures(ms, mpl)) =~= flatten(ms));
    } else if ms.len() <= mpl {
        lemma_flatten_single(flatten(ms));
    } else {
        lemma_chunks_keep_events(ms.skip(mpl), mpl);
        lemma_flatten_prepend(flatten(ms.take(mpl)), chunk_measures(ms.skip(mpl), mpl));
        lemma_flatten_append(ms.take(mpl), ms.skip(mpl));
        assert(ms.take(mpl) + ms.skip(mpl) =~= ms);
    }
}

proof fn lemma_chunk_count(ms: Seq<Seq<EventView>>, mpl: int)
    requires
        mpl > 0,
    ensures
        chunk_measures(ms, mpl).len() == (ms.len() + mpl - 1) / mpl,
    decreases ms.len(),
{
    if ms.len() == 0 {
        assert((mpl - 1) / mpl == 0) by (nonlinear_arith)
            requires
                mpl > 0,
        ;
    } else if ms.len() <= mpl {
        assert((ms.len() + mpl - 1) / mpl == 1) by (nonlinear_arith)
            requires
                mpl > 0,
                0 < ms.len() <= mpl,
        ;
    } else {
        lemma_chunk_count(ms.skip(mpl), mpl);
        let n = ms.len() as int;
        assert((n + mpl - 1) / mpl == (n - mpl + mpl - 1) / mpl + 1) by (nonlinear_arith)
            requires
                mpl > 0,
                n > mpl,
        ;
    }
}

/// With a fixed number of measures per line, joining the systems gives the
/// stream back, and there are as many systems as the measures divided by the
/// measures per line, rounded up (one empty system for an empty stream).
pub proof fn breaks_by_count_keep_events(s: Seq<EventView>, mpl: int)
    requires
        mpl > 0,
    ensures
        flatten(spec_breaks_by_count(s, mpl)) == s,
        spec_breaks_by_count(s, mpl).len() == if s.len() == 0 {
            1
        } else {
            (spec_split_into_measures(s).len() + mpl - 1) / mpl
        },
{
    let ms = spec_split_into_measures(s);
    split_into_measures_keeps_events(s);
    if s.len() > 0 {
        lemma_measures_open(s);
        lemma_chunks_keep_events(ms, mpl);
        lemma_chunk_count(ms, mpl);
    } else {
        assert(ms.len() == 0);
        lemma_flatten_single(Seq::<EventView>::empty());
    }
}

/// With a fixed number of measures per line, every system but the last holds
/// exactly that many measures of the stream, in order.
pub proof fn breaks_by_count_full_systems(ms: Seq<Seq<EventView>>, mpl: int, k: int)
    requires
        mpl > 0,
        0 <= k < chunk_measures(ms, mpl).len() - 1,
    ensures
        chunk_measures(ms, mpl)[k] == flatten(ms.subrange(k * mpl, k * mpl + mpl)),
        k * mpl + mpl <= ms.len(),
    decreases ms.len(),
{
    if ms.len() > mpl {
        if k == 0 {
            assert(ms.take(mpl) =~= ms.subrange(0, mpl));
        } else {
            breaks_by_count_full_systems(ms.skip(mpl), mpl, k - 1);
            assert((k - 1) * mpl + mpl == k * mpl) by (nonlinear_arith);
            assert(ms.skip(mpl).subrange((k - 1) * mpl, (k - 1) * mpl + mpl) =~= ms.subrange(
                k * mpl,
                k * mpl + mpl,
            ));
        }
    }
}

} // verus!
