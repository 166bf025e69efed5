//! Beam levels of short notes and the stem direction a beamed item is drawn with.

use vstd::prelude::*;
use std::collections::HashMap;
use crate::staff::{LaidOutItem, seq_sum, seq_sum_swap};
use crate::events::{Event, EventView, events_view};

verus! {

/// Number of beams (or flags) a note of the given duration denominator carries:
/// one for eighths, two for sixteenths, three for 32nds, four for 64ths and shorter.
pub open spec fn spec_beam_count(duration: int) -> int {
    if duration >= 64 {
        4
    } else if duration >= 32 {
        3
    } else if duration >= 16 {
        2
    } else if duration >= 8 {
        1
    } else {
        0
    }
}

/// Smallest duration denominator that carries beam `level` (1-based); levels
/// past the third all need a 64th.
pub open spec fn spec_min_dur_for_level(level: int) -> int {
    if level == 1 {
        8
    } else if level == 2 {
        16
    } else if level == 3 {
        32
    } else {
        64
    }
}

/// Number of beams for a duration denominator.
pub fn beam_count(duration: i32) -> (r: i32)
    ensures
        r == spec_beam_count(duration as int),
{
    if duration >= 64 {
        4
    } else if duration >= 32 {
        3
    } else if duration >= 16 {
        2
    } else if duration >= 8 {
        1
    } else {
        0
    }
}

/// Smallest duration denominator drawn with beam `level`.
pub fn min_dur_for_level(level: i32) -> (r: i32)
    ensures
        r == spec_min_dur_for_level(level as int),
{
    match level {
        1 => 8,
        2 => 16,
        3 => 32,
        _ => 64,
    }
}

/// A note has beam `level` (1 to 4) exactly when its duration reaches the
/// level's minimum duration.
pub proof fn beam_level_threshold(duration: int, level: int)
    requires
        1 <= level <= 4,
    ensures
        spec_beam_count(duration) >= level <==> duration >= spec_min_dur_for_level(level),
{
}

/// Beam counts never decrease as notes get shorter, and stay between 0 and 4.
pub proof fn beam_count_monotone(a: int, b: int)
    requires
        a <= b,
    ensures
        spec_beam_count(a) <= spec_beam_count(b),
        0 <= spec_beam_count(a) <= 4,
{
}

/// Stem direction for the item at `idx`: an entry in `adj_stem_dirs` (the
/// direction a beam group imposed) wins over the item's own, and "up" is the
/// fallback.
pub open spec fn spec_stem_dir_for_item(
    own: Option<Seq<char>>,
    adj: Map<usize, String>,
    idx: usize,
) -> Seq<char> {
    if adj.contains_key(idx) {
        adj[idx]@
    } else {
        match own {
            Some(d) => d,
            None => "up"@,
        }
    }
}

/// Stem direction for item `idx`, with the beam group's overrides.
pub fn stem_dir_for_item(item: &LaidOutItem, adj_stem_dirs: &HashMap<usize, String>, idx: usize) -> (r:
    String)
    ensures
        r@ == spec_stem_dir_for_item(item@.stem_dir, adj_stem_dirs@, idx),
{
    broadcast use vstd::std_specs::hash::group_hash_axioms;

    match adj_stem_dirs.get(&idx) {
        Some(d) => d.clone(),
        None => match &item.stem_dir {
            Some(d) => d.clone(),
            None => {
                let r = String::from_str("up");
                proof {
                    reveal_strlit("up");
                }
                r
            },
        },
    }
}


// ─── Automatic beam groups ─────────────────────────────────────────────

/// Notes and chords of an eighth or shorter can be beamed.
pub open spec fn beamable(e: EventView) -> bool {
    match e {
        EventView::Note(n) => n.duration >= 8,
        EventView::Chord(c) => c.duration >= 8,
        _ => false,
    }
}

/// Most notes one beam group holds: 8 for grace notes, 4 otherwise.
pub open spec fn group_limit(grace: bool) -> int {
    if grace {
        8
    } else {
        4
    }
}

/// The groups with the open run added if it holds at least two notes.
pub open spec fn close_run(groups: Seq<Seq<int>>, run: Seq<int>) -> Seq<Seq<int>> {
    if run.len() >= 2 {
        groups.push(run)
    } else {
        groups
    }
}

/// Beam groups closed so far and the open run, after the first `n` items:
/// a beamable item joins the open run unless its grace-ness or voice differs
/// from the run's first note (the run is then closed first) or the run is
/// full (it then becomes a group as it is); any other item closes the run.
pub open spec fn beam_scan(evs: Seq<EventView>, voices: Seq<u32>, n: int) -> (Seq<Seq<int>>, Seq<int>)
    decreases n,
{
    if n <= 0 {
        (Seq::empty(), Seq::empty())
    } else {
        let prev = beam_scan(evs, voices, n - 1);
        let g = prev.0;
        let c = prev.1;
        let i = n - 1;
        let e = evs[i];
        if beamable(e) {
            let split = c.len() > 0 && (evs[c[0]].grace() != e.grace() || voices[c[0]]
                != voices[i]);
            let g1 = if split {
                close_run(g, c)
            } else {
                g
            };
            let c1 = if split {
                Seq::empty()
            } else {
                c
            };
            let full = c1.len() == group_limit(e.grace());
            let g2 = if full {
                g1.push(c1)
            } else {
                g1
            };
            let c2 = if full {
                Seq::empty()
            } else {
                c1
            };
            (g2, c2.push(i))
        } else {
            (close_run(g, c), Seq::empty())
        }
    }
}

/// The beam groups of a staff's items, as lists of item indices.
pub open spec fn spec_auto_beam_groups(evs: Seq<EventView>, voices: Seq<u32>) -> Seq<Seq<int>> {
    let st = beam_scan(evs, voices, evs.len() as int);
    close_run(st.0, st.1)
}

/// View of index groups.
pub open spec fn index_groups_view(v: Seq<Vec<usize>>) -> Seq<Seq<int>> {
    v.map_values(|g: Vec<usize>| g@.map_values(|i: usize| i as int))
}

/// Group the items of a staff for automatic beaming; `voices[i]` is the voice
/// of item `i`.
pub fn auto_beam_groups(events: &[Event], voices: &[u32]) -> (r: Vec<Vec<usize>>)
    requires
        voices@.len() == events@.len(),
    ensures
        index_groups_view(r@) == spec_auto_beam_groups(events_view(events@), voices@),
{
    let ghost evs = events_view(events@);
    let mut groups: Vec<Vec<usize>> = Vec::new();
    let mut cur: Vec<usize> = Vec::new();
    let n = events.len();
    let mut i: usize = 0;
    while i < n
        invariant
            n == events@.len(),
            evs == events_view(events@),
            voices@.len() == n,
            i <= n,
            index_groups_view(groups@) == beam_scan(evs, voices@, i as int).0,
            cur@.map_values(|j: usize| j as int) == beam_scan(evs, voices@, i as int).1,
            forall|k: int| 0 <= k < cur@.len() ==> #[trigger] cur@[k] < i,
        decreases n - i,
    {
        let ghost g0 = index_groups_view(groups@);
        let ghost c0 = cur@.map_values(|j: usize| j as int);
        let ev = &events[i];
        assert(evs[i as int] == ev@);
        let beamable_now = match ev {
            Event::Note(note) => note.duration >= 8,
            Event::Chord(chord) => chord.duration >= 8,
            _ => false,
        };
        if beamable_now {
            let grace = ev.grace();
            if cur.len() > 0 {
                let first = cur[0];
                assert(c0[0] == first as int);
                assert(evs[first as int] == events@[first as int]@);
                if events[first].grace() != grace || voices[first] != voices[i] {
                    if cur.len() >= 2 {
                        groups.push(cur);
                        assert(index_groups_view(groups@) =~= g0.push(c0));
                    }
                    cur = Vec::new();
                }
            }
            let limit: usize = if grace { 8 } else { 4 };
            if cur.len() == limit {
                let ghost cv = cur@.map_values(|j: usize| j as int);
                let ghost gv = index_groups_view(groups@);
                groups.push(cur);
                assert(index_groups_view(groups@) =~= gv.push(cv));
                cur = Vec::new();
            }
            let ghost cb = cur@;
            cur.push(i);
            assert(cur@.map_values(|j: usize| j as int) =~= cb.map_values(|j: usize| j as int).push(
                i as int,
            ));
        } else {
            if cur.len() >= 2 {
                groups.push(cur);
                assert(index_groups_view(groups@) =~= g0.push(c0));
            }
            cur = Vec::new();
        }
        assert(cur@.map_values(|j: usize| j as int) =~= beam_scan(evs, voices@, i + 1).1);
        i += 1;
    }
    if cur.len() >= 2 {
        let ghost g0 = index_groups_view(groups@);
        let ghost c0 = cur@.map_values(|j: usize| j as int);
        groups.push(cur);
        assert(index_groups_view(groups@) =~= g0.push(c0));
    }
    groups
}

/// A run of consecutive beamable items of one grace-ness and one voice, no
/// longer than a beam group may be, all among the first `n` items.
pub open spec fn is_beam_run(evs: Seq<EventView>, voices: Seq<u32>, r: Seq<int>, n: int) -> bool {
    r.len() > 0 ==> {
        &&& 0 <= r[0]
        &&& r.last() < n
        &&& r.len() <= group_limit(evs[r[0]].grace())
        &&& forall|j: int|
            0 <= j < r.len() ==> {
                &&& #[trigger] r[j] == r[0] + j
                &&& beamable(evs[r[j]])
                &&& evs[r[j]].grace() == evs[r[0]].grace()
                &&& voices[r[j]] == voices[r[0]]
            }
    }
}

/// Where the open run starts, or `n` when there is none.
pub open spec fn run_bound(run: Seq<int>, n: int) -> int {
    if run.len() > 0 {
        run[0]
    } else {
        n
    }
}

/// What holds of the scan after `n` items: the open run ends at the last item
/// and is a beam run; the closed groups are beam runs of at least two notes, in
/// order, all before the open run.
pub open spec fn scan_ok(evs: Seq<EventView>, voices: Seq<u32>, n: int) -> bool {
    let st = beam_scan(evs, voices, n);
    let g = st.0;
    let c = st.1;
    &&& is_beam_run(evs, voices, c, n)
    &&& c.len() > 0 ==> c.last() == n - 1
    &&& forall|k: int|
        0 <= k < g.len() ==> #[trigger] g[k].len() >= 2 && is_beam_run(evs, voices, g[k], n)
            && g[k].last() < run_bound(c, n)
    &&& forall|k: int, l: int| 0 <= k < l < g.len() ==> #[trigger] g[k].last() < #[trigger] g[l][0]
}

proof fn lemma_scan_ok(evs: Seq<EventView>, voices: Seq<u32>, n: int)
    requires
        0 <= n <= evs.len(),
        voices.len() == evs.len(),
    ensures
        scan_ok(evs, voices, n),
    decreases n,
{
    if n > 0 {
        lemma_scan_ok(evs, voices, n - 1);
        let prev = beam_scan(evs, voices, n - 1);
        let g = prev.0;
        let c = prev.1;
        let i = n - 1;
        let e = evs[i];
        let st = beam_scan(evs, voices, n);
        if beamable(e) {
            let split = c.len() > 0 && (evs[c[0]].grace() != e.grace() || voices[c[0]]
                != voices[i]);
            let g1 = if split {
                close_run(g, c)
            } else {
                g
            };
            let c1 = if split {
                Seq::<int>::empty()
            } else {
                c
            };
            assert(forall|k: int|
                0 <= k < g1.len() ==> #[trigger] g1[k].len() >= 2 && is_beam_run(evs, voices, g1[k], n)
                    && g1[k].last() < run_bound(c1, n)) by {
                assert forall|k: int| 0 <= k < g1.len() implies #[trigger] g1[k].len() >= 2 && is_beam_run(evs, voices, g1[k], n)
                    && g1[k].last() < run_bound(c1, n) by {
                    if k < g.len() {
                        assert(g1[k] == g[k]);
                    } else {
                        assert(g1[k] == c);
                    }
                }
            }
            assert(forall|k: int, l: int| 0 <= k < l < g1.len() ==> #[trigger] g1[k].last() < #[trigger] g1[l][0]) by {
                assert forall|k: int, l: int| 0 <= k < l < g1.len() implies #[trigger] g1[k].last() < #[trigger] g1[l][0] by {
                    if l < g.len() {
                        assert(g1[k] == g[k] && g1[l] == g[l]);
                    } else {
                        assert(g1[k] == g[k] && g1[l] == c);
                    }
                }
            }
            let full = c1.len() == group_limit(e.grace());
            let g2 = if full {
                g1.push(c1)
            } else {
                g1
            };
            let c2 = if full {
                Seq::<int>::empty()
            } else {
                c1
            };
            assert(forall|k: int|
                0 <= k < g2.len() ==> #[trigger] g2[k].len() >= 2 && is_beam_run(evs, voices, g2[k], n)
                    && g2[k].last() < run_bound(c2, n)) by {
                assert forall|k: int| 0 <= k < g2.len() implies #[trigger] g2[k].len() >= 2 && is_beam_run(evs, voices, g2[k], n)
                    && g2[k].last() < run_bound(c2, n) by {
                    if k < g1.len() {
                        assert(g2[k] == g1[k]);
                    } else {
                        assert(g2[k] == c1);
                    }
                }
            }
            assert(forall|k: int, l: int| 0 <= k < l < g2.len() ==> #[trigger] g2[k].last() < #[trigger] g2[l][0]) by {
                assert forall|k: int, l: int| 0 <= k < l < g2.len() implies #[trigger] g2[k].last() < #[trigger] g2[l][0] by {
                    if l < g1.len() {
                        assert(g2[k] == g1[k] && g2[l] == g1[l]);
                    } else {
                        assert(g2[k] == g1[k] && g2[l] == c1);
                    }
                }
            }
            let c3 = c2.push(i);
            assert(st.0 == g2 && st.1 == c3);
            assert(is_beam_run(evs, voices, c3, n)) by {
                if c2.len() > 0 {
                    assert(c3[0] == c2[0]);
                    assert forall|j: int| 0 <= j < c3.len() implies {
                        &&& #[trigger] c3[j] == c3[0] + j
                        &&& beamable(evs[c3[j]])
                        &&& evs[c3[j]].grace() == evs[c3[0]].grace()
                        &&& voices[c3[j]] == voices[c3[0]]
                    } by {
                        if j < c2.len() {
                            assert(c3[j] == c2[j]);
                        }
                    }
                }
            }
        } else {
            assert(st.0 == close_run(g, c) && st.1 == Seq::<int>::empty());
            assert forall|k: int| 0 <= k < st.0.len() implies #[trigger] st.0[k].len() >= 2 && is_beam_run(evs, voices, st.0[k], n)
                && st.0[k].last() < n by {
                if k < g.len() {
                    assert(st.0[k] == g[k]);
                } else {
                    assert(st.0[k] == c);
                }
            }
            assert forall|k: int, l: int| 0 <= k < l < st.0.len() implies #[trigger] st.0[k].last() < #[trigger] st.0[l][0] by {
                if l < g.len() {
                    assert(st.0[k] == g[k] && st.0[l] == g[l]);
                } else {
                    assert(st.0[k] == g[k] && st.0[l] == c);
                }
            }
        }
    }
}

/// Automatic beam groups are runs of 2 to 4 consecutive items (2 to 8 for grace
/// notes), each an eighth or shorter note or chord, all of one voice and all
/// grace or all not; the groups follow each other without overlapping.
pub proof fn beam_groups_are_runs(evs: Seq<EventView>, voices: Seq<u32>, k: int)
    requires
        voices.len() == evs.len(),
        0 <= k < spec_auto_beam_groups(evs, voices).len(),
    ensures
        ({
            let gs = spec_auto_beam_groups(evs, voices);
            let g = gs[k];
            &&& 2 <= g.len() <= group_limit(evs[g[0]].grace())
            &&& 0 <= g[0]
            &&& g.last() < evs.len()
            &&& forall|j: int|
                0 <= j < g.len() ==> {
                    &&& #[trigger] g[j] == g[0] + j
                    &&& beamable(evs[g[j]])
                    &&& evs[g[j]].grace() == evs[g[0]].grace()
                    &&& voices[g[j]] == voices[g[0]]
                }
            &&& k + 1 < gs.len() ==> g.last() < gs[k + 1][0]
        }),
{
    let n = evs.len() as int;
    lemma_scan_ok(evs, voices, n);
    let st = beam_scan(evs, voices, n);
    let gs = spec_auto_beam_groups(evs, voices);
    if k < st.0.len() {
        assert(gs[k] == st.0[k]);
        if k + 1 < st.0.len() {
            assert(gs[k + 1] == st.0[k + 1]);
        } else if k + 1 < gs.len() {
            assert(gs[k + 1] == st.1);
        }
    } else {
        assert(gs[k] == st.1);
    }
}

/// Items `i` and `i + 1` could share a beam: both beamable, of one
/// grace-ness and one voice.
pub open spec fn beam_neighbours(evs: Seq<EventView>, voices: Seq<u32>, i: int) -> bool {
    &&& beamable(evs[i])
    &&& beamable(evs[i + 1])
    &&& evs[i].grace() == evs[i + 1].grace()
    &&& voices[i] == voices[i + 1]
}

/// Run `g` (consecutive indices) holds `i`, and also `i + 1` unless it is
/// full (`lim` items) and ends at `i`.
pub open spec fn holds_with_next(g: Seq<int>, i: int, lim: int) -> bool {
    &&& g.len() > 0
    &&& g[0] <= i <= g.last()
    &&& (i + 1 <= g.last() || (g.len() == lim && g.last() == i))
}

/// After `n` items, neighbours `i`, `i + 1` lie together in a closed group
/// (or `i` ends a full one), or both in the open run.
pub open spec fn pair_placed(evs: Seq<EventView>, voices: Seq<u32>, n: int, i: int) -> bool {
    let st = beam_scan(evs, voices, n);
    ||| exists|k: int|
        0 <= k < st.0.len() && #[trigger] holds_with_next(st.0[k], i, group_limit(evs[i].grace()))
    ||| (st.1.len() > 0 && st.1[0] <= i)
}

proof fn lemma_run_last(evs: Seq<EventView>, voices: Seq<u32>, r: Seq<int>, n: int)
    requires
        r.len() > 0,
        is_beam_run(evs, voices, r, n),
    ensures
        r.last() == r[0] + r.len() - 1,
{
    assert(r[r.len() - 1] == r[0] + (r.len() - 1));
}

proof fn lemma_pairs_placed(evs: Seq<EventView>, voices: Seq<u32>, n: int)
    requires
        0 <= n <= evs.len(),
        voices.len() == evs.len(),
    ensures
        forall|i: int|
            0 <= i && i + 1 < n && beam_neighbours(evs, voices, i) ==> #[trigger] pair_placed(
                evs,
                voices,
                n,
                i,
            ),
    decreases n,
{
    if n > 0 {
        lemma_pairs_placed(evs, voices, n - 1);
        lemma_scan_ok(evs, voices, n - 1);
        let prev = beam_scan(evs, voices, n - 1);
        let g = prev.0;
        let c = prev.1;
        let t = n - 1;
        let e = evs[t];
        let st = beam_scan(evs, voices, n);
        if c.len() > 0 {
            lemma_run_last(evs, voices, c, n - 1);
        }
        // Closed groups only grow at the end.
        assert(st.0.len() >= g.len() && forall|k: int| 0 <= k < g.len() ==> #[trigger] st.0[k] == g[k]);
        assert forall|i: int| 0 <= i && i + 1 < n && beam_neighbours(evs, voices, i) implies #[trigger] pair_placed(
            evs,
            voices,
            n,
            i,
        ) by {
            let lim = group_limit(evs[i].grace());
            if i + 1 < n - 1 {
                assert(pair_placed(evs, voices, n - 1, i));
                if exists|k: int| 0 <= k < g.len() && #[trigger] holds_with_next(g[k], i, lim) {
                    let k = choose|k: int| 0 <= k < g.len() && #[trigger] holds_with_next(g[k], i, lim);
                    assert(holds_with_next(st.0[k], i, lim));
                } else {
                    assert(c.len() > 0 && c[0] <= i);
                    assert(i + 1 <= c.last());
                    if beamable(e) {
                        let split = evs[c[0]].grace() != e.grace() || voices[c[0]] != voices[t];
                        if split {
                            assert(st.0[g.len() as int] == c);
                            assert(holds_with_next(st.0[g.len() as int], i, lim));
                        } else if c.len() == group_limit(e.grace()) {
                            assert(st.0[g.len() as int] == c);
                            assert(holds_with_next(st.0[g.len() as int], i, lim));
                        } else {
                            assert(st.1 == c.push(t));
                            assert(st.1[0] == c[0]);
                        }
                    } else {
                        assert(st.0[g.len() as int] == c);
                        assert(holds_with_next(st.0[g.len() as int], i, lim));
                    }
                }
            } else {
                // The new pair (t - 1, t).
                assert(i == t - 1);
                let pp = beam_scan(evs, voices, n - 2);
                assert(c.len() > 0 && c.last() == t - 1);
                assert(c[c.len() - 1] == c[0] + (c.len() - 1));
                assert(evs[c[c.len() - 1]].grace() == evs[c[0]].grace());
                assert(voices[c[c.len() - 1]] == voices[c[0]]);
                if c.len() == group_limit(e.grace()) {
                    assert(st.0[g.len() as int] == c);
                    assert(holds_with_next(st.0[g.len() as int], i, lim));
                } else {
                    assert(st.1 == c.push(t));
                    assert(st.1[0] == c[0]);
                }
            }
        }
    }
}

/// Automatic beaming leaves no beam out: two neighbouring beamable items of one
/// voice and one grace-ness share a beam group, unless the group of the first is
/// already full (4 notes, 8 for grace notes) and ends with it. Durations play no
/// part.
pub proof fn beam_groups_are_maximal(evs: Seq<EventView>, voices: Seq<u32>, i: int)
    requires
        voices.len() == evs.len(),
        0 <= i,
        i + 1 < evs.len(),
        beam_neighbours(evs, voices, i),
    ensures
        exists|k: int|
            0 <= k < spec_auto_beam_groups(evs, voices).len() && #[trigger] spec_auto_beam_groups(
                evs,
                voices,
            )[k].contains(i) && (spec_auto_beam_groups(evs, voices)[k].contains(i + 1) || (
            spec_auto_beam_groups(evs, voices)[k].len() == group_limit(evs[i].grace())
                && spec_auto_beam_groups(evs, voices)[k].last() == i)),
{
    let n = evs.len() as int;
    lemma_pairs_placed(evs, voices, n);
    lemma_scan_ok(evs, voices, n);
    assert(pair_placed(evs, voices, n, i));
    let st = beam_scan(evs, voices, n);
    let g = st.0;
    let c = st.1;
    let gs = spec_auto_beam_groups(evs, voices);
    let lim = group_limit(evs[i].grace());
    if exists|k: int| 0 <= k < g.len() && #[trigger] holds_with_next(g[k], i, lim) {
        let k = choose|k: int| 0 <= k < g.len() && #[trigger] holds_with_next(g[k], i, lim);
        let r = g[k];
        assert(is_beam_run(evs, voices, r, n));
        lemma_run_last(evs, voices, r, n);
        assert(gs[k] == r);
        assert(r[i - r[0]] == i);
        if i + 1 <= r.last() {
            assert(r[i + 1 - r[0]] == i + 1);
        }
        assert(gs[k].contains(i));
    } else {
        assert(c.len() > 0 && c[0] <= i);
        lemma_run_last(evs, voices, c, n);
        assert(gs[g.len() as int] == c);
        assert(c[i - c[0]] == i);
        assert(c[i + 1 - c[0]] == i + 1);
        assert(gs[g.len() as int].contains(i));
    }
}

/// Sum of the staff positions of the items in `group`.
pub open spec fn group_position_sum(items: Seq<LaidOutItem>, group: Seq<usize>) -> int
    decreases group.len(),
{
    if group.len() == 0 {
        0
    } else {
        group_position_sum(items, group.drop_last()) + items[group.last() as int].staff_pos
    }
}

/// Stem direction shared by a beam group: a direction forced on one of its
/// notes wins; grace groups stem up; otherwise up when the notes lie on
/// average below the middle line (mean staff position above 4), else down.
pub open spec fn spec_beam_group_stem_dir(
    items: Seq<LaidOutItem>,
    group: Seq<usize>,
    forced: Option<Seq<char>>,
) -> Seq<char> {
    match forced {
        Some(d) => d,
        None => if items[group[0] as int].event@.grace() {
            "up"@
        } else if group_position_sum(items, group) > 4 * group.len() {
            "up"@
        } else {
            "down"@
        },
    }
}

/// Stem direction of the notes of a beam group; `forced` is the direction
/// forced on one of its notes, if any.
pub fn beam_group_stem_dir(items: &[LaidOutItem], group: &[usize], forced: Option<&str>) -> (r: String)
    requires
        0 < group@.len(),
        forall|k: int| 0 <= k < group@.len() ==> #[trigger] group@[k] < items@.len(),
    ensures
        r@ == spec_beam_group_stem_dir(
            items@,
            group@,
            match forced {
                Some(d) => Some(d@),
                None => None,
            },
        ),
{
    if let Some(d) = forced {
        return String::from_str(d);
    }
    let first = group[0];
    if items[first].event.grace() {
        let r = String::from_str("up");
        proof {
            reveal_strlit("up");
        }
        return r;
    }
    let mut sum: i128 = 0;
    let mut k: usize = 0;
    while k < group.len()
        invariant
            0 < group@.len() <= usize::MAX,
            forall|j: int| 0 <= j < group@.len() ==> #[trigger] group@[j] < items@.len(),
            k <= group@.len(),
            sum == group_position_sum(items@, group@.take(k as int)),
            -0x8000_0000 * k <= sum <= 0x8000_0000 * k,
        decreases group@.len() - k,
    {
        assert(group@.take(k + 1).drop_last() =~= group@.take(k as int));
        sum = sum + items[group[k]].staff_pos as i128;
        k += 1;
    }
    assert(group@.take(group@.len() as int) =~= group@);
    let n = group.len() as i128;
    if sum > 4 * n {
        let r = String::from_str("up");
        proof {
            reveal_strlit("up");
        }
        r
    } else {
        let r = String::from_str("down");
        proof {
            reveal_strlit("down");
        }
        r
    }
}

/// Staff positions of the notes of a group, in group order.
pub open spec fn group_positions(items: Seq<LaidOutItem>, group: Seq<usize>) -> Seq<int> {
    group.map_values(|g: usize| items[g as int].staff_pos as int)
}

proof fn lemma_group_sum(items: Seq<LaidOutItem>, group: Seq<usize>)
    ensures
        group_position_sum(items, group) == seq_sum(group_positions(items, group)),
    decreases group.len(),
{
    if group.len() > 0 {
        lemma_group_sum(items, group.drop_last());
        assert(group_positions(items, group).drop_last() =~= group_positions(
            items,
            group.drop_last(),
        ));
    }
}

/// Without a forced direction, a group of ordinary (not grace) notes stems up
/// exactly when the sum of the staff positions of all its notes exceeds four
/// times its size, i.e. when its notes lie on average below the middle line;
/// otherwise it stems down.
pub proof fn beam_direction_follows_mean(items: Seq<LaidOutItem>, group: Seq<usize>)
    requires
        0 < group.len(),
        !items[group[0] as int].event@.grace(),
    ensures
        spec_beam_group_stem_dir(items, group, None) == if seq_sum(group_positions(items, group))
            > 4 * group.len() {
            "up"@
        } else {
            "down"@
        },
{
    lemma_group_sum(items, group);
}

/// The notes of a group all grace notes or all not.
pub open spec fn uniform_grace(items: Seq<LaidOutItem>, group: Seq<usize>) -> bool {
    forall|k: int|
        0 <= k < group.len() ==> (#[trigger] items[group[k] as int]).event@.grace()
            == items[group[0] as int].event@.grace()
}

/// Without a forced direction, the order in which a group lists its notes does
/// not change its stem direction: exchanging two of them gives the same one.
pub proof fn beam_direction_ignores_order(items: Seq<LaidOutItem>, group: Seq<usize>, i: int, j: int)
    requires
        0 <= i < j < group.len(),
        uniform_grace(items, group),
    ensures
        spec_beam_group_stem_dir(items, group.update(i, group[j]).update(j, group[i]), None)
            == spec_beam_group_stem_dir(items, group, None),
{
    let h = group.update(i, group[j]).update(j, group[i]);
    lemma_group_sum(items, group);
    lemma_group_sum(items, h);
    seq_sum_swap(group_positions(items, group), i, j);
    assert(group_positions(items, h) =~= group_positions(items, group).update(
        i,
        group_positions(items, group)[j],
    ).update(j, group_positions(items, group)[i]));
    assert(items[h[0] as int].event@.grace() == items[group[0] as int].event@.grace()) by {
        if i == 0 {
            assert(h[0] == group[j]);
        }
    }
}

// ─── Beam segments of a group ──────────────────────────────────────────

/// Most beams any note of the first `n` durations carries.
pub open spec fn max_beam_count(ds: Seq<i32>, n: int) -> int
    decreases n,
{
    if n <= 0 {
        0
    } else {
        let m = max_beam_count(ds, n - 1);
        let c = spec_beam_count(ds[n - 1] as int);
        if c > m {
            c
        } else {
            m
        }
    }
}

/// Runs closed so far and the start of the open run, after the first `n`
/// notes, of notes whose duration reaches `thr`.
pub open spec fn level_scan(ds: Seq<i32>, thr: int, n: int) -> (Seq<(int, int)>, Option<int>)
    decreases n,
{
    if n <= 0 {
        (Seq::empty(), None)
    } else {
        let prev = level_scan(ds, thr, n - 1);
        let i = n - 1;
        if ds[i] >= thr {
            (
                prev.0,
                match prev.1 {
                    Some(st) => Some(st),
                    None => Some(i),
                },
            )
        } else {
            (
                match prev.1 {
                    Some(st) => prev.0.push((st, i - 1)),
                    None => prev.0,
                },
                None,
            )
        }
    }
}

/// Maximal runs (first and last index) of notes whose duration reaches `thr`.
pub open spec fn level_runs(ds: Seq<i32>, thr: int) -> Seq<(int, int)> {
    let st = level_scan(ds, thr, ds.len() as int);
    match st.1 {
        Some(s) => st.0.push((s, ds.len() - 1)),
        None => st.0,
    }
}

/// Beam segments of levels 1 to `m`, level by level: at each level, every
/// maximal run of notes short enough to carry that beam.
pub open spec fn segments_upto(ds: Seq<i32>, m: int) -> Seq<(int, int, int)>
    decreases m,
{
    if m <= 0 {
        Seq::empty()
    } else {
        segments_upto(ds, m - 1) + level_runs(ds, spec_min_dur_for_level(m)).map_values(
            |r: (int, int)| (m, r.0, r.1),
        )
    }
}

/// Beam segments of a group of at least two notes (none for a shorter group).
pub open spec fn spec_beam_segments(ds: Seq<i32>) -> Seq<(int, int, int)> {
    if ds.len() < 2 {
        Seq::empty()
    } else {
        segments_upto(ds, max_beam_count(ds, ds.len() as int))
    }
}

/// A beam segment: its level (1 for the primary beam) and the first and last
/// note it joins; a segment of one note is drawn as a stub.
#[derive(Debug, Clone, Copy, PartialEq, Eq, Structural)]
pub struct BeamSegment {
    pub level: i32,
    pub first: usize,
    pub last: usize,
}

/// View of beam segments.
pub open spec fn segments_view(v: Seq<BeamSegment>) -> Seq<(int, int, int)> {
    v.map_values(|b: BeamSegment| (b.level as int, b.first as int, b.last as int))
}

/// The beams to draw for a beam group whose notes have the given durations.
pub fn beam_segments(durations: &[i32]) -> (r: Vec<BeamSegment>)
    ensures
        segments_view(r@) == spec_beam_segments(durations@),
{
    let ghost ds = durations@;
    let n = durations.len();
    let mut out: Vec<BeamSegment> = Vec::new();
    if n < 2 {
        assert(segments_view(out@) =~= Seq::<(int, int, int)>::empty());
        return out;
    }
    let mut max_beams: i32 = 0;
    let mut i: usize = 0;
    while i < n
        invariant
            n == ds.len(),
            ds == durations@,
            i <= n,
            max_beams == max_beam_count(ds, i as int),
            0 <= max_beams <= 4,
        decreases n - i,
    {
        let c = beam_count(durations[i]);
        if c > max_beams {
            max_beams = c;
        }
        i += 1;
    }
    let mut level: i32 = 1;
    while level <= max_beams
        invariant
            n == ds.len(),
            ds == durations@,
            n >= 2,
            0 <= max_beams <= 4,
            max_beams == max_beam_count(ds, n as int),
            1 <= level <= max_beams + 1,
            segments_view(out@) == segments_upto(ds, level - 1),
        decreases max_beams + 1 - level,
    {
        let thr = min_dur_for_level(level);
        let ghost before = segments_view(out@);
        let mut runs: Vec<(usize, usize)> = Vec::new();
        let mut open: Option<usize> = None;
        let mut j: usize = 0;
        while j < n
            invariant
                n == ds.len(),
                ds == durations@,
                thr == spec_min_dur_for_level(level as int),
                j <= n,
                runs@.map_values(|r: (usize, usize)| (r.0 as int, r.1 as int)) == level_scan(ds, thr as int, j as int).0,
                match level_scan(ds, thr as int, j as int).1 {
                    Some(s) => open == Some(s as usize) && 0 <= s < j,
                    None => open is None,
                },
            decreases n - j,
        {
            let ghost rv = runs@.map_values(|r: (usize, usize)| (r.0 as int, r.1 as int));
            if durations[j] >= thr {
                if open.is_none() {
                    open = Some(j);
                }
            } else {
                match open {
                    Some(st) => {
                        runs.push((st, j - 1));
                        assert(runs@.map_values(|r: (usize, usize)| (r.0 as int, r.1 as int)) =~= rv.push(
                            (st as int, j - 1),
                        ));
                    },
                    None => {},
                }
                open = None;
            }
            j += 1;
        }
        match open {
            Some(st) => {
                let ghost rv = runs@.map_values(|r: (usize, usize)| (r.0 as int, r.1 as int));
                runs.push((st, n - 1));
                assert(runs@.map_values(|r: (usize, usize)| (r.0 as int, r.1 as int)) =~= rv.push(
                    (st as int, n - 1),
                ));
            },
            None => {},
        }
        let ghost lr = level_runs(ds, thr as int);
        assert(runs@.map_values(|r: (usize, usize)| (r.0 as int, r.1 as int)) == lr);
        let mut k: usize = 0;
        while k < runs.len()
            invariant
                segments_view(out@) == before + lr.map_values(|r: (int, int)| (level as int, r.0, r.1)).take(
                    k as int,
                ),
                runs@.map_values(|r: (usize, usize)| (r.0 as int, r.1 as int)) == lr,
                k <= runs@.len(),
            decreases runs@.len() - k,
        {
            let (a, b) = runs[k];
            assert(lr[k as int] == (a as int, b as int));
            let ghost ov = segments_view(out@);
            out.push(BeamSegment { level, first: a, last: b });
            assert(segments_view(out@) =~= ov.push((level as int, a as int, b as int)));
            assert(lr.map_values(|r: (int, int)| (level as int, r.0, r.1)).take(k + 1) =~= lr.map_values(
                |r: (int, int)| (level as int, r.0, r.1),
            ).take(k as int).push((level as int, a as int, b as int)));
            k += 1;
        }
        assert(lr.map_values(|r: (int, int)| (level as int, r.0, r.1)).take(runs@.len() as int)
            =~= lr.map_values(|r: (int, int)| (level as int, r.0, r.1)));
        level += 1;
    }
    out
}

/// `(a, b)` is a maximal run of notes reaching `thr`: every note from `a` to
/// `b` reaches it, and neither neighbour of the run does.
pub open spec fn maximal_run(ds: Seq<i32>, thr: int, a: int, b: int) -> bool {
    &&& 0 <= a <= b < ds.len()
    &&& forall|i: int| a <= i <= b ==> #[trigger] ds[i] >= thr
    &&& a == 0 || ds[a - 1] < thr
    &&& b == ds.len() - 1 || ds[b + 1] < thr
}

proof fn lemma_level_scan(ds: Seq<i32>, thr: int, n: int)
    requires
        0 <= n <= ds.len(),
    ensures
        ({
            let st = level_scan(ds, thr, n);
            &&& forall|k: int|
                0 <= k < st.0.len() ==> maximal_run(ds, thr, (#[trigger] st.0[k]).0, st.0[k].1) && st.0[k].1
                    + 1 < n
            &&& forall|k: int, l: int| 0 <= k < l < st.0.len() ==> (#[trigger] st.0[k]).1 < (#[trigger] st.0[l]).0
            &&& match st.1 {
                Some(s) => {
                    &&& 0 <= s < n
                    &&& s == 0 || ds[s - 1] < thr
                    &&& forall|i: int| s <= i < n ==> #[trigger] ds[i] >= thr
                    &&& forall|k: int| 0 <= k < st.0.len() ==> (#[trigger] st.0[k]).1 < s
                },
                None => n > 0 ==> ds[n - 1] < thr,
            }
            &&& forall|i: int|
                0 <= i < n && ds[i] >= thr ==> (st.1 matches Some(s) && s <= i) || exists|k: int|
                    0 <= k < st.0.len() && (#[trigger] st.0[k]).0 <= i <= st.0[k].1
        }),
    decreases n,
{
    if n > 0 {
        lemma_level_scan(ds, thr, n - 1);
        let prev = level_scan(ds, thr, n - 1);
        let st = level_scan(ds, thr, n);
        let i = n - 1;
        if ds[i] >= thr {
            assert(st.0 == prev.0);
        } else {
            match prev.1 {
                Some(sv) => {
                    assert(st.0 == prev.0.push((sv, i - 1)));
                    assert forall|k: int| 0 <= k < st.0.len() implies maximal_run(ds, thr, (#[trigger] st.0[k]).0, st.0[k].1)
                        && st.0[k].1 + 1 < n by {
                        if k < prev.0.len() {
                            assert(st.0[k] == prev.0[k]);
                        }
                    }
                    assert forall|k: int, l: int| 0 <= k < l < st.0.len() implies (#[trigger] st.0[k]).1 < (#[trigger] st.0[l]).0 by {
                        assert(st.0[k] == prev.0[k]);
                        if l < prev.0.len() {
                            assert(st.0[l] == prev.0[l]);
                        }
                    }
                    assert forall|j: int| 0 <= j < n && ds[j] >= thr implies (st.1 matches Some(s) && s <= j) || exists|k: int|
                        0 <= k < st.0.len() && (#[trigger] st.0[k]).0 <= j <= st.0[k].1 by {
                        if sv <= j {
                            assert(st.0[prev.0.len() as int] == (sv, i - 1));
                        } else {
                            let k = choose|k: int| 0 <= k < prev.0.len() && (#[trigger] prev.0[k]).0 <= j <= prev.0[k].1;
                            assert(st.0[k] == prev.0[k]);
                        }
                    }
                },
                None => {
                    assert(st.0 == prev.0);
                },
            }
        }
    }
}

/// The runs of one beam level are exactly the maximal runs of notes short
/// enough for it, in order.
proof fn lemma_level_runs(ds: Seq<i32>, thr: int)
    ensures
        forall|k: int|
            0 <= k < level_runs(ds, thr).len() ==> maximal_run(
                ds,
                thr,
                (#[trigger] level_runs(ds, thr)[k]).0,
                level_runs(ds, thr)[k].1,
            ),
        forall|i: int|
            0 <= i < ds.len() && ds[i] >= thr ==> exists|k: int|
                0 <= k < level_runs(ds, thr).len() && (#[trigger] level_runs(ds, thr)[k]).0 <= i
                    <= level_runs(ds, thr)[k].1,
{
    let n = ds.len() as int;
    lemma_level_scan(ds, thr, n);
    let st = level_scan(ds, thr, n);
    let r = level_runs(ds, thr);
    match st.1 {
        Some(sv) => {
            assert(r == st.0.push((sv, n - 1)));
            assert forall|k: int| 0 <= k < r.len() implies maximal_run(ds, thr, (#[trigger] r[k]).0, r[k].1) by {
                if k < st.0.len() {
                    assert(r[k] == st.0[k]);
                }
            }
            assert forall|i: int| 0 <= i < n && ds[i] >= thr implies exists|k: int|
                0 <= k < r.len() && (#[trigger] r[k]).0 <= i <= r[k].1 by {
                if sv <= i {
                    assert(r[st.0.len() as int] == (sv, n - 1));
                } else {
                    let k = choose|k: int| 0 <= k < st.0.len() && (#[trigger] st.0[k]).0 <= i <= st.0[k].1;
                    assert(r[k] == st.0[k]);
                }
            }
        },
        None => {},
    }
}

proof fn lemma_segments_member(ds: Seq<i32>, m: int, k: int)
    requires
        0 <= k < segments_upto(ds, m).len(),
    ensures
        1 <= segments_upto(ds, m)[k].0 <= m,
        exists|j: int|
            0 <= j < level_runs(ds, spec_min_dur_for_level(segments_upto(ds, m)[k].0)).len()
                && (#[trigger] level_runs(ds, spec_min_dur_for_level(segments_upto(ds, m)[k].0))[j]) == (
            segments_upto(ds, m)[k].1,
            segments_upto(ds, m)[k].2,
        ),
    decreases m,
{
    if m > 0 {
        let before = segments_upto(ds, m - 1);
        let lr = level_runs(ds, spec_min_dur_for_level(m));
        let mapped = lr.map_values(|r: (int, int)| (m, r.0, r.1));
        assert(segments_upto(ds, m) == before + mapped);
        if k < before.len() {
            assert(segments_upto(ds, m)[k] == before[k]);
            lemma_segments_member(ds, m - 1, k);
        } else {
            let j = k - before.len();
            assert(segments_upto(ds, m)[k] == mapped[j]);
            assert(lr[j] == (segments_upto(ds, m)[k].1, segments_upto(ds, m)[k].2));
        }
    }
}

proof fn lemma_segments_complete(ds: Seq<i32>, m: int, l: int, j: int)
    requires
        1 <= l <= m,
        0 <= j < level_runs(ds, spec_min_dur_for_level(l)).len(),
    ensures
        exists|k: int|
            0 <= k < segments_upto(ds, m).len() && (#[trigger] segments_upto(ds, m)[k]) == (
                l,
                level_runs(ds, spec_min_dur_for_level(l))[j].0,
                level_runs(ds, spec_min_dur_for_level(l))[j].1,
            ),
    decreases m,
{
    let before = segments_upto(ds, m - 1);
    let lr = level_runs(ds, spec_min_dur_for_level(m));
    let mapped = lr.map_values(|r: (int, int)| (m, r.0, r.1));
    assert(segments_upto(ds, m) == before + mapped);
    if l < m {
        lemma_segments_complete(ds, m - 1, l, j);
        let k = choose|k: int|
            0 <= k < before.len() && (#[trigger] before[k]) == (
                l,
                level_runs(ds, spec_min_dur_for_level(l))[j].0,
                level_runs(ds, spec_min_dur_for_level(l))[j].1,
            );
        assert(segments_upto(ds, m)[k] == before[k]);
    } else {
        assert(segments_upto(ds, m)[before.len() + j] == mapped[j]);
    }
}

/// The beams of a group: at every level from 1 to the most beams a note of
/// the group has, one segment per maximal run of notes short enough for that
/// level (every such note is under one), and each secondary segment lies
/// under a segment of the level below it.
pub proof fn beam_segments_nest(ds: Seq<i32>, k: int)
    requires
        ds.len() >= 2,
        0 <= k < spec_beam_segments(ds).len(),
    ensures
        ({
            let sg = spec_beam_segments(ds)[k];
            &&& 1 <= sg.0 <= max_beam_count(ds, ds.len() as int)
            &&& maximal_run(ds, spec_min_dur_for_level(sg.0), sg.1, sg.2)
            &&& sg.0 >= 2 ==> exists|k2: int|
                0 <= k2 < spec_beam_segments(ds).len() && (#[trigger] spec_beam_segments(ds)[k2]).0 == sg.0 - 1
                    && spec_beam_segments(ds)[k2].1 <= sg.1 && sg.2 <= spec_beam_segments(ds)[k2].2
        }),
{
    let m = max_beam_count(ds, ds.len() as int);
    let segs = spec_beam_segments(ds);
    assert(segs == segments_upto(ds, m));
    lemma_segments_member(ds, m, k);
    let sg = segs[k];
    let l = sg.0;
    let thr = spec_min_dur_for_level(l);
    lemma_level_runs(ds, thr);
    let j = choose|j: int| 0 <= j < level_runs(ds, thr).len() && (#[trigger] level_runs(ds, thr)[j]) == (sg.1, sg.2);
    assert(maximal_run(ds, thr, sg.1, sg.2));
    if l >= 2 {
        let thr1 = spec_min_dur_for_level(l - 1);
        assert(thr1 <= thr);
        lemma_level_runs(ds, thr1);
        assert(ds[sg.1] >= thr1);
        let j1 = choose|j1: int|
            0 <= j1 < level_runs(ds, thr1).len() && (#[trigger] level_runs(ds, thr1)[j1]).0 <= sg.1
                <= level_runs(ds, thr1)[j1].1;
        let r1 = level_runs(ds, thr1)[j1];
        assert(maximal_run(ds, thr1, r1.0, r1.1));
        if r1.1 < sg.2 {
            assert(ds[r1.1 + 1] >= thr);
        }
        lemma_segments_complete(ds, m, l - 1, j1);
    }
}

} // verus!
