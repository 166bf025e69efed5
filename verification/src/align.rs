//! Vertical beat alignment across the staves of a system: which horizontal
//! column every item of every staff falls into.
//!
//! Beat positions arrive as integer keys in micro-beats (a millionth of a
//! whole note); a column key adds a count of micro-beat steps to a beat key
//! so that clefs, key and time signatures, barlines, gaps and grace notes
//! before a beat each get a column of their own, in order.

use vstd::prelude::*;
use crate::events::{Event, EventView, events_view};

verus! {

// ─── Classification of events ──────────────────────────────────────────

/// Grace notes, chords and rests.
pub open spec fn spec_is_grace_event(e: EventView) -> bool {
    e.grace()
}

/// Notes, rests, spacers and chords that are not grace notes: the events that
/// advance the beat.
pub open spec fn spec_is_rhythmic_event(e: EventView) -> bool {
    (e is Note || e is Rest || e is Spacer || e is Chord) && !e.grace()
}

/// Barlines, clef, key and time signature changes, and gaps.
pub open spec fn spec_is_boundary_event(e: EventView) -> bool {
    e is Barline || e is Clef || e is KeySig || e is TimeSig || e is Gap
}

/// A clef or time signature change standing immediately before a barline.
pub open spec fn spec_is_pre_barline_boundary(ev: Seq<EventView>, idx: int) -> bool {
    &&& 0 <= idx
    &&& idx + 1 < ev.len()
    &&& (ev[idx] is Clef || ev[idx] is TimeSig)
    &&& ev[idx + 1].is_barline()
}

/// Whether the event is a grace note, chord or rest.
pub fn is_grace_event(ev: &Event) -> (r: bool)
    ensures
        r == spec_is_grace_event(ev@),
{
    ev.grace()
}

/// Whether the event is a note, rest, spacer or chord that takes time (not a grace event).
pub fn is_rhythmic_event(ev: &Event) -> (r: bool)
    ensures
        r == spec_is_rhythmic_event(ev@),
{
    (matches!(ev, Event::Note(_)) || matches!(ev, Event::Rest(_)) || matches!(ev, Event::Spacer(_))
        || matches!(ev, Event::Chord(_))) && !is_grace_event(ev)
}

/// Whether the event is a barline, clef, key or time signature, or gap.
pub fn is_boundary_event(ev: &Event) -> (r: bool)
    ensures
        r == spec_is_boundary_event(ev@),
{
    matches!(ev, Event::Barline(_) | Event::Clef(_) | Event::KeySig(_) | Event::TimeSig(..) | Event::Gap(_))
}

/// Whether item `idx` is a clef or time signature directly followed by a barline.
pub fn is_pre_barline_boundary(items: &[Event], idx: usize) -> (r: bool)
    ensures
        r == spec_is_pre_barline_boundary(events_view(items@), idx as int),
{
    idx < items.len() && items.len() - idx > 1 && matches!(items[idx], Event::Clef(_) | Event::TimeSig(..))
        && items[idx + 1].is_barline()
}

/// How an item takes part in beat alignment.
#[derive(Debug, Clone, Copy, PartialEq, Eq, Structural)]
pub enum ColumnClass {
    /// A clef or time signature directly before a barline: placed just before the beat.
    PreBarline,
    /// A grace note or boundary event: placed after the beat's earlier boundaries.
    Boundary,
    /// A note, rest, spacer or chord: placed after all boundaries of its beat.
    Rhythmic,
    /// Anything else (line breaks): placed like a rhythmic event.
    Other,
}

/// Column class of item `i` of a staff.
pub open spec fn spec_class(ev: Seq<EventView>, i: int) -> ColumnClass {
    if spec_is_pre_barline_boundary(ev, i) {
        ColumnClass::PreBarline
    } else if spec_is_grace_event(ev[i]) || spec_is_boundary_event(ev[i]) {
        ColumnClass::Boundary
    } else if spec_is_rhythmic_event(ev[i]) {
        ColumnClass::Rhythmic
    } else {
        ColumnClass::Other
    }
}

/// The alignment class of item `i` of a staff.
pub fn classify(items: &[Event], i: usize) -> (r: ColumnClass)
    requires
        i < items@.len(),
    ensures
        r == spec_class(events_view(items@), i as int),
{
    let ghost ev = events_view(items@);
    assert(ev[i as int] == items@[i as int]@);
    if is_pre_barline_boundary(items, i) {
        ColumnClass::PreBarline
    } else if is_grace_event(&items[i]) || is_boundary_event(&items[i]) {
        ColumnClass::Boundary
    } else if is_rhythmic_event(&items[i]) {
        ColumnClass::Rhythmic
    } else {
        ColumnClass::Other
    }
}

// ─── Boundary runs and widths ──────────────────────────────────────────

/// Number of boundary items since the last rhythmic item before item `i`.
pub open spec fn run_before(ev: Seq<EventView>, i: int) -> int
    decreases i,
{
    if i <= 0 {
        0
    } else {
        match spec_class(ev, i - 1) {
            ColumnClass::Rhythmic => 0,
            ColumnClass::Boundary => run_before(ev, i - 1) + 1,
            _ => run_before(ev, i - 1),
        }
    }
}

/// What item `i` records for beat key `k`: a boundary item its position in
/// its run (counting from 1), a rhythmic item the run before it, others nothing.
pub open spec fn contribution(ev: Seq<EventView>, keys: Seq<i64>, i: int, k: int) -> int {
    if keys[i] == k {
        match spec_class(ev, i) {
            ColumnClass::Boundary => run_before(ev, i) + 1,
            ColumnClass::Rhythmic => run_before(ev, i),
            _ => 0,
        }
    } else {
        0
    }
}

/// The larger of two integers.
pub open spec fn max_int(a: int, b: int) -> int {
    if a >= b {
        a
    } else {
        b
    }
}

/// Largest contribution to key `k` among the first `n` items of a staff.
pub open spec fn staff_width_upto(ev: Seq<EventView>, keys: Seq<i64>, n: int, k: int) -> int
    decreases n,
{
    if n <= 0 {
        0
    } else {
        max_int(staff_width_upto(ev, keys, n - 1, k), contribution(ev, keys, n - 1, k))
    }
}

/// Boundary width a staff asks of key `k`: the most boundary items it stacks
/// at that beat (its trailing run counts at its terminal key).
pub open spec fn staff_boundary_width(ev: Seq<EventView>, keys: Seq<i64>, tkey: i64, k: int) -> int {
    max_int(
        staff_width_upto(ev, keys, ev.len() as int, k),
        if tkey == k {
            run_before(ev, ev.len() as int)
        } else {
            0
        },
    )
}

/// Largest staff boundary width at key `k` among the first `m` staves.
pub open spec fn width_upto(
    evs: Seq<Seq<EventView>>,
    keys: Seq<Seq<i64>>,
    tkeys: Seq<i64>,
    m: int,
    k: int,
) -> int
    decreases m,
{
    if m <= 0 {
        0
    } else {
        max_int(
            width_upto(evs, keys, tkeys, m - 1, k),
            staff_boundary_width(evs[m - 1], keys[m - 1], tkeys[m - 1], k),
        )
    }
}

/// Boundary width of beat key `k` over all staves.
pub open spec fn boundary_width(evs: Seq<Seq<EventView>>, keys: Seq<Seq<i64>>, tkeys: Seq<i64>, k: int) -> int {
    width_upto(evs, keys, tkeys, evs.len() as int, k)
}

/// Column key of item `i` of staff `s`: one step before its beat for a
/// pre-barline boundary, its run position after the beat for a boundary item,
/// and past all of the beat's boundaries for anything else.
pub open spec fn column_key(
    evs: Seq<Seq<EventView>>,
    keys: Seq<Seq<i64>>,
    tkeys: Seq<i64>,
    s: int,
    i: int,
) -> int {
    let k = keys[s][i] as int;
    match spec_class(evs[s], i) {
        ColumnClass::PreBarline => k - 1,
        ColumnClass::Boundary => k + run_before(evs[s], i),
        _ => k + boundary_width(evs, keys, tkeys, k),
    }
}

/// Column key of the end of staff `s`.
pub open spec fn terminal_column_key(
    evs: Seq<Seq<EventView>>,
    keys: Seq<Seq<i64>>,
    tkeys: Seq<i64>,
    s: int,
) -> int {
    tkeys[s] + boundary_width(evs, keys, tkeys, tkeys[s] as int)
}

/// View of per-staff key lists.
pub open spec fn keys_view(v: Seq<Vec<i64>>) -> Seq<Seq<i64>> {
    v.map_values(|k: Vec<i64>| k@)
}

/// View of per-staff event lists.
pub open spec fn staves_view(v: Seq<Vec<Event>>) -> Seq<Seq<EventView>> {
    v.map_values(|g: Vec<Event>| events_view(g@))
}

/// Inputs the alignment accepts: one key list per staff, one key per item,
/// one terminal key per staff (every staff, being a `Vec`, has at most
/// `usize::MAX` items).
pub open spec fn well_formed_input(
    evs: Seq<Seq<EventView>>,
    keys: Seq<Seq<i64>>,
    tkeys: Seq<i64>,
) -> bool {
    &&& keys.len() == evs.len()
    &&& tkeys.len() == evs.len()
    &&& forall|s: int| 0 <= s < evs.len() ==> (#[trigger] keys[s]).len() == evs[s].len()
    &&& forall|s: int| 0 <= s < evs.len() ==> (#[trigger] evs[s]).len() <= usize::MAX
}

proof fn lemma_run_bound(ev: Seq<EventView>, i: int)
    requires
        0 <= i,
    ensures
        0 <= run_before(ev, i) <= i,
    decreases i,
{
    if i > 0 {
        lemma_run_bound(ev, i - 1);
    }
}

proof fn lemma_staff_width_bound(ev: Seq<EventView>, keys: Seq<i64>, n: int, k: int)
    requires
        0 <= n <= ev.len(),
    ensures
        0 <= staff_width_upto(ev, keys, n, k) <= ev.len(),
    decreases n,
{
    if n > 0 {
        lemma_staff_width_bound(ev, keys, n - 1, k);
        lemma_run_bound(ev, n - 1);
    }
}

proof fn lemma_width_bound(
    evs: Seq<Seq<EventView>>,
    keys: Seq<Seq<i64>>,
    tkeys: Seq<i64>,
    m: int,
    k: int,
)
    requires
        0 <= m <= evs.len(),
        well_formed_input(evs, keys, tkeys),
    ensures
        0 <= width_upto(evs, keys, tkeys, m, k) <= usize::MAX,
    decreases m,
{
    if m > 0 {
        lemma_width_bound(evs, keys, tkeys, m - 1, k);
        let ev = evs[m - 1];
        assert(ev.len() <= usize::MAX);
        lemma_staff_width_bound(ev, keys[m - 1], ev.len() as int, k);
        lemma_run_bound(ev, ev.len() as int);
    }
}

/// The run count before item `i` of a staff, computed by scanning.
fn run_step(items: &[Event], i: usize, run: usize) -> (r: usize)
    requires
        i < items@.len(),
        run == run_before(events_view(items@), i as int),
        items@.len() <= usize::MAX,
    ensures
        r == run_before(events_view(items@), i + 1),
{
    proof {
        lemma_run_bound(events_view(items@), i as int);
    }
    let n = items.len();
    assert(run <= i && i < n);
    match classify(items, i) {
        ColumnClass::Rhythmic => 0,
        ColumnClass::Boundary => run + 1,
        _ => run,
    }
}

/// Boundary width of a beat key over all staves.
fn boundary_width_at(staves: &[Vec<Event>], keys: &[Vec<i64>], tkeys: &[i64], k: i64) -> (r: u64)
    requires
        well_formed_input(staves_view(staves@), keys_view(keys@), tkeys@),
    ensures
        r == boundary_width(staves_view(staves@), keys_view(keys@), tkeys@, k as int),
{
    let ghost evs = staves_view(staves@);
    let ghost ks = keys_view(keys@);
    let mut best: u64 = 0;
    let mut s: usize = 0;
    while s < staves.len()
        invariant
            evs == staves_view(staves@),
            ks == keys_view(keys@),
            well_formed_input(evs, ks, tkeys@),
            s <= staves@.len(),
            best == width_upto(evs, ks, tkeys@, s as int, k as int),
        decreases staves@.len() - s,
    {
        let items = staves[s].as_slice();
        let kl = keys[s].as_slice();
        assert(evs[s as int] == events_view(items@));
        assert(ks[s as int] == kl@);
        assert(kl@.len() == items@.len());
        assert(items@.len() <= usize::MAX);
        let mut staff_best: u64 = 0;
        let mut run: usize = 0;
        let mut i: usize = 0;
        while i < items.len()
            invariant
                kl@.len() == items@.len(),
                items@.len() <= usize::MAX,
                i <= items@.len(),
                run == run_before(events_view(items@), i as int),
                staff_best == staff_width_upto(events_view(items@), kl@, i as int, k as int),
            decreases items@.len() - i,
        {
            proof {
                lemma_run_bound(events_view(items@), i as int);
                lemma_staff_width_bound(events_view(items@), kl@, i as int, k as int);
            }
            let c: u64 = if kl[i] == k {
                match classify(items, i) {
                    ColumnClass::Boundary => run as u64 + 1,
                    ColumnClass::Rhythmic => run as u64,
                    _ => 0,
                }
            } else {
                0
            };
            if c > staff_best {
                staff_best = c;
            }
            run = run_step(items, i, run);
            i += 1;
        }
        if tkeys[s] == k && run as u64 > staff_best {
            staff_best = run as u64;
        }
        proof {
            lemma_width_bound(evs, ks, tkeys@, s as int, k as int);
            lemma_staff_width_bound(events_view(items@), kl@, items@.len() as int, k as int);
        }
        if staff_best > best {
            best = staff_best;
        }
        s += 1;
    }
    best
}

// ─── Column assignment ─────────────────────────────────────────────────

/// Values in strictly increasing order.
pub open spec fn strictly_sorted(v: Seq<i128>) -> bool {
    forall|a: int, b: int| 0 <= a < b < v.len() ==> v[a] < v[b]
}

/// `x` is the column key of some item or of some staff end.
pub open spec fn is_column_key(
    evs: Seq<Seq<EventView>>,
    keys: Seq<Seq<i64>>,
    tkeys: Seq<i64>,
    x: int,
) -> bool {
    ||| exists|s: int, i: int|
        0 <= s < evs.len() && 0 <= i < evs[s].len() && #[trigger] column_key(evs, keys, tkeys, s, i)
            == x
    ||| exists|s: int| 0 <= s < evs.len() && #[trigger] terminal_column_key(evs, keys, tkeys, s) == x
}

/// The columns of a system: their keys in increasing order, the column index
/// of every item of every staff, and the column index of every staff's end.
pub struct BeatColumns {
    pub keys: Vec<i128>,
    pub item_cols: Vec<Vec<usize>>,
    pub terminal_cols: Vec<usize>,
}

/// The column layout described by `columns_correct`.
pub open spec fn columns_correct(
    evs: Seq<Seq<EventView>>,
    keys: Seq<Seq<i64>>,
    tkeys: Seq<i64>,
    bc: BeatColumns,
) -> bool {
    &&& strictly_sorted(bc.keys@)
    &&& bc.item_cols@.len() == evs.len()
    &&& bc.terminal_cols@.len() == evs.len()
    &&& forall|s: int| 0 <= s < evs.len() ==> (#[trigger] bc.item_cols@[s])@.len() == evs[s].len()
    &&& forall|s: int, i: int|
        0 <= s < evs.len() && 0 <= i < evs[s].len() ==> {
            let c = #[trigger] bc.item_cols@[s]@[i];
            &&& c < bc.keys@.len()
            &&& bc.keys@[c as int] == column_key(evs, keys, tkeys, s, i)
        }
    &&& forall|s: int|
        0 <= s < evs.len() ==> {
            let c = #[trigger] bc.terminal_cols@[s];
            &&& c < bc.keys@.len()
            &&& bc.keys@[c as int] == terminal_column_key(evs, keys, tkeys, s)
        }
    &&& forall|c: int| 0 <= c < bc.keys@.len() ==> is_column_key(evs, keys, tkeys, #[trigger] bc.keys@[c] as int)
}

proof fn lemma_column_key_range(
    evs: Seq<Seq<EventView>>,
    keys: Seq<Seq<i64>>,
    tkeys: Seq<i64>,
    s: int,
    i: int,
)
    requires
        well_formed_input(evs, keys, tkeys),
        0 <= s < evs.len(),
        0 <= i < evs[s].len(),
    ensures
        i128::MIN <= column_key(evs, keys, tkeys, s, i) <= i128::MAX,
{
    let k = keys[s][i] as int;
    lemma_run_bound(evs[s], i);
    lemma_width_bound(evs, keys, tkeys, evs.len() as int, k);
}

proof fn lemma_terminal_key_range(evs: Seq<Seq<EventView>>, keys: Seq<Seq<i64>>, tkeys: Seq<i64>, s: int)
    requires
        well_formed_input(evs, keys, tkeys),
        0 <= s < evs.len(),
    ensures
        i128::MIN <= terminal_column_key(evs, keys, tkeys, s) <= i128::MAX,
{
    lemma_width_bound(evs, keys, tkeys, evs.len() as int, tkeys[s] as int);
}

/// Insert a value into a strictly increasing list unless it is already there.
fn insert_sorted(v: &mut Vec<i128>, x: i128)
    requires
        strictly_sorted(old(v)@),
    ensures
        strictly_sorted(final(v)@),
        forall|y: i128|
            #![trigger final(v)@.contains(y)]
            #![trigger old(v)@.contains(y)]
            final(v)@.contains(y) <==> (old(v)@.contains(y) || y == x),
{
    let mut i: usize = 0;
    while i < v.len() && v[i] < x
        invariant
            i <= v@.len(),
            forall|j: int| 0 <= j < i ==> v@[j] < x,
        decreases v@.len() - i,
    {
        i += 1;
    }
    if i < v.len() && v[i] == x {
        assert(v@.contains(x));
        return;
    }
    let ghost old_v = v@;
    v.insert(i, x);
    assert(v@ =~= old_v.subrange(0, i as int).push(x) + old_v.subrange(i as int, old_v.len() as int));
    assert forall|a: int, b: int| 0 <= a < b < v@.len() implies v@[a] < v@[b] by {
        if b < i {
        } else if b == i {
        } else if a < i {
            assert(v@[b] == old_v[b - 1]);
            assert(old_v[b - 1] > x || i == b - 1 || old_v[i as int] > x);
            if i < b - 1 {
                assert(old_v[i as int] < old_v[b - 1]);
            }
        } else if a == i {
            assert(v@[b] == old_v[b - 1]);
            if i < b - 1 {
                assert(old_v[i as int] < old_v[b - 1]);
            }
        } else {
            assert(v@[a] == old_v[a - 1]);
            assert(v@[b] == old_v[b - 1]);
        }
    }
    assert forall|y: i128|
        #![trigger v@.contains(y)]
        #![trigger old_v.contains(y)]
        v@.contains(y) <==> (old_v.contains(y) || y == x) by {
        if v@.contains(y) {
            let j = choose|j: int| 0 <= j < v@.len() && v@[j] == y;
            if j < i {
                assert(old_v[j] == y);
            } else if j > i {
                assert(old_v[j - 1] == y);
            }
        }
        if old_v.contains(y) {
            let j = choose|j: int| 0 <= j < old_v.len() && old_v[j] == y;
            if j < i {
                assert(v@[j] == y);
            } else {
                assert(v@[j + 1] == y);
            }
        }
        if y == x {
            assert(v@[i as int] == y);
        }
    }
}

/// Position of a value in a list that holds it.
fn index_of(v: &Vec<i128>, x: i128) -> (r: usize)
    requires
        v@.contains(x),
    ensures
        r < v@.len(),
        v@[r as int] == x,
{
    let mut i: usize = 0;
    while i < v.len()
        invariant
            i <= v@.len(),
            v@.contains(x),
            forall|j: int| 0 <= j < i ==> v@[j] != x,
        decreases v@.len() - i,
    {
        if v[i] == x {
            return i;
        }
        i += 1;
    }
    proof {
        let j = choose|j: int| 0 <= j < v@.len() && v@[j] == x;
        assert(v@[j] != x);
    }
    0
}

/// Assign every item of every staff of a system to a beat column so that
/// simultaneous events share a column. `beat_keys[s][i]` is the beat (in
/// micro-beats) at which item `i` of staff `s` starts, `terminal_keys[s]` the
/// beat at which staff `s` ends. A system of fewer than two staves needs no
/// alignment: the result is then `None`.
pub fn align_staves_by_beat(staves: &[Vec<Event>], beat_keys: &[Vec<i64>], terminal_keys: &[i64]) -> (r:
    Option<BeatColumns>)
    requires
        well_formed_input(staves_view(staves@), keys_view(beat_keys@), terminal_keys@),
    ensures
        r is None <==> staves@.len() <= 1,
        r matches Some(bc) ==> columns_correct(
            staves_view(staves@),
            keys_view(beat_keys@),
            terminal_keys@,
            bc,
        ),
{
    if staves.len() <= 1 {
        return None;
    }
    let ghost evs = staves_view(staves@);
    let ghost ks = keys_view(beat_keys@);
    let ghost tks = terminal_keys@;
    let n = staves.len();
    // 1. Column keys of every item and every staff end.
    let mut item_keys: Vec<Vec<i128>> = Vec::new();
    let mut term_keys: Vec<i128> = Vec::new();
    let mut s: usize = 0;
    while s < n
        invariant
            n == staves@.len(),
            evs == staves_view(staves@),
            ks == keys_view(beat_keys@),
            tks == terminal_keys@,
            well_formed_input(evs, ks, tks),
            s <= n,
            item_keys@.len() == s,
            term_keys@.len() == s,
            forall|s2: int| 0 <= s2 < s ==> (#[trigger] item_keys@[s2])@.len() == evs[s2].len(),
            forall|s2: int, i2: int|
                0 <= s2 < s && 0 <= i2 < evs[s2].len() ==> #[trigger] item_keys@[s2]@[i2]
                    == column_key(evs, ks, tks, s2, i2),
            forall|s2: int| 0 <= s2 < s ==> #[trigger] term_keys@[s2] == terminal_column_key(evs, ks, tks, s2),
        decreases n - s,
    {
        let items = staves[s].as_slice();
        let kl = beat_keys[s].as_slice();
        assert(evs[s as int] == events_view(items@));
        assert(ks[s as int] == kl@);
        let mut row: Vec<i128> = Vec::new();
        let mut run: usize = 0;
        let mut i: usize = 0;
        while i < items.len()
            invariant
                evs == staves_view(staves@),
                ks == keys_view(beat_keys@),
                tks == terminal_keys@,
                well_formed_input(evs, ks, tks),
                s < n,
                n == staves@.len(),
                evs[s as int] == events_view(items@),
                ks[s as int] == kl@,
                kl@.len() == items@.len(),
                items@.len() <= usize::MAX,
                i <= items@.len(),
                run == run_before(events_view(items@), i as int),
                row@.len() == i,
                forall|i2: int| 0 <= i2 < i ==> #[trigger] row@[i2] == column_key(evs, ks, tks, s as int, i2),
            decreases items@.len() - i,
        {
            let k = kl[i];
            proof {
                lemma_column_key_range(evs, ks, tks, s as int, i as int);
                lemma_run_bound(events_view(items@), i as int);
                lemma_width_bound(evs, ks, tks, evs.len() as int, k as int);
                assert(ks[s as int][i as int] == k);
            }
            let ck: i128 = match classify(items, i) {
                ColumnClass::PreBarline => k as i128 - 1,
                ColumnClass::Boundary => k as i128 + run as i128,
                _ => k as i128 + boundary_width_at(staves, beat_keys, terminal_keys, k) as i128,
            };
            row.push(ck);
            run = run_step(items, i, run);
            i += 1;
        }
        let tk = terminal_keys[s];
        proof {
            lemma_terminal_key_range(evs, ks, tks, s as int);
            lemma_width_bound(evs, ks, tks, evs.len() as int, tk as int);
        }
        let tck = tk as i128 + boundary_width_at(staves, beat_keys, terminal_keys, tk) as i128;
        item_keys.push(row);
        term_keys.push(tck);
        s += 1;
    }
    // 2. The sorted distinct column keys.
    let mut cols: Vec<i128> = Vec::new();
    let mut s: usize = 0;
    while s < n
        invariant
            n == staves@.len(),
            n == evs.len(),
            item_keys@.len() == n,
            forall|s2: int| 0 <= s2 < n ==> (#[trigger] item_keys@[s2])@.len() == evs[s2].len(),
            forall|s2: int, i2: int|
                0 <= s2 < n && 0 <= i2 < evs[s2].len() ==> #[trigger] item_keys@[s2]@[i2]
                    == column_key(evs, ks, tks, s2, i2),
            s <= n,
            strictly_sorted(cols@),
            forall|y: i128|
                #![trigger cols@.contains(y)]
                cols@.contains(y) <==> exists|s2: int, i2: int|
                    0 <= s2 < s && 0 <= i2 < evs[s2].len() && #[trigger] column_key(evs, ks, tks, s2, i2)
                        == y,
        decreases n - s,
    {
        let row = &item_keys[s];
        let mut i: usize = 0;
        while i < row.len()
            invariant
                n == evs.len(),
                s < n,
                item_keys@.len() == n,
                row == item_keys@[s as int],
                row@.len() == evs[s as int].len(),
                forall|i2: int| 0 <= i2 < row@.len() ==> #[trigger] row@[i2] == column_key(evs, ks, tks, s as int, i2),
                i <= row@.len(),
                strictly_sorted(cols@),
                forall|y: i128|
                    #![trigger cols@.contains(y)]
                    cols@.contains(y) <==> (exists|s2: int, i2: int|
                        0 <= s2 < s && 0 <= i2 < evs[s2].len() && #[trigger] column_key(evs, ks, tks, s2, i2)
                            == y) || (exists|i2: int| 0 <= i2 < i && #[trigger] column_key(evs, ks, tks, s as int, i2) == y),
            decreases row@.len() - i,
        {
            insert_sorted(&mut cols, row[i]);
            proof {
                assert forall|y: i128| #![trigger cols@.contains(y)] cols@.contains(y) <==> (exists|s2: int, i2: int|
                    0 <= s2 < s && 0 <= i2 < evs[s2].len() && #[trigger] column_key(evs, ks, tks, s2, i2)
                        == y) || (exists|i2: int| 0 <= i2 < i + 1 && #[trigger] column_key(evs, ks, tks, s as int, i2) == y) by {
                    if y == row@[i as int] {
                        assert(column_key(evs, ks, tks, s as int, i as int) == y);
                    }
                    if exists|i2: int| 0 <= i2 < i + 1 && #[trigger] column_key(evs, ks, tks, s as int, i2) == y {
                        let i2 = choose|i2: int| 0 <= i2 < i + 1 && #[trigger] column_key(evs, ks, tks, s as int, i2) == y;
                        if i2 == i {
                            assert(row@[i as int] == y);
                        } else {
                            assert(exists|i3: int| 0 <= i3 < i && #[trigger] column_key(evs, ks, tks, s as int, i3) == y);
                        }
                    }
                }
            }
            i += 1;
        }
        proof {
            assert forall|y: i128| #![trigger cols@.contains(y)] cols@.contains(y) <==> exists|s2: int, i2: int|
                0 <= s2 < s + 1 && 0 <= i2 < evs[s2].len() && #[trigger] column_key(evs, ks, tks, s2, i2)
                    == y by {
                if exists|s2: int, i2: int|
                    0 <= s2 < s + 1 && 0 <= i2 < evs[s2].len() && #[trigger] column_key(evs, ks, tks, s2, i2) == y {
                    let (s2, i2) = choose|s2: int, i2: int|
                        0 <= s2 < s + 1 && 0 <= i2 < evs[s2].len() && #[trigger] column_key(evs, ks, tks, s2, i2) == y;
                    if s2 == s {
                        assert(exists|i3: int| 0 <= i3 < i && #[trigger] column_key(evs, ks, tks, s as int, i3) == y);
                    } else {
                        assert(exists|s3: int, i3: int|
                            0 <= s3 < s && 0 <= i3 < evs[s3].len() && #[trigger] column_key(evs, ks, tks, s3, i3) == y);
                    }
                }
            }
        }
        s += 1;
    }
    let mut t: usize = 0;
    while t < n
        invariant
            n == evs.len(),
            term_keys@.len() == n,
            forall|s2: int| 0 <= s2 < n ==> #[trigger] term_keys@[s2] == terminal_column_key(evs, ks, tks, s2),
            t <= n,
            strictly_sorted(cols@),
            forall|y: i128|
                #![trigger cols@.contains(y)]
                cols@.contains(y) <==> (exists|s2: int, i2: int|
                    0 <= s2 < n && 0 <= i2 < evs[s2].len() && #[trigger] column_key(evs, ks, tks, s2, i2) == y)
                    || (exists|s2: int| 0 <= s2 < t && #[trigger] terminal_column_key(evs, ks, tks, s2) == y),
        decreases n - t,
    {
        insert_sorted(&mut cols, term_keys[t]);
        proof {
            assert forall|y: i128| #![trigger cols@.contains(y)] cols@.contains(y) <==> (exists|s2: int, i2: int|
                0 <= s2 < n && 0 <= i2 < evs[s2].len() && #[trigger] column_key(evs, ks, tks, s2, i2) == y)
                || (exists|s2: int| 0 <= s2 < t + 1 && #[trigger] terminal_column_key(evs, ks, tks, s2) == y) by {
                if y == term_keys@[t as int] {
                    assert(terminal_column_key(evs, ks, tks, t as int) == y);
                }
                if exists|s2: int| 0 <= s2 < t + 1 && #[trigger] terminal_column_key(evs, ks, tks, s2) == y {
                    let s2 = choose|s2: int| 0 <= s2 < t + 1 && #[trigger] terminal_column_key(evs, ks, tks, s2) == y;
                    if s2 < t {
                        assert(exists|s3: int| 0 <= s3 < t && #[trigger] terminal_column_key(evs, ks, tks, s3) == y);
                    }
                }
            }
        }
        t += 1;
    }
    // 3. Column index of every item and every staff end.
    let mut item_cols: Vec<Vec<usize>> = Vec::new();
    let mut s: usize = 0;
    while s < n
        invariant
            n == evs.len(),
            item_keys@.len() == n,
            forall|s2: int| 0 <= s2 < n ==> (#[trigger] item_keys@[s2])@.len() == evs[s2].len(),
            forall|s2: int, i2: int|
                0 <= s2 < n && 0 <= i2 < evs[s2].len() ==> #[trigger] item_keys@[s2]@[i2]
                    == column_key(evs, ks, tks, s2, i2),
            forall|y: i128|
                #![trigger cols@.contains(y)]
                cols@.contains(y) <==> (exists|s2: int, i2: int|
                    0 <= s2 < n && 0 <= i2 < evs[s2].len() && #[trigger] column_key(evs, ks, tks, s2, i2) == y)
                    || (exists|s2: int| 0 <= s2 < n && #[trigger] terminal_column_key(evs, ks, tks, s2) == y),
            s <= n,
            item_cols@.len() == s,
            forall|s2: int| 0 <= s2 < s ==> (#[trigger] item_cols@[s2])@.len() == evs[s2].len(),
            forall|s2: int, i2: int|
                0 <= s2 < s && 0 <= i2 < evs[s2].len() ==> {
                    let c = #[trigger] item_cols@[s2]@[i2];
                    &&& c < cols@.len()
                    &&& cols@[c as int] == column_key(evs, ks, tks, s2, i2)
                },
        decreases n - s,
    {
        let row = &item_keys[s];
        let mut out: Vec<usize> = Vec::new();
        let mut i: usize = 0;
        while i < row.len()
            invariant
                n == evs.len(),
                s < n,
                row == item_keys@[s as int],
                row@.len() == evs[s as int].len(),
                forall|i2: int| 0 <= i2 < row@.len() ==> #[trigger] row@[i2] == column_key(evs, ks, tks, s as int, i2),
                forall|y: i128|
                    #![trigger cols@.contains(y)]
                    cols@.contains(y) <==> (exists|s2: int, i2: int|
                        0 <= s2 < n && 0 <= i2 < evs[s2].len() && #[trigger] column_key(evs, ks, tks, s2, i2) == y)
                        || (exists|s2: int| 0 <= s2 < n && #[trigger] terminal_column_key(evs, ks, tks, s2) == y),
                i <= row@.len(),
                out@.len() == i,
                forall|i2: int|
                    0 <= i2 < i ==> {
                        let c = #[trigger] out@[i2];
                        &&& c < cols@.len()
                        &&& cols@[c as int] == column_key(evs, ks, tks, s as int, i2)
                    },
            decreases row@.len() - i,
        {
            assert(column_key(evs, ks, tks, s as int, i as int) == row@[i as int]);
            assert(cols@.contains(row@[i as int]));
            let c = index_of(&cols, row[i]);
            out.push(c);
            i += 1;
        }
        item_cols.push(out);
        s += 1;
    }
    let mut terminal_cols: Vec<usize> = Vec::new();
    let mut t: usize = 0;
    while t < n
        invariant
            n == evs.len(),
            term_keys@.len() == n,
            forall|s2: int| 0 <= s2 < n ==> #[trigger] term_keys@[s2] == terminal_column_key(evs, ks, tks, s2),
            forall|y: i128|
                #![trigger cols@.contains(y)]
                cols@.contains(y) <==> (exists|s2: int, i2: int|
                    0 <= s2 < n && 0 <= i2 < evs[s2].len() && #[trigger] column_key(evs, ks, tks, s2, i2) == y)
                    || (exists|s2: int| 0 <= s2 < n && #[trigger] terminal_column_key(evs, ks, tks, s2) == y),
            t <= n,
            terminal_cols@.len() == t,
            forall|s2: int|
                0 <= s2 < t ==> {
                    let c = #[trigger] terminal_cols@[s2];
                    &&& c < cols@.len()
                    &&& cols@[c as int] == terminal_column_key(evs, ks, tks, s2)
                },
        decreases n - t,
    {
        assert(terminal_column_key(evs, ks, tks, t as int) == term_keys@[t as int]);
        assert(cols@.contains(term_keys@[t as int]));
        let c = index_of(&cols, term_keys[t]);
        terminal_cols.push(c);
        t += 1;
    }
    let bc = BeatColumns { keys: cols, item_cols, terminal_cols };
    proof {
        assert forall|c: int| 0 <= c < bc.keys@.len() implies is_column_key(evs, ks, tks, #[trigger] bc.keys@[c] as int) by {
            assert(bc.keys@.contains(bc.keys@[c]));
        }
    }
    Some(bc)
}

// ─── Laws ──────────────────────────────────────────────────────────────

proof fn lemma_sorted_index_unique(v: Seq<i128>, a: int, b: int)
    requires
        strictly_sorted(v),
        0 <= a < v.len(),
        0 <= b < v.len(),
    ensures
        (v[a] == v[b]) == (a == b),
        (v[a] < v[b]) == (a < b),
{
}

proof fn lemma_staff_width_covers(ev: Seq<EventView>, keys: Seq<i64>, n: int, i: int, k: int)
    requires
        0 <= i < n,
    ensures
        staff_width_upto(ev, keys, n, k) >= contribution(ev, keys, i, k),
    decreases n,
{
    if i < n - 1 {
        lemma_staff_width_covers(ev, keys, n - 1, i, k);
    }
}

proof fn lemma_width_covers(
    evs: Seq<Seq<EventView>>,
    keys: Seq<Seq<i64>>,
    tkeys: Seq<i64>,
    m: int,
    s: int,
    k: int,
)
    requires
        0 <= s < m,
    ensures
        width_upto(evs, keys, tkeys, m, k) >= staff_boundary_width(evs[s], keys[s], tkeys[s], k),
    decreases m,
{
    if s < m - 1 {
        lemma_width_covers(evs, keys, tkeys, m - 1, s, k);
    }
}

/// Vertical alignment: notes, rests, spacers and chords of any two staves that
/// start on the same beat are placed in the same column.
pub proof fn simultaneous_events_share_a_column(
    evs: Seq<Seq<EventView>>,
    keys: Seq<Seq<i64>>,
    tkeys: Seq<i64>,
    bc: BeatColumns,
    s1: int,
    i1: int,
    s2: int,
    i2: int,
)
    requires
        columns_correct(evs, keys, tkeys, bc),
        0 <= s1 < evs.len(),
        0 <= i1 < evs[s1].len(),
        0 <= s2 < evs.len(),
        0 <= i2 < evs[s2].len(),
        spec_class(evs[s1], i1) == ColumnClass::Rhythmic,
        spec_class(evs[s2], i2) == ColumnClass::Rhythmic,
        keys[s1][i1] == keys[s2][i2],
    ensures
        bc.item_cols@[s1]@[i1] == bc.item_cols@[s2]@[i2],
{
    let c1 = bc.item_cols@[s1]@[i1];
    let c2 = bc.item_cols@[s2]@[i2];
    lemma_sorted_index_unique(bc.keys@, c1 as int, c2 as int);
}

/// Staves that end on the same beat end in the same column.
pub proof fn simultaneous_ends_share_a_column(
    evs: Seq<Seq<EventView>>,
    keys: Seq<Seq<i64>>,
    tkeys: Seq<i64>,
    bc: BeatColumns,
    s1: int,
    s2: int,
)
    requires
        columns_correct(evs, keys, tkeys, bc),
        0 <= s1 < evs.len(),
        0 <= s2 < evs.len(),
        tkeys[s1] == tkeys[s2],
    ensures
        bc.terminal_cols@[s1] == bc.terminal_cols@[s2],
{
    let c1 = bc.terminal_cols@[s1];
    let c2 = bc.terminal_cols@[s2];
    lemma_sorted_index_unique(bc.keys@, c1 as int, c2 as int);
}

/// Columns are ordered as their keys: one item lies left of another exactly
/// when its column key is smaller.
pub proof fn columns_follow_keys(
    evs: Seq<Seq<EventView>>,
    keys: Seq<Seq<i64>>,
    tkeys: Seq<i64>,
    bc: BeatColumns,
    s1: int,
    i1: int,
    s2: int,
    i2: int,
)
    requires
        columns_correct(evs, keys, tkeys, bc),
        0 <= s1 < evs.len(),
        0 <= i1 < evs[s1].len(),
        0 <= s2 < evs.len(),
        0 <= i2 < evs[s2].len(),
    ensures
        (bc.item_cols@[s1]@[i1] < bc.item_cols@[s2]@[i2]) == (column_key(evs, keys, tkeys, s1, i1)
            < column_key(evs, keys, tkeys, s2, i2)),
{
    let c1 = bc.item_cols@[s1]@[i1];
    let c2 = bc.item_cols@[s2]@[i2];
    lemma_sorted_index_unique(bc.keys@, c1 as int, c2 as int);
}

/// A clef, key or time signature, barline, gap or grace note standing at a beat
/// on any staff lies left of every note, rest, spacer or chord that starts on
/// that beat on any staff.
pub proof fn boundaries_precede_the_beat(
    evs: Seq<Seq<EventView>>,
    keys: Seq<Seq<i64>>,
    tkeys: Seq<i64>,
    bc: BeatColumns,
    s1: int,
    i1: int,
    s2: int,
    i2: int,
)
    requires
        columns_correct(evs, keys, tkeys, bc),
        0 <= s1 < evs.len(),
        0 <= i1 < evs[s1].len(),
        0 <= s2 < evs.len(),
        0 <= i2 < evs[s2].len(),
        spec_class(evs[s1], i1) == ColumnClass::Boundary,
        spec_class(evs[s2], i2) == ColumnClass::Rhythmic,
        keys[s1][i1] == keys[s2][i2],
    ensures
        bc.item_cols@[s1]@[i1] < bc.item_cols@[s2]@[i2],
{
    let k = keys[s1][i1] as int;
    lemma_staff_width_covers(evs[s1], keys[s1], evs[s1].len() as int, i1, k);
    lemma_width_covers(evs, keys, tkeys, evs.len() as int, s1, k);
    columns_follow_keys(evs, keys, tkeys, bc, s1, i1, s2, i2);
}

} // verus!
