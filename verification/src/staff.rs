//! Vertical layout of one staff of a system: staff positions of notes and
//! chords, stem directions and stem ends, with the clef in force at each event.
//!
//! Vertical quantities are exact integers: a staff position counts half
//! spaces downward from the top line (y = -position / 2 staff spaces), and a
//! stem end counts half spaces upward (stem end y = value / 2 staff spaces).

use vstd::prelude::*;
use vstd::utf8::{encode_utf8, is_ascii_chars, is_ascii_chars_encode_utf8};
use crate::events::{
    Event, EventView, events_view, TimeInfo, opt_time_view, opt_str_view, opt_strs_view,
    copy_opt_strings, chord_notes_view,
};
use crate::pitch::{
    spec_staff_position, spec_pitch_to_diatonic, staff_position, spec_stem_down,
    auto_stem_direction, spec_is_supported_clef, lemma_supported_clef_prefix,
};
use crate::text::owned;

verus! {

// ─── The staff-position cache ──────────────────────────────────────────

/// One staff-position computation: note letter, octave and clef in force.
pub struct Lookup {
    pub name: Seq<char>,
    pub octave: i32,
    pub clef: Seq<char>,
}

/// A byte of an encoding, or 0 past its end.
pub open spec fn byte_or_zero(b: Seq<u8>, i: int) -> int {
    if i < b.len() {
        b[i] as int
    } else {
        0
    }
}

/// Identifier of a clef name: its first four UTF-8 bytes packed little-endian.
pub open spec fn clef_id(c: Seq<char>) -> u32 {
    let b = encode_utf8(c);
    (byte_or_zero(b, 0) + 256 * byte_or_zero(b, 1) + 65536 * byte_or_zero(b, 2) + 16777216
        * byte_or_zero(b, 3)) as u32
}

/// Key under which a staff position is remembered: the first UTF-8 byte of
/// the note name, the octave and the clef identifier.
pub open spec fn lookup_key(l: Lookup) -> (u8, i32, u32) {
    (encode_utf8(l.name)[0], l.octave, clef_id(l.clef))
}

/// Index of the first lookup with a given key.
pub open spec fn first_with_key(ls: Seq<Lookup>, key: (u8, i32, u32)) -> int {
    choose|i: int|
        0 <= i < ls.len() && lookup_key(ls[i]) == key && forall|j: int|
            0 <= j < i ==> lookup_key(#[trigger] ls[j]) != key
}

/// The lookup's staff position is computed once per key: every lookup gets
/// the staff position of the first lookup that had its key.
pub open spec fn lookup_position(ls: Seq<Lookup>, j: int) -> int {
    let f = ls[first_with_key(ls, lookup_key(ls[j]))];
    spec_staff_position(f.name, f.octave as int, f.clef)
}

/// Clef in force at event `i`: the last inline clef change before it, or the
/// staff's clef.
pub open spec fn clef_before(ev: Seq<EventView>, init: Seq<char>, i: int) -> Seq<char>
    decreases i,
{
    if i <= 0 {
        init
    } else {
        match ev[i - 1] {
            EventView::Clef(c) => c,
            _ => clef_before(ev, init, i - 1),
        }
    }
}

/// Staff-position computations an event asks for, in order.
pub open spec fn event_lookups(e: EventView, clef: Seq<char>) -> Seq<Lookup> {
    match e {
        EventView::Note(n) => seq![Lookup { name: n.name, octave: n.octave, clef }],
        EventView::Chord(c) => c.notes.map_values(
            |cn: crate::events::ChordNoteView| Lookup { name: cn.name, octave: cn.octave, clef },
        ),
        _ => Seq::empty(),
    }
}

/// All staff-position computations of the first `n` events.
pub open spec fn lookups_upto(ev: Seq<EventView>, init: Seq<char>, n: int) -> Seq<Lookup>
    decreases n,
{
    if n <= 0 {
        Seq::empty()
    } else {
        lookups_upto(ev, init, n - 1) + event_lookups(ev[n - 1], clef_before(ev, init, n - 1))
    }
}

/// The clef a staff is laid out in when none is given.
pub open spec fn layout_clef(clef: Option<Seq<char>>) -> Seq<char> {
    match clef {
        Some(c) => c,
        None => "treble"@,
    }
}

// ─── Stems and chords ──────────────────────────────────────────────────

/// Stem end, in half spaces upward, for a stem of at least 3.5 spaces drawn
/// from the notehead at `tip` (a staff position), lengthened to reach the
/// middle line for notes far above (down stems) or below (up stems) the staff.
pub open spec fn spec_stem_end(tip: int, down: bool) -> int {
    let len = if tip < -2 && down {
        if -tip > 7 {
            -tip
        } else {
            7
        }
    } else if tip > 10 && !down {
        if tip - 8 > 7 {
            tip - 8
        } else {
            7
        }
    } else {
        7
    };
    if down {
        -tip - len
    } else {
        -tip + len
    }
}

/// Sum of a sequence of integers.
pub open spec fn seq_sum(s: Seq<int>) -> int
    decreases s.len(),
{
    if s.len() == 0 {
        0
    } else {
        seq_sum(s.drop_last()) + s.last()
    }
}

/// The sum of two sequences joined is the sum of their sums.
pub proof fn seq_sum_concat(a: Seq<int>, b: Seq<int>)
    ensures
        seq_sum(a + b) == seq_sum(a) + seq_sum(b),
    decreases b.len(),
{
    if b.len() > 0 {
        seq_sum_concat(a, b.drop_last());
        assert((a + b).drop_last() =~= a + b.drop_last());
    } else {
        assert(a + b =~= a);
    }
}

/// Exchanging two elements leaves the sum unchanged.
pub proof fn seq_sum_swap(s: Seq<int>, i: int, j: int)
    requires
        0 <= i < j < s.len(),
    ensures
        seq_sum(s.update(i, s[j]).update(j, s[i])) == seq_sum(s),
{
    let t = s.update(i, s[j]).update(j, s[i]);
    let a = s.take(i);
    let m = s.subrange(i + 1, j);
    let c = s.skip(j + 1);
    assert(s =~= a + seq![s[i]] + m + seq![s[j]] + c);
    assert(t =~= a + seq![s[j]] + m + seq![s[i]] + c);
    seq_sum_concat(a, seq![s[i]]);
    seq_sum_concat(a + seq![s[i]], m);
    seq_sum_concat(a + seq![s[i]] + m, seq![s[j]]);
    seq_sum_concat(a + seq![s[i]] + m + seq![s[j]], c);
    seq_sum_concat(a, seq![s[j]]);
    seq_sum_concat(a + seq![s[j]], m);
    seq_sum_concat(a + seq![s[j]] + m, seq![s[i]]);
    seq_sum_concat(a + seq![s[j]] + m + seq![s[i]], c);
    assert(seq_sum(seq![s[i]]) == s[i]) by {
        assert(seq![s[i]].drop_last() =~= Seq::<int>::empty());
        assert(seq_sum(Seq::<int>::empty()) == 0);
    }
    assert(seq_sum(seq![s[j]]) == s[j]) by {
        assert(seq![s[j]].drop_last() =~= Seq::<int>::empty());
        assert(seq_sum(Seq::<int>::empty()) == 0);
    }
}

/// Smallest element of a nonempty sequence.
pub open spec fn seq_min(s: Seq<int>) -> int
    decreases s.len(),
{
    if s.len() <= 1 {
        s[0]
    } else if s.last() < seq_min(s.drop_last()) {
        s.last()
    } else {
        seq_min(s.drop_last())
    }
}

/// Largest element of a nonempty sequence.
pub open spec fn seq_max(s: Seq<int>) -> int
    decreases s.len(),
{
    if s.len() <= 1 {
        s[0]
    } else if s.last() > seq_max(s.drop_last()) {
        s.last()
    } else {
        seq_max(s.drop_last())
    }
}

/// Integer division rounding toward zero.
pub open spec fn trunc_div(a: int, b: int) -> int {
    if a >= 0 {
        a / b
    } else {
        -((-a) / b)
    }
}

/// Whether a chord's stem points down: its average staff position, rounded
/// toward zero, lies on or above the middle line.
pub open spec fn chord_stem_down(ps: Seq<int>) -> bool {
    spec_stem_down(trunc_div(seq_sum(ps), ps.len() as int))
}

// ─── Laid-out items ────────────────────────────────────────────────────

/// An event with its vertical placement.
pub struct LaidOutItem {
    pub event: Event,
    /// Staff position of the notehead (the one nearest the stem's start for a
    /// chord); 2 for a whole rest, 4 for other rests, 0 for other events.
    pub staff_pos: i32,
    /// "up" or "down" for notes and chords.
    pub stem_dir: Option<String>,
    /// Stem end in half spaces upward, for notes and chords.
    pub stem_end: Option<i64>,
    /// Staff positions of a chord's notes, in order.
    pub chord_staff_positions: Vec<i32>,
}

/// A staff of a system laid out vertically.
pub struct LaidOutStaff {
    pub items: Vec<LaidOutItem>,
    pub clef: Option<String>,
    pub time: Option<TimeInfo>,
    pub show_time_prefix: bool,
    pub lyric_prefix_states: Vec<Option<String>>,
}

/// View of a laid-out item.
pub struct LaidOutItemView {
    pub event: EventView,
    pub staff_pos: int,
    pub stem_dir: Option<Seq<char>>,
    pub stem_end: Option<int>,
    pub chord_staff_positions: Seq<int>,
}

impl View for LaidOutItem {
    type V = LaidOutItemView;

    open spec fn view(&self) -> LaidOutItemView {
        LaidOutItemView {
            event: self.event@,
            staff_pos: self.staff_pos as int,
            stem_dir: opt_str_view(self.stem_dir),
            stem_end: match self.stem_end {
                Some(e) => Some(e as int),
                None => None,
            },
            chord_staff_positions: self.chord_staff_positions@.map_values(|p: i32| p as int),
        }
    }
}

/// The stem direction's name.
pub open spec fn dir_name(down: bool) -> Seq<char> {
    if down {
        "down"@
    } else {
        "up"@
    }
}

/// Vertical layout of event `i` given the staff-position lookups `ls` of the
/// whole staff and the index `o` of its first lookup.
pub open spec fn spec_item(e: EventView, ls: Seq<Lookup>, o: int) -> LaidOutItemView {
    match e {
        EventView::Note(n) => {
            let sp = lookup_position(ls, o);
            let down = spec_stem_down(sp);
            LaidOutItemView {
                event: e,
                staff_pos: sp,
                stem_dir: Some(dir_name(down)),
                stem_end: Some(spec_stem_end(sp, down)),
                chord_staff_positions: Seq::empty(),
            }
        },
        EventView::Chord(c) => {
            let ps = Seq::new(c.notes.len(), |k: int| lookup_position(ls, o + k));
            let down = chord_stem_down(ps);
            LaidOutItemView {
                event: e,
                staff_pos: if down {
                    seq_min(ps)
                } else {
                    seq_max(ps)
                },
                stem_dir: Some(dir_name(down)),
                stem_end: Some(
                    spec_stem_end(
                        if down {
                            seq_max(ps)
                        } else {
                            seq_min(ps)
                        },
                        down,
                    ),
                ),
                chord_staff_positions: ps,
            }
        },
        EventView::Rest(r) => LaidOutItemView {
            event: e,
            staff_pos: if r.duration == 1 {
                2
            } else {
                4
            },
            stem_dir: None,
            stem_end: None,
            chord_staff_positions: Seq::empty(),
        },
        _ => LaidOutItemView {
            event: e,
            staff_pos: 0,
            stem_dir: None,
            stem_end: None,
            chord_staff_positions: Seq::empty(),
        },
    }
}

/// A staff position fits the machine integers the computation uses.
pub open spec fn lookup_fits(l: Lookup) -> bool {
    &&& i32::MIN <= l.octave * 7 <= i32::MAX
    &&& i32::MIN <= spec_pitch_to_diatonic(l.name, l.octave as int) <= i32::MAX
    &&& i32::MIN <= spec_staff_position(l.name, l.octave as int, l.clef) <= i32::MAX
}

/// Every prefix sum of a sequence fits in an `i32`.
pub open spec fn prefix_sums_fit(s: Seq<int>) -> bool {
    forall|n: int| 0 <= n <= s.len() ==> i32::MIN <= #[trigger] seq_sum(s.take(n)) <= i32::MAX
}

/// Inputs on which laying out a staff succeeds: note names are nonempty,
/// every staff position that is computed fits in an `i32`, and every chord has
/// at least one note, and the running sum of its notes' positions fits in an
/// `i32` at every step.
pub open spec fn layout_ok(ev: Seq<EventView>, init: Seq<char>) -> bool {
    let ls = lookups_upto(ev, init, ev.len() as int);
    &&& forall|j: int| 0 <= j < ls.len() ==> (#[trigger] ls[j]).name.len() > 0
    &&& forall|j: int|
        0 <= j < ls.len() && first_with_key(ls, lookup_key(ls[j])) == j ==> lookup_fits(
            #[trigger] ls[j],
        )
    &&& forall|i: int|
        0 <= i < ev.len() ==> match #[trigger] ev[i] {
            EventView::Chord(c) => {
                let o = lookups_upto(ev, init, i).len() as int;
                &&& 0 < c.notes.len()
                &&& prefix_sums_fit(Seq::new(c.notes.len(), |k: int| lookup_position(ls, o + k)))
            },
            _ => true,
        }
}

// ─── Lemmas on lookups ─────────────────────────────────────────────────

proof fn lemma_lookups_prefix(ev: Seq<EventView>, init: Seq<char>, i: int, n: int)
    requires
        0 <= i <= n,
    ensures
        lookups_upto(ev, init, i).len() <= lookups_upto(ev, init, n).len(),
        lookups_upto(ev, init, n).take(lookups_upto(ev, init, i).len() as int) == lookups_upto(
            ev,
            init,
            i,
        ),
    decreases n,
{
    if i < n {
        lemma_lookups_prefix(ev, init, i, n - 1);
        let a = lookups_upto(ev, init, n - 1);
        let b = event_lookups(ev[n - 1], clef_before(ev, init, n - 1));
        let m = lookups_upto(ev, init, i).len() as int;
        assert((a + b).take(m) =~= a.take(m));
    } else {
        assert(lookups_upto(ev, init, n).take(lookups_upto(ev, init, n).len() as int) =~= lookups_upto(
            ev,
            init,
            n,
        ));
    }
}

/// Lookup `o_i + k` of the staff is the `k`-th lookup of event `i`.
proof fn lemma_lookup_at(ev: Seq<EventView>, init: Seq<char>, i: int, k: int)
    requires
        0 <= i < ev.len(),
        0 <= k < event_lookups(ev[i], clef_before(ev, init, i)).len(),
    ensures
        lookups_upto(ev, init, i).len() + k < lookups_upto(ev, init, ev.len() as int).len(),
        lookups_upto(ev, init, ev.len() as int)[lookups_upto(ev, init, i).len() + k]
            == event_lookups(ev[i], clef_before(ev, init, i))[k],
{
    lemma_lookups_prefix(ev, init, i + 1, ev.len() as int);
    let ls = lookups_upto(ev, init, ev.len() as int);
    let pre = lookups_upto(ev, init, i + 1);
    let o = lookups_upto(ev, init, i).len() as int;
    assert(pre[o + k] == event_lookups(ev[i], clef_before(ev, init, i))[k]);
    assert(ls.take(pre.len() as int)[o + k] == pre[o + k]);
}

proof fn lemma_lookups_len(ev: Seq<EventView>, init: Seq<char>, i: int)
    requires
        0 <= i < ev.len(),
    ensures
        lookups_upto(ev, init, i + 1).len() == lookups_upto(ev, init, i).len() + event_lookups(
            ev[i],
            clef_before(ev, init, i),
        ).len(),
        lookups_upto(ev, init, i + 1).len() <= lookups_upto(ev, init, ev.len() as int).len(),
{
    lemma_lookups_prefix(ev, init, i + 1, ev.len() as int);
}

proof fn lemma_first_unique(ls: Seq<Lookup>, key: (u8, i32, u32), f: int)
    requires
        0 <= f < ls.len(),
        lookup_key(ls[f]) == key,
        forall|j: int| 0 <= j < f ==> lookup_key(#[trigger] ls[j]) != key,
    ensures
        first_with_key(ls, key) == f,
{
    let g = first_with_key(ls, key);
    assert(0 <= g < ls.len() && lookup_key(ls[g]) == key && forall|j: int|
        0 <= j < g ==> lookup_key(#[trigger] ls[j]) != key);
    if g < f {
        assert(lookup_key(ls[g]) != key);
    } else if g > f {
        assert(lookup_key(ls[f]) != key);
    }
}

// ─── Positions without the cache ───────────────────────────────────────

/// Every staff-position computation names a single ASCII letter and a
/// supported clef.
pub open spec fn plain_lookups(ls: Seq<Lookup>) -> bool {
    forall|i: int|
        0 <= i < ls.len() ==> {
            &&& (#[trigger] ls[i]).name.len() == 1
            &&& is_ascii_chars(ls[i].name)
            &&& spec_is_supported_clef(ls[i].clef)
        }
}

proof fn lemma_first_exists(ls: Seq<Lookup>, key: (u8, i32, u32), j: int)
    requires
        0 <= j < ls.len(),
        lookup_key(ls[j]) == key,
    ensures
        exists|f: int|
            0 <= f < ls.len() && lookup_key(ls[f]) == key && forall|i: int|
                0 <= i < f ==> lookup_key(#[trigger] ls[i]) != key,
    decreases j,
{
    if exists|i: int| 0 <= i < j && lookup_key(#[trigger] ls[i]) == key {
        let i = choose|i: int| 0 <= i < j && lookup_key(#[trigger] ls[i]) == key;
        lemma_first_exists(ls, key, i);
    } else {
        assert(forall|i: int| 0 <= i < j ==> lookup_key(#[trigger] ls[i]) != key);
    }
}

/// Four bytes packed little-endian into a `u32` determine their first two.
proof fn lemma_packed_bytes(a0: int, a1: int, a2: int, a3: int, d0: int, d1: int, d2: int, d3: int)
    requires
        0 <= a0 < 256 && 0 <= a1 < 256 && 0 <= a2 < 256 && 0 <= a3 < 256,
        0 <= d0 < 256 && 0 <= d1 < 256 && 0 <= d2 < 256 && 0 <= d3 < 256,
        (a0 + 256 * a1 + 65536 * a2 + 16777216 * a3) as u32 == (d0 + 256 * d1 + 65536 * d2
            + 16777216 * d3) as u32,
    ensures
        a0 == d0,
        a1 == d1,
{
    let sa = a0 + 256 * a1 + 65536 * a2 + 16777216 * a3;
    let sd = d0 + 256 * d1 + 65536 * d2 + 16777216 * d3;
    assert(0 <= sa <= u32::MAX && 0 <= sd <= u32::MAX);
    assert(sa == sd);
    let k = (d1 - a1) + 256 * (d2 - a2) + 65536 * (d3 - a3);
    assert(a0 - d0 == 256 * k);
    if k >= 1 {
        assert(256 * k >= 256);
    } else if k <= -1 {
        assert(256 * k <= -256);
    }
    assert(a0 == d0);
    let m = (d2 - a2) + 256 * (d3 - a3);
    assert(a1 - d1 == 256 * m);
    if m >= 1 {
        assert(256 * m >= 256);
    } else if m <= -1 {
        assert(256 * m <= -256);
    }
}

/// Two ASCII names of at least two letters with the same clef identifier
/// agree in their first two letters.
proof fn lemma_clef_id_prefix(c: Seq<char>, d: Seq<char>)
    requires
        c.len() >= 2,
        d.len() >= 2,
        is_ascii_chars(c),
        is_ascii_chars(d),
        clef_id(c) == clef_id(d),
    ensures
        c[0] == d[0],
        c[1] == d[1],
{
    is_ascii_chars_encode_utf8(c);
    is_ascii_chars_encode_utf8(d);
    let b = encode_utf8(c);
    let e = encode_utf8(d);
    lemma_packed_bytes(
        byte_or_zero(b, 0),
        byte_or_zero(b, 1),
        byte_or_zero(b, 2),
        byte_or_zero(b, 3),
        byte_or_zero(e, 0),
        byte_or_zero(e, 1),
        byte_or_zero(e, 2),
        byte_or_zero(e, 3),
    );
    assert(c[0] as u8 == d[0] as u8 && c[1] as u8 == d[1] as u8);
}

/// With single-letter names and supported clefs, remembering positions by key
/// changes nothing: each lookup gets the staff position of its own letter,
/// octave and clef.
pub proof fn lemma_lookup_position_direct(ls: Seq<Lookup>, j: int)
    requires
        0 <= j < ls.len(),
        plain_lookups(ls),
    ensures
        lookup_position(ls, j) == spec_staff_position(ls[j].name, ls[j].octave as int, ls[j].clef),
{
    let key = lookup_key(ls[j]);
    lemma_first_exists(ls, key, j);
    let f = first_with_key(ls, key);
    let a = ls[f];
    let b = ls[j];
    is_ascii_chars_encode_utf8(a.name);
    is_ascii_chars_encode_utf8(b.name);
    assert(a.name[0] as u8 == b.name[0] as u8);
    assert(a.name =~= b.name);
    lemma_supported_clef_prefix(a.clef);
    lemma_supported_clef_prefix(b.clef);
    lemma_clef_id_prefix(a.clef, b.clef);
}

/// With single-letter note names and supported clefs, a note is laid out at
/// the staff position of its own pitch in the clef in force where it stands,
/// and so is each note of a chord.
pub proof fn layout_positions_follow_clef(ev: Seq<EventView>, init: Seq<char>, i: int)
    requires
        0 <= i < ev.len(),
        plain_lookups(lookups_upto(ev, init, ev.len() as int)),
    ensures
        ({
            let item = spec_item(
                ev[i],
                lookups_upto(ev, init, ev.len() as int),
                lookups_upto(ev, init, i).len() as int,
            );
            let clef = clef_before(ev, init, i);
            match ev[i] {
                EventView::Note(n) => item.staff_pos == spec_staff_position(
                    n.name,
                    n.octave as int,
                    clef,
                ),
                EventView::Chord(c) => forall|k: int|
                    0 <= k < c.notes.len() ==> item.chord_staff_positions[k] == spec_staff_position(
                        #[trigger] c.notes[k].name,
                        c.notes[k].octave as int,
                        clef,
                    ),
                _ => true,
            }
        }),
{
    let ls = lookups_upto(ev, init, ev.len() as int);
    let o = lookups_upto(ev, init, i).len() as int;
    match ev[i] {
        EventView::Note(n) => {
            lemma_lookup_at(ev, init, i, 0);
            lemma_lookup_position_direct(ls, o);
        },
        EventView::Chord(c) => {
            assert forall|k: int| 0 <= k < c.notes.len() implies spec_item(ev[i], ls, o).chord_staff_positions[k]
                == spec_staff_position(
                #[trigger] c.notes[k].name,
                c.notes[k].octave as int,
                clef_before(ev, init, i),
            ) by {
                lemma_lookup_at(ev, init, i, k);
                lemma_lookup_position_direct(ls, o + k);
            }
        },
        _ => {},
    }
}

// ─── Chord stems ───────────────────────────────────────────────────────

proof fn lemma_trunc_mean_threshold(a: int, n: int)
    requires
        n > 0,
    ensures
        (trunc_div(a, n) <= 4) == (a < 5 * n),
{
    if a >= 0 {
        let q = a / n;
        let r = a % n;
        vstd::arithmetic::div_mod::lemma_fundamental_div_mod(a, n);
        assert((q <= 4) == (a < 5 * n)) by (nonlinear_arith)
            requires
                n > 0,
                a == n * q + r,
                0 <= r < n,
        ;
    } else {
        vstd::arithmetic::div_mod::lemma_div_pos_is_pos(-a, n);
    }
}

proof fn lemma_seq_min_max(s: Seq<int>)
    requires
        s.len() > 0,
    ensures
        exists|k: int| 0 <= k < s.len() && s[k] == seq_min(s),
        exists|k: int| 0 <= k < s.len() && s[k] == seq_max(s),
        forall|k: int| 0 <= k < s.len() ==> seq_min(s) <= #[trigger] s[k] <= seq_max(s),
    decreases s.len(),
{
    if s.len() > 1 {
        let t = s.drop_last();
        lemma_seq_min_max(t);
        assert forall|k: int| 0 <= k < s.len() implies seq_min(s) <= #[trigger] s[k] <= seq_max(s) by {
            if k < t.len() {
                assert(s[k] == t[k]);
            }
        }
        let a = choose|k: int| 0 <= k < t.len() && t[k] == seq_min(t);
        let b = choose|k: int| 0 <= k < t.len() && t[k] == seq_max(t);
        assert(s[a] == t[a] && s[b] == t[b]);
        assert(s[s.len() - 1] == s.last());
    } else {
        assert(s[0] == seq_min(s) && s[0] == seq_max(s));
    }
}

/// A chord's stem points down exactly when the sum of the staff positions of
/// all its notes is below five times their number (their average, rounded
/// toward zero, lies on or above the middle line), whatever their order. The
/// chord is placed at one of its own noteheads: the highest (smallest position)
/// for a down stem, the lowest for an up stem, and its stem starts from the
/// notehead at the other end.
pub proof fn chord_stem_follows_mean(e: EventView, ls: Seq<Lookup>, o: int)
    requires
        e is Chord,
        e->Chord_0.notes.len() > 0,
    ensures
        ({
            let item = spec_item(e, ls, o);
            let ps = item.chord_staff_positions;
            let n = e->Chord_0.notes.len();
            let down = seq_sum(ps) < 5 * n;
            &&& ps.len() == n
            &&& item.stem_dir == Some(if down { "down"@ } else { "up"@ })
            &&& exists|k: int| 0 <= k < n && ps[k] == item.staff_pos
            &&& down ==> forall|k: int| 0 <= k < n ==> item.staff_pos <= #[trigger] ps[k]
            &&& !down ==> forall|k: int| 0 <= k < n ==> item.staff_pos >= #[trigger] ps[k]
            &&& exists|k: int| 0 <= k < n && item.stem_end == Some(spec_stem_end(ps[k], down))
                && (down ==> forall|j: int| 0 <= j < n ==> #[trigger] ps[j] <= ps[k])
                && (!down ==> forall|j: int| 0 <= j < n ==> #[trigger] ps[j] >= ps[k])
        }),
{
    let c = e->Chord_0;
    let n = c.notes.len() as int;
    let ps = Seq::new(c.notes.len(), |k: int| lookup_position(ls, o + k));
    lemma_trunc_mean_threshold(seq_sum(ps), n);
    lemma_seq_min_max(ps);
    let item = spec_item(e, ls, o);
    assert(item.chord_staff_positions == ps);
    let kmin = choose|k: int| 0 <= k < ps.len() && ps[k] == seq_min(ps);
    let kmax = choose|k: int| 0 <= k < ps.len() && ps[k] == seq_max(ps);
    if seq_sum(ps) < 5 * n {
        assert(ps[kmax] == seq_max(ps));
    } else {
        assert(ps[kmin] == seq_min(ps));
    }
}

// ─── Executable pieces ─────────────────────────────────────────────────

/// First UTF-8 byte of a nonempty note name.
fn name_first_byte(name: &String) -> (r: u8)
    requires
        name@.len() > 0,
    ensures
        r == encode_utf8(name@)[0],
{
    let s = name.as_str();
    let b = s.as_bytes();
    assert(encode_utf8(name@).len() > 0);
    b[0]
}

/// Identifier of a clef name.
fn clef_id_of(c: &str) -> (r: u32)
    ensures
        r == clef_id(c@),
{
    let b = c.as_bytes();
    let ghost bs = encode_utf8(c@);
    assert(b@ == bs);
    let b0: u64 = if b.len() > 0 { b[0] as u64 } else { 0 };
    let b1: u64 = if b.len() > 1 { b[1] as u64 } else { 0 };
    let b2: u64 = if b.len() > 2 { b[2] as u64 } else { 0 };
    let b3: u64 = if b.len() > 3 { b[3] as u64 } else { 0 };
    let v: u64 = b0 + 256 * b1 + 65536 * b2 + 16777216 * b3;
    assert(v == byte_or_zero(bs, 0) + 256 * byte_or_zero(bs, 1) + 65536 * byte_or_zero(bs, 2)
        + 16777216 * byte_or_zero(bs, 3));
    v as u32
}

/// Stem end in half spaces upward for a stem from staff position `tip`.
fn stem_end_half(tip: i32, down: bool) -> (r: i64)
    ensures
        r == spec_stem_end(tip as int, down),
{
    let t = tip as i64;
    let len: i64 = if t < -2 && down {
        if -t > 7 {
            -t
        } else {
            7
        }
    } else if t > 10 && !down {
        if t - 8 > 7 {
            t - 8
        } else {
            7
        }
    } else {
        7
    };
    if down {
        -t - len
    } else {
        -t + len
    }
}

/// Key of a lookup in the staff-position cache.
pub struct CacheEntry {
    pub byte: u8,
    pub octave: i32,
    pub clef: u32,
    pub pos: i32,
}

/// The cache holds, for every key seen among the first `done` lookups, the
/// staff position of the first lookup with that key.
pub open spec fn cache_ok(cache: Seq<CacheEntry>, ls: Seq<Lookup>, done: int) -> bool {
    &&& forall|c: int|
        0 <= c < cache.len() ==> {
            let e = #[trigger] cache[c];
            let key = (e.byte, e.octave, e.clef);
            let f = first_with_key(ls, key);
            &&& 0 <= f < done
            &&& done <= ls.len()
            &&& lookup_key(ls[f]) == key
            &&& forall|j: int| 0 <= j < f ==> lookup_key(#[trigger] ls[j]) != key
            &&& e.pos == spec_staff_position(ls[f].name, ls[f].octave as int, ls[f].clef)
        }
    &&& forall|j: int|
        0 <= j < done ==> exists|c: int|
            0 <= c < cache.len() && (cache[c].byte, cache[c].octave, cache[c].clef)
                == lookup_key(#[trigger] ls[j])
}

/// Staff position of lookup `done`, through the cache.
fn cached_staff_position(
    cache: &mut Vec<CacheEntry>,
    name: &String,
    octave: i32,
    clef: &String,
    Ghost(ls): Ghost<Seq<Lookup>>,
    Ghost(done): Ghost<int>,
) -> (r: i32)
    requires
        0 <= done < ls.len(),
        ls[done] == (Lookup { name: name@, octave, clef: clef@ }),
        cache_ok(old(cache)@, ls, done),
        name@.len() > 0,
        forall|j: int|
            0 <= j < ls.len() && first_with_key(ls, lookup_key(ls[j])) == j ==> lookup_fits(
                #[trigger] ls[j],
            ),
    ensures
        cache_ok(final(cache)@, ls, done + 1),
        r == lookup_position(ls, done),
{
    let byte = name_first_byte(name);
    let cid = clef_id_of(clef.as_str());
    let ghost key = lookup_key(ls[done]);
    assert(key == (byte, octave, cid));
    let mut c: usize = 0;
    while c < cache.len()
        invariant
            0 <= done < ls.len(),
            cache_ok(cache@, ls, done),
            key == (byte, octave, cid),
            key == lookup_key(ls[done]),
            c <= cache@.len(),
            forall|d: int| 0 <= d < c ==> (cache@[d].byte, cache@[d].octave, cache@[d].clef) != key,
        decreases cache@.len() - c,
    {
        if cache[c].byte == byte && cache[c].octave == octave && cache[c].clef == cid {
            let ghost f = first_with_key(ls, key);
            proof {
                let e = cache@[c as int];
                assert((e.byte, e.octave, e.clef) == key);
                lemma_first_unique(ls, key, f);
                assert(exists|d: int|
                    0 <= d < cache@.len() && (cache@[d].byte, cache@[d].octave, cache@[d].clef)
                        == lookup_key(#[trigger] ls[done]));
                assert forall|j: int| 0 <= j < done + 1 implies exists|d: int|
                    0 <= d < cache@.len() && (cache@[d].byte, cache@[d].octave, cache@[d].clef)
                        == lookup_key(#[trigger] ls[j]) by {
                    if j == done {
                        assert((cache@[c as int].byte, cache@[c as int].octave, cache@[c as int].clef)
                            == lookup_key(ls[j]));
                    }
                }
            }
            return cache[c].pos;
        }
        c += 1;
    }
    // No earlier lookup had this key: this lookup is the first with it.
    proof {
        assert forall|j: int| 0 <= j < done implies lookup_key(#[trigger] ls[j]) != key by {
            let d = choose|d: int|
                0 <= d < cache@.len() && (cache@[d].byte, cache@[d].octave, cache@[d].clef)
                    == lookup_key(#[trigger] ls[j]);
            assert((cache@[d].byte, cache@[d].octave, cache@[d].clef) != key);
        }
        lemma_first_unique(ls, key, done);
        assert(lookup_fits(ls[done]));
    }
    let pos = staff_position(name.as_str(), octave, clef.as_str());
    let ghost old_cache = cache@;
    cache.push(CacheEntry { byte, octave, clef: cid, pos });
    proof {
        assert forall|d: int| 0 <= d < cache@.len() implies {
            let e = #[trigger] cache@[d];
            let k2 = (e.byte, e.octave, e.clef);
            let f = first_with_key(ls, k2);
            &&& 0 <= f < done + 1
            &&& done + 1 <= ls.len()
            &&& lookup_key(ls[f]) == k2
            &&& forall|j: int| 0 <= j < f ==> lookup_key(#[trigger] ls[j]) != k2
            &&& e.pos == spec_staff_position(ls[f].name, ls[f].octave as int, ls[f].clef)
        } by {
            if d < old_cache.len() {
                assert(cache@[d] == old_cache[d]);
            }
        }
        assert forall|j: int| 0 <= j < done + 1 implies exists|d: int|
            0 <= d < cache@.len() && (cache@[d].byte, cache@[d].octave, cache@[d].clef)
                == lookup_key(#[trigger] ls[j]) by {
            if j == done {
                assert((cache@[old_cache.len() as int].byte, cache@[old_cache.len() as int].octave,
                    cache@[old_cache.len() as int].clef) == lookup_key(ls[j]));
            } else {
                let d = choose|d: int|
                    0 <= d < old_cache.len() && (old_cache[d].byte, old_cache[d].octave, old_cache[d].clef)
                        == lookup_key(#[trigger] ls[j]);
                assert(cache@[d] == old_cache[d]);
            }
        }
    }
    pos
}

/// Staff positions of a chord's notes, through the cache.
fn chord_positions(
    cache: &mut Vec<CacheEntry>,
    notes: &Vec<crate::events::ChordNote>,
    clef: &String,
    Ghost(ls): Ghost<Seq<Lookup>>,
    Ghost(o): Ghost<int>,
) -> (r: Vec<i32>)
    requires
        0 <= o,
        o + notes@.len() <= ls.len(),
        forall|k: int|
            0 <= k < notes@.len() ==> ls[o + k] == (Lookup {
                name: (#[trigger] notes@[k]).name@,
                octave: notes@[k].octave,
                clef: clef@,
            }),
        cache_ok(old(cache)@, ls, o),
        forall|j: int| 0 <= j < ls.len() ==> (#[trigger] ls[j]).name.len() > 0,
        forall|j: int|
            0 <= j < ls.len() && first_with_key(ls, lookup_key(ls[j])) == j ==> lookup_fits(
                #[trigger] ls[j],
            ),
    ensures
        cache_ok(final(cache)@, ls, o + notes@.len()),
        r@.len() == notes@.len(),
        forall|k: int| 0 <= k < notes@.len() ==> #[trigger] r@[k] == lookup_position(ls, o + k),
{
    let mut r: Vec<i32> = Vec::new();
    let mut k: usize = 0;
    while k < notes.len()
        invariant
            0 <= o,
            o + notes@.len() <= ls.len(),
            forall|k2: int|
                0 <= k2 < notes@.len() ==> ls[o + k2] == (Lookup {
                    name: (#[trigger] notes@[k2]).name@,
                    octave: notes@[k2].octave,
                    clef: clef@,
                }),
            forall|j: int| 0 <= j < ls.len() ==> (#[trigger] ls[j]).name.len() > 0,
            forall|j: int|
                0 <= j < ls.len() && first_with_key(ls, lookup_key(ls[j])) == j ==> lookup_fits(
                    #[trigger] ls[j],
                ),
            k <= notes@.len(),
            cache_ok(cache@, ls, o + k),
            r@.len() == k,
            forall|k2: int| 0 <= k2 < k ==> #[trigger] r@[k2] == lookup_position(ls, o + k2),
        decreases notes@.len() - k,
    {
        let cn = &notes[k];
        assert(ls[o + k] == (Lookup { name: notes@[k as int].name@, octave: notes@[k as int].octave, clef: clef@ }));
        assert(ls[o + k].name.len() > 0);
        let p = cached_staff_position(cache, &cn.name, cn.octave, clef, Ghost(ls), Ghost(o + k));
        r.push(p);
        k += 1;
    }
    r
}

/// Lay out one staff vertically: follow inline clef changes from the staff's
/// clef (treble when none is given), place noteheads, and choose stems.
/// Staff positions are computed once per (first letter byte, octave, clef
/// identifier); `layout_positions_follow_clef` states what that gives for
/// single-letter names in supported clefs.
#[verifier::rlimit(30)]
pub fn layout_staff(
    events: &[Event],
    clef: Option<&str>,
    time: Option<&TimeInfo>,
    show_time_prefix: bool,
    lyric_prefix_states: &[Option<String>],
) -> (r: LaidOutStaff)
    requires
        layout_ok(
            events_view(events@),
            layout_clef(
                match clef {
                    Some(c) => Some(c@),
                    None => None,
                },
            ),
        ),
    ensures
        ({
            let ev = events_view(events@);
            let init = layout_clef(
                match clef {
                    Some(c) => Some(c@),
                    None => None,
                },
            );
            let ls = lookups_upto(ev, init, ev.len() as int);
            &&& r.items@.len() == ev.len()
            &&& forall|j: int|
                0 <= j < ev.len() ==> (#[trigger] r.items@[j])@ == spec_item(
                    ev[j],
                    ls,
                    lookups_upto(ev, init, j).len() as int,
                )
        }),
        opt_str_view(r.clef) == match clef {
            Some(c) => Some(c@),
            None => None,
        },
        opt_time_view(r.time) == match time {
            Some(t) => Some(t@),
            None => None,
        },
        r.show_time_prefix == show_time_prefix,
        opt_strs_view(r.lyric_prefix_states@) == opt_strs_view(lyric_prefix_states@),
{
    let ghost ev = events_view(events@);
    let ghost init = layout_clef(
        match clef {
            Some(c) => Some(c@),
            None => None,
        },
    );
    let ghost ls = lookups_upto(ev, init, ev.len() as int);
    let mut current_clef: String = match clef {
        Some(c) => owned(c),
        None => owned("treble"),
    };
    let mut cache: Vec<CacheEntry> = Vec::new();
    let mut items: Vec<LaidOutItem> = Vec::new();
    let mut i: usize = 0;
    while i < events.len()
        invariant
            ev == events_view(events@),
            ls == lookups_upto(ev, init, ev.len() as int),
            layout_ok(ev, init),
            i <= events@.len(),
            current_clef@ == clef_before(ev, init, i as int),
            cache_ok(cache@, ls, lookups_upto(ev, init, i as int).len() as int),
            lookups_upto(ev, init, i as int).len() <= ls.len(),
            items@.len() == i,
            forall|j: int|
                0 <= j < i ==> (#[trigger] items@[j])@ == spec_item(
                    ev[j],
                    ls,
                    lookups_upto(ev, init, j).len() as int,
                ),
        decreases events@.len() - i,
    {
        let ghost o = lookups_upto(ev, init, i as int).len() as int;
        let ghost cl = clef_before(ev, init, i as int);
        proof {
            lemma_lookups_len(ev, init, i as int);
        }
        let event = &events[i];
        assert(ev[i as int] == event@);
        let item = match event {
            Event::Note(n) => {
                proof {
                    lemma_lookup_at(ev, init, i as int, 0);
                }
                let sp = cached_staff_position(&mut cache, &n.name, n.octave, &current_clef, Ghost(ls), Ghost(o));
                let sd = auto_stem_direction(sp);
                let down = sp <= 4;
                LaidOutItem {
                    event: event.copy(),
                    staff_pos: sp,
                    stem_dir: Some(owned(sd)),
                    stem_end: Some(stem_end_half(sp, down)),
                    chord_staff_positions: Vec::new(),
                }
            },
            Event::Chord(c) => {
                proof {
                    assert forall|k: int| 0 <= k < c.notes@.len() implies ls[o + k] == (Lookup {
                        name: (#[trigger] c.notes@[k]).name@,
                        octave: c.notes@[k].octave,
                        clef: current_clef@,
                    }) by {
                        lemma_lookup_at(ev, init, i as int, k);
                        assert(chord_notes_view(c.notes@)[k] == c.notes@[k]@);
                    }
                }
                let ps = chord_positions(&mut cache, &c.notes, &current_clef, Ghost(ls), Ghost(o));
                let ghost psv = Seq::new(c.notes@.len(), |k: int| lookup_position(ls, o + k));
                assert(chord_notes_view(c.notes@).len() == c.notes@.len());
                assert(0 < psv.len());
                assert(prefix_sums_fit(psv));
                let n = ps.len();
                // Sum, smallest and largest position.
                let mut sum: i64 = 0;
                let mut mn: i32 = ps[0];
                let mut mx: i32 = ps[0];
                let mut k: usize = 0;
                assert(psv.take(0) =~= Seq::<int>::empty());
                while k < n
                    invariant
                        n == ps@.len(),
                        n == psv.len(),
                        0 < n,
                        prefix_sums_fit(psv),
                        forall|k2: int| 0 <= k2 < n ==> ps@[k2] == psv[k2],
                        k <= n,
                        sum == seq_sum(psv.take(k as int)),
                        k == 0 ==> mn == psv[0] && mx == psv[0],
                        k > 0 ==> mn == seq_min(psv.take(k as int)) && mx == seq_max(psv.take(k as int)),
                    decreases n - k,
                {
                    assert(psv.take(k + 1).drop_last() =~= psv.take(k as int));
                    assert(psv.take(k + 1).last() == psv[k as int]);
                    assert(i32::MIN <= seq_sum(psv.take(k as int)) <= i32::MAX);
                    let p = ps[k];
                    sum = sum + p as i64;
                    if k == 0 {
                        mn = p;
                        mx = p;
                    } else {
                        if p < mn {
                            mn = p;
                        }
                        if p > mx {
                            mx = p;
                        }
                    }
                    k += 1;
                }
                assert(psv.take(n as int) =~= psv);
                assert(i32::MIN <= sum <= i32::MAX);
                let len: i128 = n as i128;
                let sum: i128 = sum as i128;
                let avg: i128 = if sum >= 0 {
                    sum / len
                } else {
                    -((-sum) / len)
                };
                assert(avg == trunc_div(seq_sum(psv), psv.len() as int));
                assert(i32::MIN <= avg <= i32::MAX);
                let sd = auto_stem_direction(avg as i32);
                let down = avg <= 4;
                let primary = if down { mn } else { mx };
                let tip = if down { mx } else { mn };
                let it = LaidOutItem {
                    event: event.copy(),
                    staff_pos: primary,
                    stem_dir: Some(owned(sd)),
                    stem_end: Some(stem_end_half(tip, down)),
                    chord_staff_positions: ps,
                };
                assert(it.chord_staff_positions@.map_values(|p: i32| p as int) =~= psv);
                it
            },
            Event::Rest(r) => {
                let sp: i32 = if r.duration == 1 { 2 } else { 4 };
                LaidOutItem {
                    event: event.copy(),
                    staff_pos: sp,
                    stem_dir: None,
                    stem_end: None,
                    chord_staff_positions: Vec::new(),
                }
            },
            Event::Clef(c) => {
                current_clef = c.clone();
                LaidOutItem {
                    event: event.copy(),
                    staff_pos: 0,
                    stem_dir: None,
                    stem_end: None,
                    chord_staff_positions: Vec::new(),
                }
            },
            _ => LaidOutItem {
                event: event.copy(),
                staff_pos: 0,
                stem_dir: None,
                stem_end: None,
                chord_staff_positions: Vec::new(),
            },
        };
        assert(item@.chord_staff_positions =~= spec_item(ev[i as int], ls, o).chord_staff_positions);
        assert(item@ == spec_item(ev[i as int], ls, o));
        items.push(item);
        i += 1;
    }
    LaidOutStaff {
        items,
        clef: match clef {
            Some(c) => Some(owned(c)),
            None => None,
        },
        time: match time {
            Some(t) => Some(t.copy()),
            None => None,
        },
        show_time_prefix,
        lyric_prefix_states: copy_opt_strings(lyric_prefix_states),
    }
}


/// A stem is at least 3.5 spaces (7 half spaces) long, and the stem of a note
/// far outside the staff reaches the staff: down stems of notes above it end on
/// or below the top line, up stems of notes below it on or above the bottom line.
pub proof fn stems_reach_the_staff(tip: int, down: bool)
    ensures
        down ==> (-tip) - spec_stem_end(tip, down) >= 7,
        !down ==> spec_stem_end(tip, down) - (-tip) >= 7,
        down && tip < -2 ==> spec_stem_end(tip, down) <= 0,
        !down && tip > 10 ==> spec_stem_end(tip, down) >= -8,
        -2 <= tip <= 10 ==> spec_stem_end(tip, down) == if down {
            -tip - 7
        } else {
            -tip + 7
        },
{
}

} // verus!
