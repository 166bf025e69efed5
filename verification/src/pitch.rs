//! Pitch and clef rules: diatonic numbers, staff positions, stem direction,
//! ledger lines and key signatures.

use vstd::prelude::*;
use crate::text::str_eq;
use crate::text::owned;

verus! {

// ─── Name families ─────────────────────────────────────────────────────

/// The octave-transposing variants of the treble clef.
pub open spec fn is_treble_variant(c: Seq<char>) -> bool {
    ||| c == "treble-8a"@
    ||| c == "treble8a"@
    ||| c == "treble-8b"@
    ||| c == "treble8b"@
    ||| c == "treble-8"@
    ||| c == "treble8"@
    ||| c == "treble-15a"@
    ||| c == "treble-15b"@
}

/// The octave-transposing variants of the bass clef.
pub open spec fn is_bass_variant(c: Seq<char>) -> bool {
    ||| c == "bass-8a"@
    ||| c == "bass8a"@
    ||| c == "bass-8b"@
    ||| c == "bass8b"@
    ||| c == "bass-15a"@
    ||| c == "bass-15b"@
}

/// The bass clef or one of its variants.
pub open spec fn is_bass_family(c: Seq<char>) -> bool {
    c == "bass"@ || is_bass_variant(c)
}

fn treble_variant(c: &str) -> (r: bool)
    ensures
        r == is_treble_variant(c@),
{
    str_eq(c, "treble-8a") || str_eq(c, "treble8a") || str_eq(c, "treble-8b") || str_eq(
        c,
        "treble8b",
    ) || str_eq(c, "treble-8") || str_eq(c, "treble8") || str_eq(c, "treble-15a") || str_eq(
        c,
        "treble-15b",
    )
}

fn bass_variant(c: &str) -> (r: bool)
    ensures
        r == is_bass_variant(c@),
{
    str_eq(c, "bass-8a") || str_eq(c, "bass8a") || str_eq(c, "bass-8b") || str_eq(c, "bass8b")
        || str_eq(c, "bass-15a") || str_eq(c, "bass-15b")
}

fn bass_family(c: &str) -> (r: bool)
    ensures
        r == is_bass_family(c@),
{
    str_eq(c, "bass") || bass_variant(c)
}

// ─── Diatonic numbers and staff positions ──────────────────────────────

/// Diatonic index of a note letter: c=0, d=1, ..., b=6; any other name counts as c.
pub open spec fn spec_note_to_diatonic(name: Seq<char>) -> int {
    if name == "c"@ {
        0
    } else if name == "d"@ {
        1
    } else if name == "e"@ {
        2
    } else if name == "f"@ {
        3
    } else if name == "g"@ {
        4
    } else if name == "a"@ {
        5
    } else if name == "b"@ {
        6
    } else {
        0
    }
}

/// Diatonic index for each note name (C=0..B=6).
pub fn note_to_diatonic(name: &str) -> (r: i32)
    ensures
        r == spec_note_to_diatonic(name@),
        0 <= r <= 6,
{
    if str_eq(name, "c") {
        0
    } else if str_eq(name, "d") {
        1
    } else if str_eq(name, "e") {
        2
    } else if str_eq(name, "f") {
        3
    } else if str_eq(name, "g") {
        4
    } else if str_eq(name, "a") {
        5
    } else if str_eq(name, "b") {
        6
    } else {
        0
    }
}

/// Diatonic number of the top staff line: F5 (38) for the treble family and
/// percussion, A3 (26) for the bass family, G4 (32) for alto, E4 (30) for tenor,
/// and 38 for anything else.
pub open spec fn spec_clef_top_line_diatonic(clef: Seq<char>) -> int {
    if clef == "treble"@ || is_treble_variant(clef) || clef == "percussion"@ {
        38
    } else if is_bass_family(clef) {
        26
    } else if clef == "alto"@ {
        32
    } else if clef == "tenor"@ {
        30
    } else {
        38
    }
}

/// Top-line diatonic number for each clef.
pub fn clef_top_line_diatonic(clef: &str) -> (r: i32)
    ensures
        r == spec_clef_top_line_diatonic(clef@),
{
    if str_eq(clef, "treble") || treble_variant(clef) || str_eq(clef, "percussion") {
        38
    } else if bass_family(clef) {
        26
    } else if str_eq(clef, "alto") {
        32
    } else if str_eq(clef, "tenor") {
        30
    } else {
        38
    }
}

/// The base clef of a variant: treble variants map to "treble", bass variants
/// to "bass", every other name to itself.
pub open spec fn spec_base_clef(clef: Seq<char>) -> Seq<char> {
    if is_treble_variant(clef) {
        "treble"@
    } else if is_bass_variant(clef) {
        "bass"@
    } else {
        clef
    }
}

/// Map variant clef names to their base clef for staff position calculation.
pub fn base_clef(clef: &str) -> (r: &str)
    ensures
        r@ == spec_base_clef(clef@),
{
    if treble_variant(clef) {
        "treble"
    } else if bass_variant(clef) {
        "bass"
    } else {
        clef
    }
}

/// Diatonic number of a pitch: the letter's index plus seven per octave.
pub open spec fn spec_pitch_to_diatonic(name: Seq<char>, octave: int) -> int {
    spec_note_to_diatonic(name) + octave * 7
}

/// Compute the diatonic number of a pitch.
pub fn pitch_to_diatonic(name: &str, octave: i32) -> (r: i32)
    requires
        i32::MIN <= octave * 7 <= i32::MAX,
        i32::MIN <= spec_pitch_to_diatonic(name@, octave as int) <= i32::MAX,
    ensures
        r == spec_pitch_to_diatonic(name@, octave as int),
{
    note_to_diatonic(name) + octave * 7
}

/// Staff position (0 = top line, +1 per half space downward) of a pitch in a clef:
/// the top line's diatonic number of the base clef minus the pitch's.
pub open spec fn spec_staff_position(name: Seq<char>, octave: int, clef: Seq<char>) -> int {
    spec_clef_top_line_diatonic(spec_base_clef(clef)) - spec_pitch_to_diatonic(name, octave)
}

/// Compute staff position for a note given a clef.
/// 0 = top staff line, each +1 = one half-space downward.
pub fn staff_position(name: &str, octave: i32, clef: &str) -> (r: i32)
    requires
        i32::MIN <= octave * 7 <= i32::MAX,
        i32::MIN <= spec_pitch_to_diatonic(name@, octave as int) <= i32::MAX,
        i32::MIN <= spec_staff_position(name@, octave as int, clef@) <= i32::MAX,
    ensures
        r == spec_staff_position(name@, octave as int, clef@),
{
    let used = base_clef(clef);
    let diatonic = pitch_to_diatonic(name, octave);
    let top = clef_top_line_diatonic(used);
    top - diatonic
}

/// Stems point down from the middle line (position 4) upward, up below it.
pub open spec fn spec_stem_down(staff_pos: int) -> bool {
    staff_pos <= 4
}

/// Determine stem direction based on staff position.
pub fn auto_stem_direction(staff_pos: i32) -> (r: &'static str)
    ensures
        r@ == (if spec_stem_down(staff_pos as int) {
            "down"@
        } else {
            "up"@
        }),
{
    if staff_pos <= 4 {
        "down"
    } else {
        "up"
    }
}

/// Number of ledger lines above the staff for a position at or above the first
/// line above it (-2): the magnitude halved; `i32::MIN` keeps the wrapped value
/// that `unsigned_abs() as i32` gives for it.
pub open spec fn spec_ledger_count_above(staff_pos: int) -> int {
    if staff_pos == i32::MIN {
        i32::MIN / 2
    } else {
        (-staff_pos) / 2
    }
}

/// Number and direction of ledger lines needed: none inside the staff
/// (-1..=9), `|pos| / 2` above it, `(pos - 8) / 2` below it.
pub open spec fn spec_ledger_lines(staff_pos: int) -> (int, Option<Seq<char>>) {
    if staff_pos <= -2 {
        (spec_ledger_count_above(staff_pos), Some("above"@))
    } else if staff_pos >= 10 {
        ((staff_pos - 8) / 2, Some("below"@))
    } else {
        (0, None)
    }
}

/// Number and direction of ledger lines needed.
pub fn ledger_lines_needed(staff_pos: i32) -> (r: (i32, Option<&'static str>))
    ensures
        r.0 == spec_ledger_lines(staff_pos as int).0,
        r.1 matches Some(d) ==> spec_ledger_lines(staff_pos as int).1 == Some(d@),
        r.1 is None ==> spec_ledger_lines(staff_pos as int).1 is None,
{
    if staff_pos <= -2 {
        let count: i32 = if staff_pos == i32::MIN {
            i32::MIN / 2
        } else {
            (-staff_pos) / 2
        };
        (count, Some("above"))
    } else if staff_pos >= 10 {
        let count: i32 = (staff_pos - 8) / 2;
        (count, Some("below"))
    } else {
        (0, None)
    }
}

/// Staff positions of the ledger lines a note needs, from the staff outward:
/// -2, -4, ... above the staff, 10, 12, ... below it.
pub open spec fn spec_ledger_positions(staff_pos: int) -> Seq<int> {
    let n = spec_ledger_lines(staff_pos).0;
    if n <= 0 {
        Seq::empty()
    } else if staff_pos <= -2 {
        Seq::new(n as nat, |i: int| -2 - 2 * i)
    } else {
        Seq::new(n as nat, |i: int| 10 + 2 * i)
    }
}

/// Staff positions of the ledger lines to draw for a note.
pub fn ledger_line_positions(staff_pos: i32) -> (r: Vec<i32>)
    ensures
        r@.map_values(|q: i32| q as int) == spec_ledger_positions(staff_pos as int),
{
    let info = ledger_lines_needed(staff_pos);
    let mut out: Vec<i32> = Vec::new();
    if info.0 <= 0 {
        assert(out@.map_values(|q: i32| q as int) =~= spec_ledger_positions(staff_pos as int));
        return out;
    }
    let n = info.0;
    let above = staff_pos <= -2;
    let mut i: i32 = 0;
    while i < n
        invariant
            0 < n <= 0x4000_0000 + 1,
            n == spec_ledger_lines(staff_pos as int).0,
            above == (staff_pos <= -2),
            0 <= i <= n,
            out@.map_values(|q: i32| q as int) =~= spec_ledger_positions(staff_pos as int).take(
                i as int,
            ),
        decreases n - i,
    {
        let q: i32 = if above { -2 - i * 2 } else { 10 + i * 2 };
        let ghost before = out@;
        out.push(q);
        assert(out@.map_values(|x: i32| x as int) =~= before.map_values(|x: i32| x as int).push(
            q as int,
        ));
        i += 1;
    }
    out
}

/// Default base octave: 3 for the bass family, 4 otherwise.
pub open spec fn spec_clef_default_base_octave(clef: Seq<char>) -> int {
    if is_bass_family(clef) {
        3
    } else {
        4
    }
}

/// Default base octave for a clef.
pub fn clef_default_base_octave(clef: &str) -> (r: i32)
    ensures
        r == spec_clef_default_base_octave(clef@),
{
    if bass_family(clef) {
        3
    } else {
        4
    }
}

// ─── Key signatures ────────────────────────────────────────────────────

/// Accidental count of a key (positive = sharps, negative = flats): upper-case
/// names are major keys, lower-case names minor keys; unknown keys count 0.
pub open spec fn spec_key_sig_accidental_count(key: Seq<char>) -> int {
    if key == "C"@ {
        0
    } else if key == "G"@ {
        1
    } else if key == "D"@ {
        2
    } else if key == "A"@ {
        3
    } else if key == "E"@ {
        4
    } else if key == "B"@ {
        5
    } else if key == "F#"@ {
        6
    } else if key == "C#"@ {
        7
    } else if key == "F"@ {
        -1
    } else if key == "Bb"@ {
        -2
    } else if key == "Eb"@ {
        -3
    } else if key == "Ab"@ {
        -4
    } else if key == "Db"@ {
        -5
    } else if key == "Gb"@ {
        -6
    } else if key == "Cb"@ {
        -7
    } else if key == "a"@ {
        0
    } else if key == "e"@ {
        1
    } else if key == "b"@ {
        2
    } else if key == "f#"@ {
        3
    } else if key == "c#"@ {
        4
    } else if key == "g#"@ {
        5
    } else if key == "d#"@ {
        6
    } else if key == "a#"@ {
        7
    } else if key == "d"@ {
        -1
    } else if key == "g"@ {
        -2
    } else if key == "c"@ {
        -3
    } else if key == "f"@ {
        -4
    } else if key == "bb"@ {
        -5
    } else if key == "eb"@ {
        -6
    } else if key == "ab"@ {
        -7
    } else {
        0
    }
}

fn major_key_count(key: &str) -> (r: Option<i32>)
    ensures
        r matches Some(v) ==> v == spec_key_sig_accidental_count(key@),
        r is None ==> !(key@ == "C"@ || key@ == "G"@ || key@ == "D"@ || key@ == "A"@ || key@
            == "E"@ || key@ == "B"@ || key@ == "F#"@ || key@ == "C#"@ || key@ == "F"@ || key@
            == "Bb"@ || key@ == "Eb"@ || key@ == "Ab"@ || key@ == "Db"@ || key@ == "Gb"@ || key@
            == "Cb"@),
{
    if str_eq(key, "C") {
        Some(0)
    } else if str_eq(key, "G") {
        Some(1)
    } else if str_eq(key, "D") {
        Some(2)
    } else if str_eq(key, "A") {
        Some(3)
    } else if str_eq(key, "E") {
        Some(4)
    } else if str_eq(key, "B") {
        Some(5)
    } else if str_eq(key, "F#") {
        Some(6)
    } else if str_eq(key, "C#") {
        Some(7)
    } else if str_eq(key, "F") {
        Some(-1)
    } else if str_eq(key, "Bb") {
        Some(-2)
    } else if str_eq(key, "Eb") {
        Some(-3)
    } else if str_eq(key, "Ab") {
        Some(-4)
    } else if str_eq(key, "Db") {
        Some(-5)
    } else if str_eq(key, "Gb") {
        Some(-6)
    } else if str_eq(key, "Cb") {
        Some(-7)
    } else {
        None
    }
}

fn minor_key_count(key: &str) -> (r: i32)
    requires
        !(key@ == "C"@ || key@ == "G"@ || key@ == "D"@ || key@ == "A"@ || key@ == "E"@ || key@
            == "B"@ || key@ == "F#"@ || key@ == "C#"@ || key@ == "F"@ || key@ == "Bb"@ || key@
            == "Eb"@ || key@ == "Ab"@ || key@ == "Db"@ || key@ == "Gb"@ || key@ == "Cb"@),
    ensures
        r == spec_key_sig_accidental_count(key@),
{
    if str_eq(key, "a") {
        0
    } else if str_eq(key, "e") {
        1
    } else if str_eq(key, "b") {
        2
    } else if str_eq(key, "f#") {
        3
    } else if str_eq(key, "c#") {
        4
    } else if str_eq(key, "g#") {
        5
    } else if str_eq(key, "d#") {
        6
    } else if str_eq(key, "a#") {
        7
    } else if str_eq(key, "d") {
        -1
    } else if str_eq(key, "g") {
        -2
    } else if str_eq(key, "c") {
        -3
    } else if str_eq(key, "f") {
        -4
    } else if str_eq(key, "bb") {
        -5
    } else if str_eq(key, "eb") {
        -6
    } else if str_eq(key, "ab") {
        -7
    } else {
        0
    }
}

/// Key signature accidental count (positive = sharps, negative = flats).
pub fn key_sig_accidental_count(key: &str) -> (r: i32)
    ensures
        r == spec_key_sig_accidental_count(key@),
        -7 <= r <= 7,
{
    match major_key_count(key) {
        Some(v) => v,
        None => minor_key_count(key),
    }
}

/// Staff positions of the sharps of a key signature, in order, for a clef: the
/// standard placement of the bass clef (and its octave variants), alto and
/// tenor clefs, and of the treble clef for every other clef.
pub open spec fn spec_sharp_positions(clef: Seq<char>) -> Seq<i32> {
    if is_bass_family(clef) {
        seq![2, 5, 1, 4, 7, 3, 6]
    } else if clef == "alto"@ {
        seq![1, 4, 0, 3, 6, 2, 5]
    } else if clef == "tenor"@ {
        seq![6, 2, 5, 1, 4, 0, 3]
    } else {
        seq![0i32, 3, -1i32, 2, 5, 1, 4]
    }
}

/// Staff positions of the flats of a key signature, in order, for a clef, with
/// the same clef families as the sharps.
pub open spec fn spec_flat_positions(clef: Seq<char>) -> Seq<i32> {
    if is_bass_family(clef) {
        seq![6, 3, 7, 4, 8, 5, 2]
    } else if clef == "alto"@ {
        seq![5, 2, 6, 3, 7, 4, 1]
    } else if clef == "tenor"@ {
        seq![3, 0, 4, 1, 5, 2, 6]
    } else {
        seq![4, 1, 5, 2, 6, 3, 7]
    }
}

/// Key signature sharp positions by clef (staff positions for each accidental).
pub fn key_sig_sharp_positions(clef: &str) -> (r: [i32; 7])
    ensures
        r@ == spec_sharp_positions(clef@),
{
    let r = if bass_family(clef) {
        [2, 5, 1, 4, 7, 3, 6]
    } else if str_eq(clef, "alto") {
        [1, 4, 0, 3, 6, 2, 5]
    } else if str_eq(clef, "tenor") {
        [6, 2, 5, 1, 4, 0, 3]
    } else {
        [0, 3, -1, 2, 5, 1, 4]
    };
    assert(r@ =~= spec_sharp_positions(clef@));
    r
}

/// Key signature flat positions by clef.
pub fn key_sig_flat_positions(clef: &str) -> (r: [i32; 7])
    ensures
        r@ == spec_flat_positions(clef@),
{
    let r = if bass_family(clef) {
        [6, 3, 7, 4, 8, 5, 2]
    } else if str_eq(clef, "alto") {
        [5, 2, 6, 3, 7, 4, 1]
    } else if str_eq(clef, "tenor") {
        [3, 0, 4, 1, 5, 2, 6]
    } else {
        [4, 1, 5, 2, 6, 3, 7]
    };
    assert(r@ =~= spec_flat_positions(clef@));
    r
}

/// The order in which sharps enter a key signature.
pub open spec fn sharp_order() -> Seq<Seq<char>> {
    seq!["f"@, "c"@, "g"@, "d"@, "a"@, "e"@, "b"@]
}

/// The order in which flats enter a key signature.
pub open spec fn flat_order() -> Seq<Seq<char>> {
    seq!["b"@, "e"@, "a"@, "d"@, "g"@, "c"@, "f"@]
}

/// The notes a key signature alters, in the order they enter it, each with
/// "sharp" or "flat": the first `count` of the sharp order for a sharp key, the
/// first `-count` of the flat order for a flat key, nothing for 0.
pub open spec fn spec_key_sig_accidentals(key: Seq<char>) -> Seq<(Seq<char>, Seq<char>)> {
    let count = spec_key_sig_accidental_count(key);
    if count > 0 {
        Seq::new(count as nat, |i: int| (sharp_order()[i], "sharp"@))
    } else if count < 0 {
        Seq::new((-count) as nat, |i: int| (flat_order()[i], "flat"@))
    } else {
        Seq::empty()
    }
}

/// View of a list of (note, accidental) string pairs.
pub open spec fn pairs_view(v: Seq<(String, String)>) -> Seq<(Seq<char>, Seq<char>)> {
    v.map_values(|p: (String, String)| (p.0@, p.1@))
}

fn sharp_name(i: usize) -> (r: &'static str)
    requires
        i < 7,
    ensures
        r@ == sharp_order()[i as int],
{
    if i == 0 {
        "f"
    } else if i == 1 {
        "c"
    } else if i == 2 {
        "g"
    } else if i == 3 {
        "d"
    } else if i == 4 {
        "a"
    } else if i == 5 {
        "e"
    } else {
        "b"
    }
}

fn flat_name(i: usize) -> (r: &'static str)
    requires
        i < 7,
    ensures
        r@ == flat_order()[i as int],
{
    if i == 0 {
        "b"
    } else if i == 1 {
        "e"
    } else if i == 2 {
        "a"
    } else if i == 3 {
        "d"
    } else if i == 4 {
        "g"
    } else if i == 5 {
        "c"
    } else {
        "f"
    }
}

/// Get the notes affected by a key signature, as (note letter, "sharp"/"flat")
/// pairs in the order the accidentals are written.
pub fn key_sig_accidentals(key: &str) -> (r: Vec<(String, String)>)
    ensures
        pairs_view(r@) == spec_key_sig_accidentals(key@),
{
    let count = key_sig_accidental_count(key);
    let mut result: Vec<(String, String)> = Vec::new();
    if count > 0 {
        let n: usize = count as usize;
        let mut i: usize = 0;
        while i < n
            invariant
                n == count,
                0 < count <= 7,
                i <= n,
                result@.len() == i,
                pairs_view(result@) =~= Seq::new(i as nat, |j: int| (sharp_order()[j], "sharp"@)),
            decreases n - i,
        {
            let note = owned(sharp_name(i));
            let acc = owned("sharp");
            let ghost before = result@;
            result.push((note, acc));
            assert(result@ =~= before.push((note, acc)));
            assert(pairs_view(result@) =~= pairs_view(before).push((note@, acc@)));
            i += 1;
        }
    } else if count < 0 {
        let n: usize = (-count) as usize;
        let mut i: usize = 0;
        while i < n
            invariant
                n == -count,
                -7 <= count < 0,
                i <= n,
                result@.len() == i,
                pairs_view(result@) =~= Seq::new(i as nat, |j: int| (flat_order()[j], "flat"@)),
            decreases n - i,
        {
            let note = owned(flat_name(i));
            let acc = owned("flat");
            let ghost before = result@;
            result.push((note, acc));
            assert(result@ =~= before.push((note, acc)));
            assert(pairs_view(result@) =~= pairs_view(before).push((note@, acc@)));
            i += 1;
        }
    }
    result
}

/// Clef names the renderer supports: treble, bass, alto, tenor, their octave
/// variants, and percussion.
pub open spec fn spec_is_supported_clef(clef: Seq<char>) -> bool {
    ||| clef == "treble"@
    ||| clef == "bass"@
    ||| clef == "alto"@
    ||| clef == "tenor"@
    ||| is_treble_variant(clef)
    ||| is_bass_variant(clef)
    ||| clef == "percussion"@
}

/// Check if a clef name is supported.
pub fn is_supported_clef(clef: &str) -> (r: bool)
    ensures
        r == spec_is_supported_clef(clef@),
{
    str_eq(clef, "treble") || str_eq(clef, "bass") || str_eq(clef, "alto") || str_eq(clef, "tenor")
        || treble_variant(clef) || bass_variant(clef) || str_eq(clef, "percussion")
}


// ─── Laws ──────────────────────────────────────────────────────────────

/// Raising a pitch by an octave moves it seven staff positions up, in every clef.
pub proof fn octave_moves_seven_positions(name: Seq<char>, octave: int, clef: Seq<char>)
    ensures
        spec_staff_position(name, octave + 1, clef) == spec_staff_position(name, octave, clef) - 7,
{
    assert((octave + 1) * 7 == octave * 7 + 7) by (nonlinear_arith);
}

proof fn lemma_base_names_are_bases()
    ensures
        !is_treble_variant("treble"@),
        !is_bass_variant("treble"@),
        !is_treble_variant("bass"@),
        !is_bass_variant("bass"@),
{
    reveal_strlit("treble");
    reveal_strlit("bass");
    reveal_strlit("treble-8a");
    reveal_strlit("treble8a");
    reveal_strlit("treble-8b");
    reveal_strlit("treble8b");
    reveal_strlit("treble-8");
    reveal_strlit("treble8");
    reveal_strlit("treble-15a");
    reveal_strlit("treble-15b");
    reveal_strlit("bass-8a");
    reveal_strlit("bass8a");
    reveal_strlit("bass-8b");
    reveal_strlit("bass8b");
    reveal_strlit("bass-15a");
    reveal_strlit("bass-15b");
    assert("treble"@.len() == 6 && "bass"@.len() == 4);
    assert("treble-8a"@.len() == 9 && "treble8a"@.len() == 8 && "treble-8b"@.len() == 9);
    assert("treble8b"@.len() == 8 && "treble-8"@.len() == 8 && "treble8"@.len() == 7);
    assert("treble-15a"@.len() == 10 && "treble-15b"@.len() == 10);
    assert("bass-8a"@.len() == 7 && "bass8a"@.len() == 6 && "bass-8b"@.len() == 7);
    assert("bass8b"@.len() == 6 && "bass-15a"@.len() == 8 && "bass-15b"@.len() == 8);
    assert("treble"@[0] != "bass8a"@[0]);
    assert("treble"@[0] != "bass8b"@[0]);
}

/// An octave variant of a clef places every pitch where its base clef does.
pub proof fn variants_share_base_positions(name: Seq<char>, octave: int, clef: Seq<char>)
    ensures
        spec_staff_position(name, octave, clef) == spec_staff_position(
            name,
            octave,
            spec_base_clef(clef),
        ),
        spec_base_clef(spec_base_clef(clef)) == spec_base_clef(clef),
{
    lemma_base_names_are_bases();
}

/// Ledger lines are needed exactly outside the staff (above position -1 or
/// below position 9), and a note one position further from the staff than
/// another never needs fewer.
pub proof fn ledger_lines_outside_staff(p: int)
    requires
        i32::MIN < p <= i32::MAX,
    ensures
        spec_ledger_lines(p).0 > 0 <==> (p <= -2 || p >= 10),
        spec_ledger_lines(p).0 >= 0,
        i32::MIN < p - 1 && p <= -2 ==> spec_ledger_lines(p - 1).0 >= spec_ledger_lines(p).0,
        p >= 10 ==> spec_ledger_lines(p + 1).0 >= spec_ledger_lines(p).0,
{
}

/// Ledger lines are symmetric about the middle line (position 4): a note `d`
/// half spaces above it needs as many as one `d` half spaces below it.
pub proof fn ledger_lines_symmetric(p: int)
    requires
        i32::MIN < p <= i32::MAX,
        i32::MIN < 8 - p <= i32::MAX,
    ensures
        spec_ledger_lines(p).0 == spec_ledger_lines(8 - p).0,
{
}

/// Stems point down for notes on or above the middle line and up below it.
pub proof fn stem_direction_by_middle_line(p: int)
    ensures
        spec_stem_down(p) <==> p <= 4,
        spec_stem_down(p) != spec_stem_down(p + 1) ==> p == 4,
{
}

/// Whether accidental position `pos` of a key signature in `clef` lies on a
/// line or space of note letter `letter`.
pub open spec fn on_letter(clef: Seq<char>, letter: Seq<char>, pos: int) -> bool {
    (spec_clef_top_line_diatonic(clef) - spec_note_to_diatonic(letter) - pos) % 7 == 0
}

proof fn lemma_letter_indices()
    ensures
        spec_note_to_diatonic("c"@) == 0,
        spec_note_to_diatonic("d"@) == 1,
        spec_note_to_diatonic("e"@) == 2,
        spec_note_to_diatonic("f"@) == 3,
        spec_note_to_diatonic("g"@) == 4,
        spec_note_to_diatonic("a"@) == 5,
        spec_note_to_diatonic("b"@) == 6,
{
    reveal_strlit("f");
    reveal_strlit("c");
    reveal_strlit("g");
    reveal_strlit("d");
    reveal_strlit("a");
    reveal_strlit("e");
    reveal_strlit("b");
    assert("c"@[0] == 'c');
    assert("d"@[0] == 'd');
    assert("e"@[0] == 'e');
    assert("f"@[0] == 'f');
    assert("g"@[0] == 'g');
    assert("a"@[0] == 'a');
    assert("b"@[0] == 'b');
}

proof fn lemma_clef_names_differ()
    ensures
        "bass"@ != "alto"@,
        "bass"@ != "tenor"@,
        "alto"@ != "tenor"@,
        !is_bass_variant("alto"@),
        !is_treble_variant("alto"@),
        "alto"@ != "treble"@,
        "alto"@ != "percussion"@,
        "bass"@ != "treble"@,
        "bass"@ != "percussion"@,
{
    reveal_strlit("treble");
    reveal_strlit("bass");
    reveal_strlit("alto");
    reveal_strlit("tenor");
    reveal_strlit("percussion");
    reveal_strlit("treble-8a");
    reveal_strlit("treble8a");
    reveal_strlit("treble-8b");
    reveal_strlit("treble8b");
    reveal_strlit("treble-8");
    reveal_strlit("treble8");
    reveal_strlit("treble-15a");
    reveal_strlit("treble-15b");
    reveal_strlit("bass-8a");
    reveal_strlit("bass8a");
    reveal_strlit("bass-8b");
    reveal_strlit("bass8b");
    reveal_strlit("bass-15a");
    reveal_strlit("bass-15b");
    assert("bass"@[0] != "alto"@[0]);
    assert("bass"@.len() == 4 && "percussion"@.len() == 10 && "treble"@.len() == 6);
    assert("alto"@.len() == 4 && "tenor"@.len() == 5);
    assert("treble-8a"@.len() == 9 && "treble8a"@.len() == 8 && "treble-8b"@.len() == 9);
    assert("treble8b"@.len() == 8 && "treble-8"@.len() == 8 && "treble8"@.len() == 7);
    assert("treble-15a"@.len() == 10 && "treble-15b"@.len() == 10);
    assert("bass-8a"@.len() == 7 && "bass8a"@.len() == 6 && "bass-8b"@.len() == 7);
    assert("bass8b"@.len() == 6 && "bass-15a"@.len() == 8 && "bass-15b"@.len() == 8);
}

proof fn lemma_bass_variants_apart(c: Seq<char>)
    ensures
        is_bass_variant(c) ==> !is_treble_variant(c) && c != "treble"@ && c != "percussion"@
            && c != "alto"@ && c != "tenor"@ && c != "bass"@,
        "tenor"@ != "treble"@ && "tenor"@ != "percussion"@ && "tenor"@ != "bass"@,
        !is_treble_variant("tenor"@) && !is_bass_variant("tenor"@),
{
    reveal_strlit("treble");
    reveal_strlit("bass");
    reveal_strlit("alto");
    reveal_strlit("tenor");
    reveal_strlit("percussion");
    reveal_strlit("treble-8a");
    reveal_strlit("treble8a");
    reveal_strlit("treble-8b");
    reveal_strlit("treble8b");
    reveal_strlit("treble-8");
    reveal_strlit("treble8");
    reveal_strlit("treble-15a");
    reveal_strlit("treble-15b");
    reveal_strlit("bass-8a");
    reveal_strlit("bass8a");
    reveal_strlit("bass-8b");
    reveal_strlit("bass8b");
    reveal_strlit("bass-15a");
    reveal_strlit("bass-15b");
    assert("bass"@.len() == 4 && "percussion"@.len() == 10 && "treble"@.len() == 6);
    assert("alto"@.len() == 4 && "tenor"@.len() == 5);
    assert("treble-8a"@.len() == 9 && "treble8a"@.len() == 8 && "treble-8b"@.len() == 9);
    assert("treble8b"@.len() == 8 && "treble-8"@.len() == 8 && "treble8"@.len() == 7);
    assert("treble-15a"@.len() == 10 && "treble-15b"@.len() == 10);
    assert("bass-8a"@.len() == 7 && "bass8a"@.len() == 6 && "bass-8b"@.len() == 7);
    assert("bass8b"@.len() == 6 && "bass-15a"@.len() == 8 && "bass-15b"@.len() == 8);
    assert("bass-8a"@[0] != "treble8"@[0]);
    assert("bass-8b"@[0] != "treble8"@[0]);
    assert("bass-15a"@[0] != "treble8a"@[0] && "bass-15a"@[0] != "treble8b"@[0] && "bass-15a"@[0]
        != "treble-8"@[0]);
    assert("bass-15b"@[0] != "treble8a"@[0] && "bass-15b"@[0] != "treble8b"@[0] && "bass-15b"@[0]
        != "treble-8"@[0]);
    assert("bass8a"@[0] != "treble"@[0] && "bass8b"@[0] != "treble"@[0]);
}

/// Every accidental of a key signature sits within the staff (no ledger
/// lines) and on a line or space of the note it alters, in every clef; an
/// octave variant of a clef places its key signature as its base clef does.
pub proof fn key_signature_placement(clef: Seq<char>, i: int)
    requires
        0 <= i < 7,
    ensures
        -1 <= spec_sharp_positions(clef)[i] <= 9,
        -1 <= spec_flat_positions(clef)[i] <= 9,
        spec_ledger_lines(spec_sharp_positions(clef)[i] as int).0 == 0,
        spec_ledger_lines(spec_flat_positions(clef)[i] as int).0 == 0,
        on_letter(clef, sharp_order()[i], spec_sharp_positions(clef)[i] as int),
        on_letter(clef, flat_order()[i], spec_flat_positions(clef)[i] as int),
        spec_sharp_positions(clef) == spec_sharp_positions(spec_base_clef(clef)),
        spec_flat_positions(clef) == spec_flat_positions(spec_base_clef(clef)),
{
    lemma_letter_indices();
    lemma_clef_names_differ();
    lemma_base_names_are_bases();
    lemma_bass_variants_apart(clef);
    let top = spec_clef_top_line_diatonic(clef);
    if is_bass_family(clef) {
        assert(top == 26);
    } else if clef == "alto"@ {
        assert(top == 32);
    } else if clef == "tenor"@ {
        assert(top == 30);
    } else {
        assert(top == 38);
    }
    let sl = spec_note_to_diatonic(sharp_order()[i]);
    let fl = spec_note_to_diatonic(flat_order()[i]);
    if i == 0 {
        assert(sl == 3 && fl == 6);
    } else if i == 1 {
        assert(sl == 0 && fl == 2);
    } else if i == 2 {
        assert(sl == 4 && fl == 5);
    } else if i == 3 {
        assert(sl == 1 && fl == 1);
    } else if i == 4 {
        assert(sl == 5 && fl == 4);
    } else if i == 5 {
        assert(sl == 2 && fl == 0);
    } else {
        assert(sl == 6 && fl == 3);
    }
}

/// A key signature alters as many notes as its accidental count says, each
/// note at most once, all with the same accidental.
pub proof fn key_signature_notes_distinct(key: Seq<char>)
    ensures
        spec_key_sig_accidentals(key).len() == if spec_key_sig_accidental_count(key) >= 0 {
            spec_key_sig_accidental_count(key)
        } else {
            -spec_key_sig_accidental_count(key)
        },
        spec_key_sig_accidental_count(key) <= 7,
        spec_key_sig_accidental_count(key) >= -7,
        forall|i: int, j: int|
            0 <= i < j < spec_key_sig_accidentals(key).len() ==> (
            #[trigger] spec_key_sig_accidentals(key)[i]).0 != (
            #[trigger] spec_key_sig_accidentals(key)[j]).0,
        forall|i: int, j: int|
            0 <= i < j < spec_key_sig_accidentals(key).len() ==> (
            #[trigger] spec_key_sig_accidentals(key)[i]).1 == (
            #[trigger] spec_key_sig_accidentals(key)[j]).1,
{
    reveal_strlit("f");
    reveal_strlit("c");
    reveal_strlit("g");
    reveal_strlit("d");
    reveal_strlit("a");
    reveal_strlit("e");
    reveal_strlit("b");
    let a = spec_key_sig_accidentals(key);
    assert forall|i: int, j: int| 0 <= i < j < a.len() implies (#[trigger] a[i]).0 != (
    #[trigger] a[j]).0 by {
        if spec_key_sig_accidental_count(key) > 0 {
            assert(sharp_order()[i] != sharp_order()[j]) by {
                assert(sharp_order()[i].len() == 1 && sharp_order()[j].len() == 1);
                assert(sharp_order()[i][0] != sharp_order()[j][0]);
            }
        } else {
            assert(flat_order()[i] != flat_order()[j]) by {
                assert(flat_order()[i].len() == 1 && flat_order()[j].len() == 1);
                assert(flat_order()[i][0] != flat_order()[j][0]);
            }
        }
    }
}

/// Ledger lines lie on line positions outside the staff, one per line between
/// the staff and the note, the outermost on the note's line or on the line
/// next to the note's space; notes inside the staff get none.
pub proof fn ledger_lines_reach_the_note(p: int)
    requires
        i32::MIN < p <= i32::MAX,
    ensures
        ({
            let ls = spec_ledger_positions(p);
            &&& ls.len() > 0 <==> (p <= -2 || p >= 10)
            &&& forall|i: int|
                0 <= i < ls.len() ==> (#[trigger] ls[i]) % 2 == 0 && (ls[i] <= -2 || ls[i] >= 10)
            &&& p <= -2 ==> ls.last() == p || ls.last() == p + 1
            &&& p >= 10 ==> ls.last() == p || ls.last() == p - 1
        }),
{
}

/// Top-line diatonic number of a supported clef, read from its first two
/// letters: "tr" (treble family) and "p" (percussion) 38, "te" (tenor) 30,
/// "b" (bass family) 26, "a" (alto) 32.
pub open spec fn top_line_by_prefix(c0: char, c1: char) -> int {
    if c0 == 'b' {
        26
    } else if c0 == 'a' {
        32
    } else if c0 == 't' && c1 == 'e' {
        30
    } else {
        38
    }
}

/// A supported clef name is ASCII, has at least four letters, and its first
/// two letters decide the top line of its base clef.
pub proof fn lemma_supported_clef_prefix(c: Seq<char>)
    requires
        spec_is_supported_clef(c),
    ensures
        c.len() >= 4,
        vstd::utf8::is_ascii_chars(c),
        spec_clef_top_line_diatonic(spec_base_clef(c)) == top_line_by_prefix(c[0], c[1]),
{
    lemma_bass_variants_apart(c);
    reveal_strlit("treble");
    reveal_strlit("bass");
    reveal_strlit("alto");
    reveal_strlit("tenor");
    reveal_strlit("percussion");
    reveal_strlit("treble-8a");
    reveal_strlit("treble8a");
    reveal_strlit("treble-8b");
    reveal_strlit("treble8b");
    reveal_strlit("treble-8");
    reveal_strlit("treble8");
    reveal_strlit("treble-15a");
    reveal_strlit("treble-15b");
    reveal_strlit("bass-8a");
    reveal_strlit("bass8a");
    reveal_strlit("bass-8b");
    reveal_strlit("bass8b");
    reveal_strlit("bass-15a");
    reveal_strlit("bass-15b");
    assert("bass"@.len() == 4 && "percussion"@.len() == 10 && "treble"@.len() == 6);
    assert("alto"@.len() == 4 && "tenor"@.len() == 5);
    assert("treble-8a"@.len() == 9 && "treble8a"@.len() == 8 && "treble-8b"@.len() == 9);
    assert("treble8b"@.len() == 8 && "treble-8"@.len() == 8 && "treble8"@.len() == 7);
    assert("treble-15a"@.len() == 10 && "treble-15b"@.len() == 10);
    assert("alto"@[0] == 'a' && "bass"@[0] == 'b' && "percussion"@[0] == 'p');
    assert("treble"@[0] == 't' && "treble-15a"@[0] == 't' && "treble-15b"@[0] == 't');
    assert("bass8a"@[0] == 'b' && "bass8b"@[0] == 'b');
    assert("treble"@ != "percussion"@ && "alto"@ != "treble"@ && "alto"@ != "percussion"@);
    assert(!is_treble_variant("alto"@) && !is_bass_variant("alto"@) && "alto"@ != "bass"@);
    assert(!is_treble_variant("percussion"@) && !is_bass_variant("percussion"@));
    assert(!is_treble_variant("bass"@) && !is_bass_variant("bass"@));
    assert(!is_treble_variant("treble"@) && !is_bass_variant("treble"@));
}

/// Place of a key letter on the circle of fifths, counted from C: F -1, C 0,
/// G 1, D 2, A 3, E 4, B 5 (either case).
pub open spec fn letter_fifths(l: char) -> int {
    if l == 'F' || l == 'f' {
        -1
    } else if l == 'G' || l == 'g' {
        1
    } else if l == 'D' || l == 'd' {
        2
    } else if l == 'A' || l == 'a' {
        3
    } else if l == 'E' || l == 'e' {
        4
    } else if l == 'B' || l == 'b' {
        5
    } else {
        0
    }
}

/// A key letter: an upper-case letter names a major key, a lower-case one a
/// minor key.
pub open spec fn is_key_letter(l: char) -> bool {
    ||| l == 'C' || l == 'D' || l == 'E' || l == 'F' || l == 'G' || l == 'A' || l == 'B'
    ||| l == 'c' || l == 'd' || l == 'e' || l == 'f' || l == 'g' || l == 'a' || l == 'b'
}

/// The key's place on the circle of fifths: the letter's place, seven further
/// for a sharp and seven back for a flat, and three back for a minor key (the
/// relative major lies three fifths above).
pub open spec fn key_fifths(l: char, acc: Seq<char>) -> int {
    letter_fifths(l) + (if acc.len() == 1 && acc[0] == '#' {
        7int
    } else if acc.len() == 1 && acc[0] == 'b' {
        -7int
    } else {
        0int
    }) - (if 'a' <= l && l <= 'z' {
        3int
    } else {
        0int
    })
}

/// The letters of the key names a key signature is known for.
proof fn lemma_key_names()
    ensures
        "C"@.len() == 1 && "C"@[0] == 'C',
        "G"@.len() == 1 && "G"@[0] == 'G',
        "D"@.len() == 1 && "D"@[0] == 'D',
        "A"@.len() == 1 && "A"@[0] == 'A',
        "E"@.len() == 1 && "E"@[0] == 'E',
        "B"@.len() == 1 && "B"@[0] == 'B',
        "F#"@.len() == 2 && "F#"@[0] == 'F' && "F#"@[1] == '#',
        "C#"@.len() == 2 && "C#"@[0] == 'C' && "C#"@[1] == '#',
        "F"@.len() == 1 && "F"@[0] == 'F',
        "Bb"@.len() == 2 && "Bb"@[0] == 'B' && "Bb"@[1] == 'b',
        "Eb"@.len() == 2 && "Eb"@[0] == 'E' && "Eb"@[1] == 'b',
        "Ab"@.len() == 2 && "Ab"@[0] == 'A' && "Ab"@[1] == 'b',
        "Db"@.len() == 2 && "Db"@[0] == 'D' && "Db"@[1] == 'b',
        "Gb"@.len() == 2 && "Gb"@[0] == 'G' && "Gb"@[1] == 'b',
        "Cb"@.len() == 2 && "Cb"@[0] == 'C' && "Cb"@[1] == 'b',
        "a"@.len() == 1 && "a"@[0] == 'a',
        "e"@.len() == 1 && "e"@[0] == 'e',
        "b"@.len() == 1 && "b"@[0] == 'b',
        "f#"@.len() == 2 && "f#"@[0] == 'f' && "f#"@[1] == '#',
        "c#"@.len() == 2 && "c#"@[0] == 'c' && "c#"@[1] == '#',
        "g#"@.len() == 2 && "g#"@[0] == 'g' && "g#"@[1] == '#',
        "d#"@.len() == 2 && "d#"@[0] == 'd' && "d#"@[1] == '#',
        "a#"@.len() == 2 && "a#"@[0] == 'a' && "a#"@[1] == '#',
        "d"@.len() == 1 && "d"@[0] == 'd',
        "g"@.len() == 1 && "g"@[0] == 'g',
        "c"@.len() == 1 && "c"@[0] == 'c',
        "f"@.len() == 1 && "f"@[0] == 'f',
        "bb"@.len() == 2 && "bb"@[0] == 'b' && "bb"@[1] == 'b',
        "eb"@.len() == 2 && "eb"@[0] == 'e' && "eb"@[1] == 'b',
        "ab"@.len() == 2 && "ab"@[0] == 'a' && "ab"@[1] == 'b',
{
    reveal_strlit("C");
    reveal_strlit("G");
    reveal_strlit("D");
    reveal_strlit("A");
    reveal_strlit("E");
    reveal_strlit("B");
    reveal_strlit("F#");
    reveal_strlit("C#");
    reveal_strlit("F");
    reveal_strlit("Bb");
    reveal_strlit("Eb");
    reveal_strlit("Ab");
    reveal_strlit("Db");
    reveal_strlit("Gb");
    reveal_strlit("Cb");
    reveal_strlit("a");
    reveal_strlit("e");
    reveal_strlit("b");
    reveal_strlit("f#");
    reveal_strlit("c#");
    reveal_strlit("g#");
    reveal_strlit("d#");
    reveal_strlit("a#");
    reveal_strlit("d");
    reveal_strlit("g");
    reveal_strlit("c");
    reveal_strlit("f");
    reveal_strlit("bb");
    reveal_strlit("eb");
    reveal_strlit("ab");
}

proof fn lemma_key_letter_upper_c(l: char)
    requires
        l == 'C',
    ensures
        spec_key_sig_accidental_count(seq![l]) == key_count_by_fifths(l, seq![]),
        spec_key_sig_accidental_count(seq![l, '#']) == key_count_by_fifths(l, seq!['#']),
        spec_key_sig_accidental_count(seq![l, 'b']) == key_count_by_fifths(l, seq!['b']),
{
    lemma_key_names();
    let k0 = seq![l];
    let k1 = seq![l, '#'];
    let k2 = seq![l, 'b'];
    assert(k0 =~= "C"@);
    assert(k1 =~= "C#"@);
    assert(k2 =~= "Cb"@);
}

proof fn lemma_key_letter_upper_d(l: char)
    requires
        l == 'D',
    ensures
        spec_key_sig_accidental_count(seq![l]) == key_count_by_fifths(l, seq![]),
        spec_key_sig_accidental_count(seq![l, '#']) == key_count_by_fifths(l, seq!['#']),
        spec_key_sig_accidental_count(seq![l, 'b']) == key_count_by_fifths(l, seq!['b']),
{
    lemma_key_names();
    let k0 = seq![l];
    let k1 = seq![l, '#'];
    let k2 = seq![l, 'b'];
    assert(k0 =~= "D"@);
    assert(k2 =~= "Db"@);
}

proof fn lemma_key_letter_upper_e(l: char)
    requires
        l == 'E',
    ensures
        spec_key_sig_accidental_count(seq![l]) == key_count_by_fifths(l, seq![]),
        spec_key_sig_accidental_count(seq![l, '#']) == key_count_by_fifths(l, seq!['#']),
        spec_key_sig_accidental_count(seq![l, 'b']) == key_count_by_fifths(l, seq!['b']),
{
    lemma_key_names();
    let k0 = seq![l];
    let k1 = seq![l, '#'];
    let k2 = seq![l, 'b'];
    assert(k0 =~= "E"@);
    assert(k2 =~= "Eb"@);
}

proof fn lemma_key_letter_upper_f(l: char)
    requires
        l == 'F',
    ensures
        spec_key_sig_accidental_count(seq![l]) == key_count_by_fifths(l, seq![]),
        spec_key_sig_accidental_count(seq![l, '#']) == key_count_by_fifths(l, seq!['#']),
        spec_key_sig_accidental_count(seq![l, 'b']) == key_count_by_fifths(l, seq!['b']),
{
    lemma_key_names();
    let k0 = seq![l];
    let k1 = seq![l, '#'];
    let k2 = seq![l, 'b'];
    assert(k0 =~= "F"@);
    assert(k1 =~= "F#"@);
}

proof fn lemma_key_letter_upper_g(l: char)
    requires
        l == 'G',
    ensures
        spec_key_sig_accidental_count(seq![l]) == key_count_by_fifths(l, seq![]),
        spec_key_sig_accidental_count(seq![l, '#']) == key_count_by_fifths(l, seq!['#']),
        spec_key_sig_accidental_count(seq![l, 'b']) == key_count_by_fifths(l, seq!['b']),
{
    lemma_key_names();
    let k0 = seq![l];
    let k1 = seq![l, '#'];
    let k2 = seq![l, 'b'];
    assert(k0 =~= "G"@);
    assert(k2 =~= "Gb"@);
}

proof fn lemma_key_letter_upper_a(l: char)
    requires
        l == 'A',
    ensures
        spec_key_sig_accidental_count(seq![l]) == key_count_by_fifths(l, seq![]),
        spec_key_sig_accidental_count(seq![l, '#']) == key_count_by_fifths(l, seq!['#']),
        spec_key_sig_accidental_count(seq![l, 'b']) == key_count_by_fifths(l, seq!['b']),
{
    lemma_key_names();
    let k0 = seq![l];
    let k1 = seq![l, '#'];
    let k2 = seq![l, 'b'];
    assert(k0 =~= "A"@);
    assert(k2 =~= "Ab"@);
}

proof fn lemma_key_letter_upper_b(l: char)
    requires
        l == 'B',
    ensures
        spec_key_sig_accidental_count(seq![l]) == key_count_by_fifths(l, seq![]),
        spec_key_sig_accidental_count(seq![l, '#']) == key_count_by_fifths(l, seq!['#']),
        spec_key_sig_accidental_count(seq![l, 'b']) == key_count_by_fifths(l, seq!['b']),
{
    lemma_key_names();
    let k0 = seq![l];
    let k1 = seq![l, '#'];
    let k2 = seq![l, 'b'];
    assert(k0 =~= "B"@);
    assert(k2 =~= "Bb"@);
}

proof fn lemma_key_letter_lower_c(l: char)
    requires
        l == 'c',
    ensures
        spec_key_sig_accidental_count(seq![l]) == key_count_by_fifths(l, seq![]),
        spec_key_sig_accidental_count(seq![l, '#']) == key_count_by_fifths(l, seq!['#']),
        spec_key_sig_accidental_count(seq![l, 'b']) == key_count_by_fifths(l, seq!['b']),
{
    lemma_key_names();
    let k0 = seq![l];
    let k1 = seq![l, '#'];
    let k2 = seq![l, 'b'];
    assert(k0 =~= "c"@);
    assert(k1 =~= "c#"@);
}

proof fn lemma_key_letter_lower_d(l: char)
    requires
        l == 'd',
    ensures
        spec_key_sig_accidental_count(seq![l]) == key_count_by_fifths(l, seq![]),
        spec_key_sig_accidental_count(seq![l, '#']) == key_count_by_fifths(l, seq!['#']),
        spec_key_sig_accidental_count(seq![l, 'b']) == key_count_by_fifths(l, seq!['b']),
{
    lemma_key_names();
    let k0 = seq![l];
    let k1 = seq![l, '#'];
    let k2 = seq![l, 'b'];
    assert(k0 =~= "d"@);
    assert(k1 =~= "d#"@);
}

proof fn lemma_key_letter_lower_e(l: char)
    requires
        l == 'e',
    ensures
        spec_key_sig_accidental_count(seq![l]) == key_count_by_fifths(l, seq![]),
        spec_key_sig_accidental_count(seq![l, '#']) == key_count_by_fifths(l, seq!['#']),
        spec_key_sig_accidental_count(seq![l, 'b']) == key_count_by_fifths(l, seq!['b']),
{
    lemma_key_names();
    let k0 = seq![l];
    let k1 = seq![l, '#'];
    let k2 = seq![l, 'b'];
    assert(k0 =~= "e"@);
    assert(k2 =~= "eb"@);
}

proof fn lemma_key_letter_lower_f(l: char)
    requires
        l == 'f',
    ensures
        spec_key_sig_accidental_count(seq![l]) == key_count_by_fifths(l, seq![]),
        spec_key_sig_accidental_count(seq![l, '#']) == key_count_by_fifths(l, seq!['#']),
        spec_key_sig_accidental_count(seq![l, 'b']) == key_count_by_fifths(l, seq!['b']),
{
    lemma_key_names();
    let k0 = seq![l];
    let k1 = seq![l, '#'];
    let k2 = seq![l, 'b'];
    assert(k0 =~= "f"@);
    assert(k1 =~= "f#"@);
}

proof fn lemma_key_letter_lower_g(l: char)
    requires
        l == 'g',
    ensures
        spec_key_sig_accidental_count(seq![l]) == key_count_by_fifths(l, seq![]),
        spec_key_sig_accidental_count(seq![l, '#']) == key_count_by_fifths(l, seq!['#']),
        spec_key_sig_accidental_count(seq![l, 'b']) == key_count_by_fifths(l, seq!['b']),
{
    lemma_key_names();
    let k0 = seq![l];
    let k1 = seq![l, '#'];
    let k2 = seq![l, 'b'];
    assert(k0 =~= "g"@);
    assert(k1 =~= "g#"@);
}

proof fn lemma_key_letter_lower_a(l: char)
    requires
        l == 'a',
    ensures
        spec_key_sig_accidental_count(seq![l]) == key_count_by_fifths(l, seq![]),
        spec_key_sig_accidental_count(seq![l, '#']) == key_count_by_fifths(l, seq!['#']),
        spec_key_sig_accidental_count(seq![l, 'b']) == key_count_by_fifths(l, seq!['b']),
{
    lemma_key_names();
    let k0 = seq![l];
    let k1 = seq![l, '#'];
    let k2 = seq![l, 'b'];
    assert(k0 =~= "a"@);
    assert(k1 =~= "a#"@);
    assert(k2 =~= "ab"@);
}

proof fn lemma_key_letter_lower_b(l: char)
    requires
        l == 'b',
    ensures
        spec_key_sig_accidental_count(seq![l]) == key_count_by_fifths(l, seq![]),
        spec_key_sig_accidental_count(seq![l, '#']) == key_count_by_fifths(l, seq!['#']),
        spec_key_sig_accidental_count(seq![l, 'b']) == key_count_by_fifths(l, seq!['b']),
{
    lemma_key_names();
    let k0 = seq![l];
    let k1 = seq![l, '#'];
    let k2 = seq![l, 'b'];
    assert(k0 =~= "b"@);
    assert(k2 =~= "bb"@);
}

/// The count a key's place on the circle of fifths gives: that place when it
/// lies within seven sharps or flats, 0 (no key signature) otherwise.
pub open spec fn key_count_by_fifths(l: char, acc: Seq<char>) -> int {
    let v = key_fifths(l, acc);
    if -7 <= v <= 7 {
        v
    } else {
        0
    }
}

/// Key signatures follow the circle of fifths: each major key has one sharp
/// more (one flat fewer) than the major key a fifth below it, starting from C
/// with none, a sharp raises the count by seven and a flat lowers it by seven,
/// and each minor key has the count of its relative major (three fifths
/// above); names beyond seven sharps or flats get no key signature.
pub proof fn key_signatures_follow_the_circle_of_fifths(l: char, acc: Seq<char>)
    requires
        is_key_letter(l),
        acc.len() <= 1,
        acc.len() == 1 ==> acc[0] == '#' || acc[0] == 'b',
    ensures
        spec_key_sig_accidental_count(seq![l] + acc) == key_count_by_fifths(l, acc),
{
    let key = seq![l] + acc;
    if acc.len() == 0 {
        assert(key =~= seq![l]);
        assert(acc =~= seq![]);
    } else if acc[0] == '#' {
        assert(key =~= seq![l, '#']);
        assert(acc =~= seq!['#']);
    } else {
        assert(key =~= seq![l, 'b']);
        assert(acc =~= seq!['b']);
    }
    if l == 'C' {
        lemma_key_letter_upper_c(l);
    } else if l == 'D' {
        lemma_key_letter_upper_d(l);
    } else if l == 'E' {
        lemma_key_letter_upper_e(l);
    } else if l == 'F' {
        lemma_key_letter_upper_f(l);
    } else if l == 'G' {
        lemma_key_letter_upper_g(l);
    } else if l == 'A' {
        lemma_key_letter_upper_a(l);
    } else if l == 'B' {
        lemma_key_letter_upper_b(l);
    } else if l == 'c' {
        lemma_key_letter_lower_c(l);
    } else if l == 'd' {
        lemma_key_letter_lower_d(l);
    } else if l == 'e' {
        lemma_key_letter_lower_e(l);
    } else if l == 'f' {
        lemma_key_letter_lower_f(l);
    } else if l == 'g' {
        lemma_key_letter_lower_g(l);
    } else if l == 'a' {
        lemma_key_letter_lower_a(l);
    } else if l == 'b' {
        lemma_key_letter_lower_b(l);
    }
}

} // verus!
