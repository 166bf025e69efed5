//! SMuFL code points and glyph names for the symbols the renderer draws.

use vstd::prelude::*;
use crate::events::{DURATION_BREVE, DURATION_LONGA, DURATION_MAXIMA};
use crate::text::str_eq;

verus! {

// ─── Noteheads ─────────────────────────────────────────────────────────

/// Notehead code point: mensural white maxima/longa, double-whole for a breve,
/// whole, half, and black for every shorter value.
pub open spec fn spec_notehead_codepoint(duration: i32) -> u32 {
    if duration == DURATION_MAXIMA {
        0xE95C
    } else if duration == DURATION_LONGA {
        0xE95D
    } else if duration == DURATION_BREVE {
        0xE0A0
    } else if duration == 1 {
        0xE0A2
    } else if duration == 2 {
        0xE0A3
    } else {
        0xE0A4
    }
}

/// SMuFL name of the notehead for a duration.
pub open spec fn spec_notehead_smufl(duration: i32) -> Seq<char> {
    if duration == DURATION_MAXIMA {
        "mensuralWhiteMaxima"@
    } else if duration == DURATION_LONGA {
        "mensuralWhiteLonga"@
    } else if duration == DURATION_BREVE {
        "noteheadDoubleWhole"@
    } else if duration == 1 {
        "noteheadWhole"@
    } else if duration == 2 {
        "noteheadHalf"@
    } else {
        "noteheadBlack"@
    }
}

/// Code point of the notehead for a duration.
pub fn notehead_codepoint(duration: i32) -> (r: u32)
    ensures
        r == spec_notehead_codepoint(duration),
{
    if duration == DURATION_MAXIMA {
        0xE95C
    } else if duration == DURATION_LONGA {
        0xE95D
    } else if duration == DURATION_BREVE {
        0xE0A0
    } else if duration == 1 {
        0xE0A2
    } else if duration == 2 {
        0xE0A3
    } else {
        0xE0A4
    }
}

/// SMuFL name of the notehead for a duration.
pub fn notehead_smufl(duration: i32) -> (r: &'static str)
    ensures
        r@ == spec_notehead_smufl(duration),
{
    if duration == DURATION_MAXIMA {
        "mensuralWhiteMaxima"
    } else if duration == DURATION_LONGA {
        "mensuralWhiteLonga"
    } else if duration == DURATION_BREVE {
        "noteheadDoubleWhole"
    } else if duration == 1 {
        "noteheadWhole"
    } else if duration == 2 {
        "noteheadHalf"
    } else {
        "noteheadBlack"
    }
}

// ─── Rests ─────────────────────────────────────────────────────────────

/// Rest code point for a duration; unknown durations draw a quarter rest.
pub open spec fn spec_rest_codepoint(duration: i32) -> u32 {
    if duration == DURATION_MAXIMA {
        0xE4E0
    } else if duration == DURATION_LONGA {
        0xE4E1
    } else if duration == DURATION_BREVE {
        0xE4E2
    } else if duration == 1 {
        0xE4E3
    } else if duration == 2 {
        0xE4E4
    } else if duration == 4 {
        0xE4E5
    } else if duration == 8 {
        0xE4E6
    } else if duration == 16 {
        0xE4E7
    } else if duration == 32 {
        0xE4E8
    } else if duration == 64 {
        0xE4E9
    } else {
        0xE4E5
    }
}

/// SMuFL name of the rest for a duration; unknown durations give the quarter rest.
pub open spec fn spec_rest_smufl(duration: i32) -> Seq<char> {
    if duration == DURATION_MAXIMA {
        "restMaxima"@
    } else if duration == DURATION_LONGA {
        "restLonga"@
    } else if duration == DURATION_BREVE {
        "restDoubleWhole"@
    } else if duration == 1 {
        "restWhole"@
    } else if duration == 2 {
        "restHalf"@
    } else if duration == 4 {
        "restQuarter"@
    } else if duration == 8 {
        "rest8th"@
    } else if duration == 16 {
        "rest16th"@
    } else if duration == 32 {
        "rest32nd"@
    } else if duration == 64 {
        "rest64th"@
    } else {
        "restQuarter"@
    }
}

/// Code point of the rest for a duration.
pub fn rest_codepoint(duration: i32) -> (r: u32)
    ensures
        r == spec_rest_codepoint(duration),
{
    if duration == DURATION_MAXIMA {
        0xE4E0
    } else if duration == DURATION_LONGA {
        0xE4E1
    } else if duration == DURATION_BREVE {
        0xE4E2
    } else if duration == 1 {
        0xE4E3
    } else if duration == 2 {
        0xE4E4
    } else if duration == 4 {
        0xE4E5
    } else if duration == 8 {
        0xE4E6
    } else if duration == 16 {
        0xE4E7
    } else if duration == 32 {
        0xE4E8
    } else if duration == 64 {
        0xE4E9
    } else {
        0xE4E5
    }
}

/// SMuFL name of the rest for a duration.
pub fn rest_smufl(duration: i32) -> (r: &'static str)
    ensures
        r@ == spec_rest_smufl(duration),
{
    if duration == DURATION_MAXIMA {
        "restMaxima"
    } else if duration == DURATION_LONGA {
        "restLonga"
    } else if duration == DURATION_BREVE {
        "restDoubleWhole"
    } else if duration == 1 {
        "restWhole"
    } else if duration == 2 {
        "restHalf"
    } else if duration == 4 {
        "restQuarter"
    } else if duration == 8 {
        "rest8th"
    } else if duration == 16 {
        "rest16th"
    } else if duration == 32 {
        "rest32nd"
    } else if duration == 64 {
        "rest64th"
    } else {
        "restQuarter"
    }
}

// ─── Flags ─────────────────────────────────────────────────────────────

/// Flag code point for an eighth to a 64th note with stem "up" or "down";
/// none for other durations or directions.
pub open spec fn spec_flag_codepoint(duration: i32, stem_dir: Seq<char>) -> Option<u32> {
    if stem_dir == "up"@ {
        if duration == 8 {
            Some(0xE240u32)
        } else if duration == 16 {
            Some(0xE242u32)
        } else if duration == 32 {
            Some(0xE244u32)
        } else if duration == 64 {
            Some(0xE246u32)
        } else {
            None
        }
    } else if stem_dir == "down"@ {
        if duration == 8 {
            Some(0xE241u32)
        } else if duration == 16 {
            Some(0xE243u32)
        } else if duration == 32 {
            Some(0xE245u32)
        } else if duration == 64 {
            Some(0xE247u32)
        } else {
            None
        }
    } else {
        None
    }
}

/// SMuFL name of the flag for a duration and stem direction.
pub open spec fn spec_flag_smufl(duration: i32, stem_dir: Seq<char>) -> Option<Seq<char>> {
    if stem_dir == "up"@ {
        if duration == 8 {
            Some("flag8thUp"@)
        } else if duration == 16 {
            Some("flag16thUp"@)
        } else if duration == 32 {
            Some("flag32ndUp"@)
        } else if duration == 64 {
            Some("flag64thUp"@)
        } else {
            None
        }
    } else if stem_dir == "down"@ {
        if duration == 8 {
            Some("flag8thDown"@)
        } else if duration == 16 {
            Some("flag16thDown"@)
        } else if duration == 32 {
            Some("flag32ndDown"@)
        } else if duration == 64 {
            Some("flag64thDown"@)
        } else {
            None
        }
    } else {
        None
    }
}

/// View of an optional static string.
pub open spec fn opt_static_view(o: Option<&'static str>) -> Option<Seq<char>> {
    match o {
        Some(s) => Some(s@),
        None => None,
    }
}

/// Code point of the flag for a duration and stem direction, if it has one.
pub fn flag_codepoint(duration: i32, stem_dir: &str) -> (r: Option<u32>)
    ensures
        r == spec_flag_codepoint(duration, stem_dir@),
{
    if str_eq(stem_dir, "up") {
        if duration == 8 {
            Some(0xE240)
        } else if duration == 16 {
            Some(0xE242)
        } else if duration == 32 {
            Some(0xE244)
        } else if duration == 64 {
            Some(0xE246)
        } else {
            None
        }
    } else if str_eq(stem_dir, "down") {
        if duration == 8 {
            Some(0xE241)
        } else if duration == 16 {
            Some(0xE243)
        } else if duration == 32 {
            Some(0xE245)
        } else if duration == 64 {
            Some(0xE247)
        } else {
            None
        }
    } else {
        None
    }
}

/// SMuFL name of the flag for a duration and stem direction, if it has one.
pub fn flag_smufl(duration: i32, stem_dir: &str) -> (r: Option<&'static str>)
    ensures
        opt_static_view(r) == spec_flag_smufl(duration, stem_dir@),
{
    if str_eq(stem_dir, "up") {
        if duration == 8 {
            Some("flag8thUp")
        } else if duration == 16 {
            Some("flag16thUp")
        } else if duration == 32 {
            Some("flag32ndUp")
        } else if duration == 64 {
            Some("flag64thUp")
        } else {
            None
        }
    } else if str_eq(stem_dir, "down") {
        if duration == 8 {
            Some("flag8thDown")
        } else if duration == 16 {
            Some("flag16thDown")
        } else if duration == 32 {
            Some("flag32ndDown")
        } else if duration == 64 {
            Some("flag64thDown")
        } else {
            None
        }
    } else {
        None
    }
}

// ─── Accidentals ───────────────────────────────────────────────────────

/// Accidental code point by name; none for unknown names.
pub open spec fn spec_accidental_codepoint(acc: Seq<char>) -> Option<u32> {
    if acc == "sharp"@ {
        Some(0xE262u32)
    } else if acc == "flat"@ {
        Some(0xE260u32)
    } else if acc == "natural"@ {
        Some(0xE261u32)
    } else if acc == "double-sharp"@ {
        Some(0xE263u32)
    } else if acc == "double-flat"@ {
        Some(0xE264u32)
    } else {
        None
    }
}

/// SMuFL name of an accidental; none for unknown names.
pub open spec fn spec_accidental_smufl(acc: Seq<char>) -> Option<Seq<char>> {
    if acc == "sharp"@ {
        Some("accidentalSharp"@)
    } else if acc == "flat"@ {
        Some("accidentalFlat"@)
    } else if acc == "natural"@ {
        Some("accidentalNatural"@)
    } else if acc == "double-sharp"@ {
        Some("accidentalDoubleSharp"@)
    } else if acc == "double-flat"@ {
        Some("accidentalDoubleFlat"@)
    } else {
        None
    }
}

/// Code point of an accidental, if the name is known.
pub fn accidental_codepoint(acc: &str) -> (r: Option<u32>)
    ensures
        r == spec_accidental_codepoint(acc@),
{
    if str_eq(acc, "sharp") {
        Some(0xE262)
    } else if str_eq(acc, "flat") {
        Some(0xE260)
    } else if str_eq(acc, "natural") {
        Some(0xE261)
    } else if str_eq(acc, "double-sharp") {
        Some(0xE263)
    } else if str_eq(acc, "double-flat") {
        Some(0xE264)
    } else {
        None
    }
}

/// SMuFL name of an accidental, if the name is known.
pub fn accidental_smufl(acc: &str) -> (r: Option<&'static str>)
    ensures
        opt_static_view(r) == spec_accidental_smufl(acc@),
{
    if str_eq(acc, "sharp") {
        Some("accidentalSharp")
    } else if str_eq(acc, "flat") {
        Some("accidentalFlat")
    } else if str_eq(acc, "natural") {
        Some("accidentalNatural")
    } else if str_eq(acc, "double-sharp") {
        Some("accidentalDoubleSharp")
    } else if str_eq(acc, "double-flat") {
        Some("accidentalDoubleFlat")
    } else {
        None
    }
}

// ─── Clefs ─────────────────────────────────────────────────────────────

/// SMuFL name of the glyph for a clef; unknown clefs draw the G clef.
pub open spec fn spec_clef_smufl(clef: Seq<char>) -> Seq<char> {
    if clef == "treble"@ {
        "gClef"@
    } else if clef == "bass"@ {
        "fClef"@
    } else if clef == "alto"@ || clef == "tenor"@ {
        "cClef"@
    } else if clef == "treble-8a"@ || clef == "treble8a"@ {
        "gClef8va"@
    } else if clef == "treble-8b"@ || clef == "treble8b"@ || clef == "treble-8"@ || clef
        == "treble8"@ {
        "gClef8vb"@
    } else if clef == "bass-8a"@ || clef == "bass8a"@ {
        "fClef8va"@
    } else if clef == "bass-8b"@ || clef == "bass8b"@ {
        "fClef8vb"@
    } else if clef == "treble-15a"@ {
        "gClef15ma"@
    } else if clef == "treble-15b"@ {
        "gClef15mb"@
    } else if clef == "bass-15a"@ {
        "fClef15ma"@
    } else if clef == "bass-15b"@ {
        "fClef15mb"@
    } else if clef == "percussion"@ {
        "unpitchedPercussionClef1"@
    } else {
        "gClef"@
    }
}

/// Code point of the glyph for a clef; unknown clefs draw the G clef.
pub open spec fn spec_clef_codepoint(clef: Seq<char>) -> u32 {
    if clef == "treble"@ {
        0xE050
    } else if clef == "bass"@ {
        0xE062
    } else if clef == "alto"@ || clef == "tenor"@ {
        0xE05C
    } else if clef == "treble-8a"@ || clef == "treble8a"@ {
        0xE053
    } else if clef == "treble-8b"@ || clef == "treble8b"@ || clef == "treble-8"@ || clef
        == "treble8"@ {
        0xE052
    } else if clef == "bass-8a"@ || clef == "bass8a"@ {
        0xE065
    } else if clef == "bass-8b"@ || clef == "bass8b"@ {
        0xE064
    } else if clef == "treble-15a"@ {
        0xE054
    } else if clef == "treble-15b"@ {
        0xE051
    } else if clef == "bass-15a"@ {
        0xE066
    } else if clef == "bass-15b"@ {
        0xE063
    } else if clef == "percussion"@ {
        0xE069
    } else {
        0xE050
    }
}

/// SMuFL name of the glyph of a clef.
pub fn clef_smufl(clef: &str) -> (r: &'static str)
    ensures
        r@ == spec_clef_smufl(clef@),
{
    if str_eq(clef, "treble") {
        "gClef"
    } else if str_eq(clef, "bass") {
        "fClef"
    } else if str_eq(clef, "alto") || str_eq(clef, "tenor") {
        "cClef"
    } else if str_eq(clef, "treble-8a") || str_eq(clef, "treble8a") {
        "gClef8va"
    } else if str_eq(clef, "treble-8b") || str_eq(clef, "treble8b") || str_eq(clef, "treble-8")
        || str_eq(clef, "treble8") {
        "gClef8vb"
    } else if str_eq(clef, "bass-8a") || str_eq(clef, "bass8a") {
        "fClef8va"
    } else if str_eq(clef, "bass-8b") || str_eq(clef, "bass8b") {
        "fClef8vb"
    } else if str_eq(clef, "treble-15a") {
        "gClef15ma"
    } else if str_eq(clef, "treble-15b") {
        "gClef15mb"
    } else if str_eq(clef, "bass-15a") {
        "fClef15ma"
    } else if str_eq(clef, "bass-15b") {
        "fClef15mb"
    } else if str_eq(clef, "percussion") {
        "unpitchedPercussionClef1"
    } else {
        "gClef"
    }
}

/// The layout's name for a clef glyph; the same table as [`clef_smufl`].
pub fn clef_smufl_name(clef: &str) -> (r: &'static str)
    ensures
        r@ == spec_clef_smufl(clef@),
{
    if str_eq(clef, "treble") {
        "gClef"
    } else if str_eq(clef, "bass") {
        "fClef"
    } else if str_eq(clef, "alto") || str_eq(clef, "tenor") {
        "cClef"
    } else if str_eq(clef, "treble-8a") || str_eq(clef, "treble8a") {
        "gClef8va"
    } else if str_eq(clef, "treble-8b") || str_eq(clef, "treble8b") || str_eq(clef, "treble-8")
        || str_eq(clef, "treble8") {
        "gClef8vb"
    } else if str_eq(clef, "bass-8a") || str_eq(clef, "bass8a") {
        "fClef8va"
    } else if str_eq(clef, "bass-8b") || str_eq(clef, "bass8b") {
        "fClef8vb"
    } else if str_eq(clef, "treble-15a") {
        "gClef15ma"
    } else if str_eq(clef, "treble-15b") {
        "gClef15mb"
    } else if str_eq(clef, "bass-15a") {
        "fClef15ma"
    } else if str_eq(clef, "bass-15b") {
        "fClef15mb"
    } else if str_eq(clef, "percussion") {
        "unpitchedPercussionClef1"
    } else {
        "gClef"
    }
}

/// Code point of the glyph of a clef.
pub fn clef_codepoint(clef: &str) -> (r: u32)
    ensures
        r == spec_clef_codepoint(clef@),
{
    if str_eq(clef, "treble") {
        0xE050
    } else if str_eq(clef, "bass") {
        0xE062
    } else if str_eq(clef, "alto") || str_eq(clef, "tenor") {
        0xE05C
    } else if str_eq(clef, "treble-8a") || str_eq(clef, "treble8a") {
        0xE053
    } else if str_eq(clef, "treble-8b") || str_eq(clef, "treble8b") || str_eq(clef, "treble-8")
        || str_eq(clef, "treble8") {
        0xE052
    } else if str_eq(clef, "bass-8a") || str_eq(clef, "bass8a") {
        0xE065
    } else if str_eq(clef, "bass-8b") || str_eq(clef, "bass8b") {
        0xE064
    } else if str_eq(clef, "treble-15a") {
        0xE054
    } else if str_eq(clef, "treble-15b") {
        0xE051
    } else if str_eq(clef, "bass-15a") {
        0xE066
    } else if str_eq(clef, "bass-15b") {
        0xE063
    } else if str_eq(clef, "percussion") {
        0xE069
    } else {
        0xE050
    }
}

// ─── Time signatures, dynamics, articulations, markers ─────────────────

/// Code point of a time-signature digit glyph.
pub fn time_digit_codepoint(d: u32) -> (r: u32)
    requires
        d <= u32::MAX - 0xE080,
    ensures
        r == 0xE080 + d,
{
    0xE080 + d
}

/// Dynamic letter glyphs: p, m, f, r, s, z; none for other letters.
pub open spec fn spec_dynamic_codepoint(ch: char) -> Option<u32> {
    if ch == 'p' {
        Some(0xE520u32)
    } else if ch == 'm' {
        Some(0xE521u32)
    } else if ch == 'f' {
        Some(0xE522u32)
    } else if ch == 'r' {
        Some(0xE523u32)
    } else if ch == 's' {
        Some(0xE524u32)
    } else if ch == 'z' {
        Some(0xE525u32)
    } else {
        None
    }
}

/// Code point of a dynamic letter.
pub fn dynamic_codepoint(ch: char) -> (r: Option<u32>)
    ensures
        r == spec_dynamic_codepoint(ch),
{
    if ch == 'p' {
        Some(0xE520)
    } else if ch == 'm' {
        Some(0xE521)
    } else if ch == 'f' {
        Some(0xE522)
    } else if ch == 'r' {
        Some(0xE523)
    } else if ch == 's' {
        Some(0xE524)
    } else if ch == 'z' {
        Some(0xE525)
    } else {
        None
    }
}

/// Articulation glyph: the "above" glyph code point is even and the "below"
/// glyph is the next code point; none for unknown articulations.
pub open spec fn spec_articulation_base(art: Seq<char>) -> Option<u32> {
    if art == "staccato"@ {
        Some(0xE4A2u32)
    } else if art == "accent"@ {
        Some(0xE4A0u32)
    } else if art == "tenuto"@ {
        Some(0xE4A4u32)
    } else if art == "marcato"@ {
        Some(0xE4ACu32)
    } else if art == "fermata"@ {
        Some(0xE4C0u32)
    } else {
        None
    }
}

/// Articulation code point for placement above or below the note.
pub open spec fn spec_articulation_codepoint(art: Seq<char>, above: bool) -> Option<u32> {
    match spec_articulation_base(art) {
        Some(b) => Some(
            if above {
                b
            } else {
                (b + 1) as u32
            },
        ),
        None => None,
    }
}

/// Code point of an articulation placed above or below the note.
pub fn articulation_codepoint(art: &str, above: bool) -> (r: Option<u32>)
    ensures
        r == spec_articulation_codepoint(art@, above),
{
    if str_eq(art, "staccato") {
        Some(if above { 0xE4A2 } else { 0xE4A3 })
    } else if str_eq(art, "accent") {
        Some(if above { 0xE4A0 } else { 0xE4A1 })
    } else if str_eq(art, "tenuto") {
        Some(if above { 0xE4A4 } else { 0xE4A5 })
    } else if str_eq(art, "marcato") {
        Some(if above { 0xE4AC } else { 0xE4AD })
    } else if str_eq(art, "fermata") {
        Some(if above { 0xE4C0 } else { 0xE4C1 })
    } else {
        None
    }
}

/// Staff marker glyphs: breath mark, caesura, dal segno, coda.
pub open spec fn spec_staff_marker_codepoint(kind: Seq<char>) -> Option<u32> {
    if kind == "breath-mark"@ {
        Some(0xE4CEu32)
    } else if kind == "caesura"@ {
        Some(0xE4D1u32)
    } else if kind == "dal-segno"@ {
        Some(0xE047u32)
    } else if kind == "coda"@ {
        Some(0xE048u32)
    } else {
        None
    }
}

/// Code point of a staff marker (breath mark, caesura, segno, coda).
pub fn staff_marker_codepoint(kind: &str) -> (r: Option<u32>)
    ensures
        r == spec_staff_marker_codepoint(kind@),
{
    if str_eq(kind, "breath-mark") {
        Some(0xE4CE)
    } else if str_eq(kind, "caesura") {
        Some(0xE4D1)
    } else if str_eq(kind, "dal-segno") {
        Some(0xE047)
    } else if str_eq(kind, "coda") {
        Some(0xE048)
    } else {
        None
    }
}

// ─── Code point → glyph name ──────────────────────────────────────────

/// SMuFL glyph name of a code point the renderer emits; none for other code points.
pub open spec fn spec_smufl_name_for_codepoint(codepoint: u32) -> Option<Seq<char>> {
    if codepoint == 0xE0A0 {
        Some("noteheadDoubleWhole"@)
    } else if codepoint == 0xE0A2 {
        Some("noteheadWhole"@)
    } else if codepoint == 0xE0A3 {
        Some("noteheadHalf"@)
    } else if codepoint == 0xE0A4 {
        Some("noteheadBlack"@)
    } else if codepoint == 0xE95C {
        Some("mensuralWhiteMaxima"@)
    } else if codepoint == 0xE95D {
        Some("mensuralWhiteLonga"@)
    } else if codepoint == 0xE4E0 {
        Some("restMaxima"@)
    } else if codepoint == 0xE4E1 {
        Some("restLonga"@)
    } else if codepoint == 0xE4E2 {
        Some("restDoubleWhole"@)
    } else if codepoint == 0xE4E3 {
        Some("restWhole"@)
    } else if codepoint == 0xE4E4 {
        Some("restHalf"@)
    } else if codepoint == 0xE4E5 {
        Some("restQuarter"@)
    } else if codepoint == 0xE4E6 {
        Some("rest8th"@)
    } else if codepoint == 0xE4E7 {
        Some("rest16th"@)
    } else if codepoint == 0xE4E8 {
        Some("rest32nd"@)
    } else if codepoint == 0xE4E9 {
        Some("rest64th"@)
    } else if codepoint == 0xE240 {
        Some("flag8thUp"@)
    } else if codepoint == 0xE241 {
        Some("flag8thDown"@)
    } else if codepoint == 0xE242 {
        Some("flag16thUp"@)
    } else if codepoint == 0xE243 {
        Some("flag16thDown"@)
    } else if codepoint == 0xE244 {
        Some("flag32ndUp"@)
    } else if codepoint == 0xE245 {
        Some("flag32ndDown"@)
    } else if codepoint == 0xE246 {
        Some("flag64thUp"@)
    } else if codepoint == 0xE247 {
        Some("flag64thDown"@)
    } else if codepoint == 0xE260 {
        Some("accidentalFlat"@)
    } else if codepoint == 0xE261 {
        Some("accidentalNatural"@)
    } else if codepoint == 0xE262 {
        Some("accidentalSharp"@)
    } else if codepoint == 0xE263 {
        Some("accidentalDoubleSharp"@)
    } else if codepoint == 0xE264 {
        Some("accidentalDoubleFlat"@)
    } else if codepoint == 0xE050 {
        Some("gClef"@)
    } else if codepoint == 0xE051 {
        Some("gClef15mb"@)
    } else if codepoint == 0xE052 {
        Some("gClef8vb"@)
    } else if codepoint == 0xE053 {
        Some("gClef8va"@)
    } else if codepoint == 0xE054 {
        Some("gClef15ma"@)
    } else if codepoint == 0xE05C {
        Some("cClef"@)
    } else if codepoint == 0xE062 {
        Some("fClef"@)
    } else if codepoint == 0xE063 {
        Some("fClef15mb"@)
    } else if codepoint == 0xE064 {
        Some("fClef8vb"@)
    } else if codepoint == 0xE065 {
        Some("fClef8va"@)
    } else if codepoint == 0xE066 {
        Some("fClef15ma"@)
    } else if codepoint == 0xE069 {
        Some("unpitchedPercussionClef1"@)
    } else if codepoint == 0xE080 {
        Some("timeSig0"@)
    } else if codepoint == 0xE081 {
        Some("timeSig1"@)
    } else if codepoint == 0xE082 {
        Some("timeSig2"@)
    } else if codepoint == 0xE083 {
        Some("timeSig3"@)
    } else if codepoint == 0xE084 {
        Some("timeSig4"@)
    } else if codepoint == 0xE085 {
        Some("timeSig5"@)
    } else if codepoint == 0xE086 {
        Some("timeSig6"@)
    } else if codepoint == 0xE087 {
        Some("timeSig7"@)
    } else if codepoint == 0xE088 {
        Some("timeSig8"@)
    } else if codepoint == 0xE089 {
        Some("timeSig9"@)
    } else if codepoint == 0xE08A {
        Some("timeSigCommon"@)
    } else if codepoint == 0xE08B {
        Some("timeSigCutCommon"@)
    } else if codepoint == 0xE566 {
        Some("ornamentTrill"@)
    } else if codepoint == 0xEAA4 {
        Some("wiggleTrill"@)
    } else if codepoint == 0xE4CE {
        Some("breathMarkComma"@)
    } else if codepoint == 0xE4D1 {
        Some("caesura"@)
    } else if codepoint == 0xE047 {
        Some("segno"@)
    } else if codepoint == 0xE048 {
        Some("coda"@)
    } else if codepoint == 0xE000 {
        Some("brace"@)
    } else {
        None
    }
}

/// SMuFL glyph name of a code point, used to look up its metrics.
pub fn smufl_name_for_codepoint(codepoint: u32) -> (r: Option<&'static str>)
    ensures
        opt_static_view(r) == spec_smufl_name_for_codepoint(codepoint),
{
    if codepoint == 0xE0A0 {
        Some("noteheadDoubleWhole")
    } else if codepoint == 0xE0A2 {
        Some("noteheadWhole")
    } else if codepoint == 0xE0A3 {
        Some("noteheadHalf")
    } else if codepoint == 0xE0A4 {
        Some("noteheadBlack")
    } else if codepoint == 0xE95C {
        Some("mensuralWhiteMaxima")
    } else if codepoint == 0xE95D {
        Some("mensuralWhiteLonga")
    } else if codepoint == 0xE4E0 {
        Some("restMaxima")
    } else if codepoint == 0xE4E1 {
        Some("restLonga")
    } else if codepoint == 0xE4E2 {
        Some("restDoubleWhole")
    } else if codepoint == 0xE4E3 {
        Some("restWhole")
    } else if codepoint == 0xE4E4 {
        Some("restHalf")
    } else if codepoint == 0xE4E5 {
        Some("restQuarter")
    } else if codepoint == 0xE4E6 {
        Some("rest8th")
    } else if codepoint == 0xE4E7 {
        Some("rest16th")
    } else if codepoint == 0xE4E8 {
        Some("rest32nd")
    } else if codepoint == 0xE4E9 {
        Some("rest64th")
    } else if codepoint == 0xE240 {
        Some("flag8thUp")
    } else if codepoint == 0xE241 {
        Some("flag8thDown")
    } else if codepoint == 0xE242 {
        Some("flag16thUp")
    } else if codepoint == 0xE243 {
        Some("flag16thDown")
    } else if codepoint == 0xE244 {
        Some("flag32ndUp")
    } else if codepoint == 0xE245 {
        Some("flag32ndDown")
    } else if codepoint == 0xE246 {
        Some("flag64thUp")
    } else if codepoint == 0xE247 {
        Some("flag64thDown")
    } else if codepoint == 0xE260 {
        Some("accidentalFlat")
    } else if codepoint == 0xE261 {
        Some("accidentalNatural")
    } else if codepoint == 0xE262 {
        Some("accidentalSharp")
    } else if codepoint == 0xE263 {
        Some("accidentalDoubleSharp")
    } else if codepoint == 0xE264 {
        Some("accidentalDoubleFlat")
    } else if codepoint == 0xE050 {
        Some("gClef")
    } else if codepoint == 0xE051 {
        Some("gClef15mb")
    } else if codepoint == 0xE052 {
        Some("gClef8vb")
    } else if codepoint == 0xE053 {
        Some("gClef8va")
    } else if codepoint == 0xE054 {
        Some("gClef15ma")
    } else if codepoint == 0xE05C {
        Some("cClef")
    } else if codepoint == 0xE062 {
        Some("fClef")
    } else if codepoint == 0xE063 {
        Some("fClef15mb")
    } else if codepoint == 0xE064 {
        Some("fClef8vb")
    } else if codepoint == 0xE065 {
        Some("fClef8va")
    } else if codepoint == 0xE066 {
        Some("fClef15ma")
    } else if codepoint == 0xE069 {
        Some("unpitchedPercussionClef1")
    } else if codepoint == 0xE080 {
        Some("timeSig0")
    } else if codepoint == 0xE081 {
        Some("timeSig1")
    } else if codepoint == 0xE082 {
        Some("timeSig2")
    } else if codepoint == 0xE083 {
        Some("timeSig3")
    } else if codepoint == 0xE084 {
        Some("timeSig4")
    } else if codepoint == 0xE085 {
        Some("timeSig5")
    } else if codepoint == 0xE086 {
        Some("timeSig6")
    } else if codepoint == 0xE087 {
        Some("timeSig7")
    } else if codepoint == 0xE088 {
        Some("timeSig8")
    } else if codepoint == 0xE089 {
        Some("timeSig9")
    } else if codepoint == 0xE08A {
        Some("timeSigCommon")
    } else if codepoint == 0xE08B {
        Some("timeSigCutCommon")
    } else if codepoint == 0xE566 {
        Some("ornamentTrill")
    } else if codepoint == 0xEAA4 {
        Some("wiggleTrill")
    } else if codepoint == 0xE4CE {
        Some("breathMarkComma")
    } else if codepoint == 0xE4D1 {
        Some("caesura")
    } else if codepoint == 0xE047 {
        Some("segno")
    } else if codepoint == 0xE048 {
        Some("coda")
    } else if codepoint == 0xE000 {
        Some("brace")
    } else {
        None
    }
}

// ─── Laws: the code point tables agree with the name tables ────────────

/// The notehead drawn for a duration is the glyph whose metrics are looked up
/// under the notehead's name.
pub proof fn notehead_tables_agree(duration: i32)
    ensures
        spec_smufl_name_for_codepoint(spec_notehead_codepoint(duration)) == Some(
            spec_notehead_smufl(duration),
        ),
{
}

/// The rest drawn for a duration is the glyph named by the rest name table.
pub proof fn rest_tables_agree(duration: i32)
    ensures
        spec_smufl_name_for_codepoint(spec_rest_codepoint(duration)) == Some(
            spec_rest_smufl(duration),
        ),
{
}

/// A flag has a code point exactly when it has a name, and the code point's
/// name is that name.
pub proof fn flag_tables_agree(duration: i32, stem_dir: Seq<char>)
    ensures
        spec_flag_codepoint(duration, stem_dir) is Some <==> spec_flag_smufl(
            duration,
            stem_dir,
        ) is Some,
        spec_flag_codepoint(duration, stem_dir) matches Some(cp) ==> spec_smufl_name_for_codepoint(
            cp,
        ) == spec_flag_smufl(duration, stem_dir),
{
}

/// An accidental has a code point exactly when it has a name, and the code
/// point's name is that name.
pub proof fn accidental_tables_agree(acc: Seq<char>)
    ensures
        spec_accidental_codepoint(acc) is Some <==> spec_accidental_smufl(acc) is Some,
        spec_accidental_codepoint(acc) matches Some(cp) ==> spec_smufl_name_for_codepoint(cp)
            == spec_accidental_smufl(acc),
{
}

/// The clef glyph drawn for a clef name is the glyph named by the clef name table.
pub proof fn clef_tables_agree(clef: Seq<char>)
    ensures
        spec_smufl_name_for_codepoint(spec_clef_codepoint(clef)) == Some(spec_clef_smufl(clef)),
{
}

/// Every digit's time-signature glyph has a name.
pub proof fn time_digit_has_name(d: u32)
    requires
        d <= 9,
    ensures
        spec_smufl_name_for_codepoint((0xE080 + d) as u32) is Some,
{
}

} // verus!
