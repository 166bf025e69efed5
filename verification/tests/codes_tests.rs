use lib::codes::{
    accidental_codepoint, accidental_smufl, articulation_codepoint, clef_codepoint, clef_smufl,
    clef_smufl_name, dynamic_codepoint, flag_codepoint, flag_smufl, notehead_codepoint,
    notehead_smufl, rest_codepoint, rest_smufl, smufl_name_for_codepoint, staff_marker_codepoint,
    time_digit_codepoint,
};
use lib::events::{DURATION_BREVE, DURATION_LONGA, DURATION_MAXIMA};
use lib::glyph::FontId;

#[test]
fn noteheads_by_duration() {
    assert_eq!(notehead_codepoint(DURATION_MAXIMA), 0xE95C);
    assert_eq!(notehead_codepoint(DURATION_LONGA), 0xE95D);
    assert_eq!(notehead_codepoint(DURATION_BREVE), 0xE0A0);
    assert_eq!(notehead_codepoint(1), 0xE0A2);
    assert_eq!(notehead_codepoint(2), 0xE0A3);
    assert_eq!(notehead_codepoint(4), 0xE0A4);
    assert_eq!(notehead_codepoint(16), 0xE0A4);
    assert_eq!(notehead_smufl(DURATION_MAXIMA), "mensuralWhiteMaxima");
    assert_eq!(notehead_smufl(1), "noteheadWhole");
    assert_eq!(notehead_smufl(2), "noteheadHalf");
    assert_eq!(notehead_smufl(8), "noteheadBlack");
    assert_eq!(notehead_smufl(-7), "noteheadBlack");
}

#[test]
fn rests_by_duration() {
    assert_eq!(rest_codepoint(DURATION_MAXIMA), 0xE4E0);
    assert_eq!(rest_codepoint(DURATION_BREVE), 0xE4E2);
    assert_eq!(rest_codepoint(1), 0xE4E3);
    assert_eq!(rest_codepoint(64), 0xE4E9);
    assert_eq!(rest_codepoint(3), 0xE4E5);
    assert_eq!(rest_smufl(DURATION_LONGA), "restLonga");
    assert_eq!(rest_smufl(8), "rest8th");
    assert_eq!(rest_smufl(32), "rest32nd");
    assert_eq!(rest_smufl(128), "restQuarter");
}

#[test]
fn flags_by_duration_and_direction() {
    assert_eq!(flag_codepoint(8, "up"), Some(0xE240));
    assert_eq!(flag_codepoint(8, "down"), Some(0xE241));
    assert_eq!(flag_codepoint(64, "down"), Some(0xE247));
    assert_eq!(flag_codepoint(4, "up"), None);
    assert_eq!(flag_codepoint(8, "sideways"), None);
    assert_eq!(flag_smufl(16, "up"), Some("flag16thUp"));
    assert_eq!(flag_smufl(32, "down"), Some("flag32ndDown"));
    assert_eq!(flag_smufl(2, "down"), None);
}

#[test]
fn accidentals() {
    assert_eq!(accidental_codepoint("sharp"), Some(0xE262));
    assert_eq!(accidental_codepoint("flat"), Some(0xE260));
    assert_eq!(accidental_codepoint("natural"), Some(0xE261));
    assert_eq!(accidental_codepoint("double-sharp"), Some(0xE263));
    assert_eq!(accidental_codepoint("double-flat"), Some(0xE264));
    assert_eq!(accidental_codepoint("quarter-sharp"), None);
    assert_eq!(accidental_smufl("double-flat"), Some("accidentalDoubleFlat"));
    assert_eq!(accidental_smufl(""), None);
}

#[test]
fn clefs() {
    assert_eq!(clef_smufl("treble"), "gClef");
    assert_eq!(clef_smufl("tenor"), "cClef");
    assert_eq!(clef_smufl("treble8"), "gClef8vb");
    assert_eq!(clef_smufl("bass-15b"), "fClef15mb");
    assert_eq!(clef_smufl("percussion"), "unpitchedPercussionClef1");
    assert_eq!(clef_smufl("mystery"), "gClef");
    assert_eq!(clef_smufl_name("alto"), "cClef");
    assert_eq!(clef_smufl_name("bass8a"), "fClef8va");
    assert_eq!(clef_codepoint("treble"), 0xE050);
    assert_eq!(clef_codepoint("bass"), 0xE062);
    assert_eq!(clef_codepoint("treble-15b"), 0xE051);
    assert_eq!(clef_codepoint("bass-8b"), 0xE064);
    assert_eq!(clef_codepoint("percussion"), 0xE069);
    assert_eq!(clef_codepoint("mystery"), 0xE050);
}

#[test]
fn clef_tables_agree_on_concrete_values() {
    for c in [
        "treble", "bass", "alto", "tenor", "treble-8a", "treble8b", "treble-15a", "bass-8a",
        "bass-15a", "percussion", "other",
    ] {
        assert_eq!(smufl_name_for_codepoint(clef_codepoint(c)), Some(clef_smufl(c)));
        assert_eq!(clef_smufl(c), clef_smufl_name(c));
    }
}

#[test]
fn time_digits_dynamics_articulations_markers() {
    assert_eq!(time_digit_codepoint(0), 0xE080);
    assert_eq!(time_digit_codepoint(7), 0xE087);
    assert_eq!(smufl_name_for_codepoint(time_digit_codepoint(3)), Some("timeSig3"));
    assert_eq!(dynamic_codepoint('p'), Some(0xE520));
    assert_eq!(dynamic_codepoint('z'), Some(0xE525));
    assert_eq!(dynamic_codepoint('q'), None);
    assert_eq!(articulation_codepoint("staccato", true), Some(0xE4A2));
    assert_eq!(articulation_codepoint("fermata", false), Some(0xE4C1));
    assert_eq!(articulation_codepoint("bogus", true), None);
    assert_eq!(staff_marker_codepoint("breath-mark"), Some(0xE4CE));
    assert_eq!(staff_marker_codepoint("dal-segno"), Some(0xE047));
    assert_eq!(staff_marker_codepoint("fine"), None);
}

#[test]
fn codepoint_names() {
    assert_eq!(smufl_name_for_codepoint(0xE0A4), Some("noteheadBlack"));
    assert_eq!(smufl_name_for_codepoint(0xE08A), Some("timeSigCommon"));
    assert_eq!(smufl_name_for_codepoint(0xE000), Some("brace"));
    assert_eq!(smufl_name_for_codepoint(0xE520), None);
    assert_eq!(smufl_name_for_codepoint(0), None);
}

#[test]
fn notehead_and_rest_tables_agree() {
    for d in [DURATION_MAXIMA, DURATION_LONGA, DURATION_BREVE, 1, 2, 4, 8, 16, 32, 64, 5] {
        assert_eq!(smufl_name_for_codepoint(notehead_codepoint(d)), Some(notehead_smufl(d)));
        assert_eq!(smufl_name_for_codepoint(rest_codepoint(d)), Some(rest_smufl(d)));
        for dir in ["up", "down"] {
            assert_eq!(
                flag_codepoint(d, dir).and_then(smufl_name_for_codepoint),
                flag_smufl(d, dir)
            );
        }
    }
}

#[test]
fn font_names() {
    assert_eq!(FontId::from_name("Leipzig"), FontId::Leipzig);
    assert_eq!(FontId::from_name("leland"), FontId::Leland);
    assert_eq!(FontId::from_name("Petaluma"), FontId::Petaluma);
    assert_eq!(FontId::from_name("Bravura"), FontId::Bravura);
    assert_eq!(FontId::from_name("LELAND"), FontId::Bravura);
    assert_eq!(FontId::from_name(""), FontId::Bravura);
}
