use lib::pitch::{
    auto_stem_direction, base_clef, clef_default_base_octave, clef_top_line_diatonic,
    is_supported_clef, key_sig_accidental_count, key_sig_accidentals, key_sig_flat_positions,
    key_sig_sharp_positions, ledger_line_positions, ledger_lines_needed, note_to_diatonic,
    pitch_to_diatonic,
    staff_position,
};

#[test]
fn note_letters_map_to_diatonic_indices() {
    assert_eq!(note_to_diatonic("c"), 0);
    assert_eq!(note_to_diatonic("d"), 1);
    assert_eq!(note_to_diatonic("e"), 2);
    assert_eq!(note_to_diatonic("f"), 3);
    assert_eq!(note_to_diatonic("g"), 4);
    assert_eq!(note_to_diatonic("a"), 5);
    assert_eq!(note_to_diatonic("b"), 6);
    assert_eq!(note_to_diatonic("x"), 0);
    assert_eq!(note_to_diatonic(""), 0);
    assert_eq!(note_to_diatonic("C"), 0);
}

#[test]
fn top_lines_of_clefs() {
    assert_eq!(clef_top_line_diatonic("treble"), 38);
    assert_eq!(clef_top_line_diatonic("treble-8"), 38);
    assert_eq!(clef_top_line_diatonic("percussion"), 38);
    assert_eq!(clef_top_line_diatonic("bass"), 26);
    assert_eq!(clef_top_line_diatonic("bass-15b"), 26);
    assert_eq!(clef_top_line_diatonic("alto"), 32);
    assert_eq!(clef_top_line_diatonic("tenor"), 30);
    assert_eq!(clef_top_line_diatonic("unknown"), 38);
}

#[test]
fn variants_reduce_to_base_clefs() {
    assert_eq!(base_clef("treble8a"), "treble");
    assert_eq!(base_clef("treble-15b"), "treble");
    assert_eq!(base_clef("bass-8b"), "bass");
    assert_eq!(base_clef("bass8a"), "bass");
    assert_eq!(base_clef("alto"), "alto");
    assert_eq!(base_clef("treble"), "treble");
    assert_eq!(base_clef("weird"), "weird");
}

#[test]
fn diatonic_numbers_and_staff_positions() {
    assert_eq!(pitch_to_diatonic("c", 4), 28);
    assert_eq!(pitch_to_diatonic("b", 3), 27);
    assert_eq!(pitch_to_diatonic("a", -1), -2);
    // Top line of the treble staff is F5.
    assert_eq!(staff_position("f", 5, "treble"), 0);
    // Middle C sits on the first ledger line below the treble staff.
    assert_eq!(staff_position("c", 4, "treble"), 10);
    // Middle C is on the middle line of the alto clef.
    assert_eq!(staff_position("c", 4, "alto"), 4);
    assert_eq!(staff_position("a", 3, "bass"), 0);
    assert_eq!(staff_position("g", 2, "bass"), 8);
    assert_eq!(staff_position("e", 4, "tenor"), 0);
}

#[test]
fn octave_law_on_concrete_values() {
    for clef in ["treble", "bass", "alto", "tenor", "treble-8"] {
        for oct in -2..8 {
            assert_eq!(
                staff_position("g", oct + 1, clef),
                staff_position("g", oct, clef) - 7
            );
        }
    }
}

#[test]
fn variants_share_positions_with_base() {
    assert_eq!(staff_position("d", 4, "treble-8"), staff_position("d", 4, "treble"));
    assert_eq!(staff_position("d", 3, "bass-15a"), staff_position("d", 3, "bass"));
}

#[test]
fn stems_follow_the_middle_line() {
    assert_eq!(auto_stem_direction(4), "down");
    assert_eq!(auto_stem_direction(0), "down");
    assert_eq!(auto_stem_direction(-5), "down");
    assert_eq!(auto_stem_direction(5), "up");
    assert_eq!(auto_stem_direction(12), "up");
}

#[test]
fn ledger_lines_outside_the_staff() {
    assert_eq!(ledger_lines_needed(0), (0, None));
    assert_eq!(ledger_lines_needed(-1), (0, None));
    assert_eq!(ledger_lines_needed(9), (0, None));
    assert_eq!(ledger_lines_needed(-2), (1, Some("above")));
    assert_eq!(ledger_lines_needed(-3), (1, Some("above")));
    assert_eq!(ledger_lines_needed(-4), (2, Some("above")));
    assert_eq!(ledger_lines_needed(10), (1, Some("below")));
    assert_eq!(ledger_lines_needed(11), (1, Some("below")));
    assert_eq!(ledger_lines_needed(14), (3, Some("below")));
    assert_eq!(ledger_lines_needed(i32::MIN), (i32::MIN / 2, Some("above")));
}

#[test]
fn ledger_lines_are_symmetric() {
    for p in -20..30 {
        assert_eq!(ledger_lines_needed(p).0, ledger_lines_needed(8 - p).0);
    }
}

#[test]
fn default_base_octaves() {
    assert_eq!(clef_default_base_octave("bass"), 3);
    assert_eq!(clef_default_base_octave("bass8b"), 3);
    assert_eq!(clef_default_base_octave("treble"), 4);
    assert_eq!(clef_default_base_octave("alto"), 4);
}

#[test]
fn key_signature_counts() {
    assert_eq!(key_sig_accidental_count("C"), 0);
    assert_eq!(key_sig_accidental_count("G"), 1);
    assert_eq!(key_sig_accidental_count("C#"), 7);
    assert_eq!(key_sig_accidental_count("Bb"), -2);
    assert_eq!(key_sig_accidental_count("Cb"), -7);
    assert_eq!(key_sig_accidental_count("a"), 0);
    assert_eq!(key_sig_accidental_count("f#"), 3);
    assert_eq!(key_sig_accidental_count("ab"), -7);
    assert_eq!(key_sig_accidental_count("H"), 0);
    assert_eq!(key_sig_accidental_count(""), 0);
}

#[test]
fn key_signature_positions() {
    assert_eq!(key_sig_sharp_positions("treble"), [0, 3, -1, 2, 5, 1, 4]);
    assert_eq!(key_sig_sharp_positions("bass"), [2, 5, 1, 4, 7, 3, 6]);
    assert_eq!(key_sig_sharp_positions("alto"), [1, 4, 0, 3, 6, 2, 5]);
    assert_eq!(key_sig_sharp_positions("tenor"), [6, 2, 5, 1, 4, 0, 3]);
    assert_eq!(key_sig_sharp_positions("bass-8a"), [2, 5, 1, 4, 7, 3, 6]);
    assert_eq!(key_sig_sharp_positions("bass-15b"), [2, 5, 1, 4, 7, 3, 6]);
    assert_eq!(key_sig_sharp_positions("percussion"), [0, 3, -1, 2, 5, 1, 4]);
    assert_eq!(key_sig_flat_positions("treble"), [4, 1, 5, 2, 6, 3, 7]);
    assert_eq!(key_sig_flat_positions("bass"), [6, 3, 7, 4, 8, 5, 2]);
    assert_eq!(key_sig_flat_positions("alto"), [5, 2, 6, 3, 7, 4, 1]);
    assert_eq!(key_sig_flat_positions("tenor"), [3, 0, 4, 1, 5, 2, 6]);
    assert_eq!(key_sig_flat_positions("bass8b"), [6, 3, 7, 4, 8, 5, 2]);
}

#[test]
fn key_signature_accidentals_lie_on_their_notes() {
    // In every clef, each sharp and flat sits on a line or space of the note it alters.
    let sharps = key_sig_accidentals("C#");
    let flats = key_sig_accidentals("Cb");
    for clef in [
        "treble", "treble-8", "bass", "bass-8a", "bass8a", "bass-8b", "bass8b", "bass-15a",
        "bass-15b", "alto", "tenor", "percussion",
    ] {
        let sp = key_sig_sharp_positions(clef);
        let fp = key_sig_flat_positions(clef);
        for i in 0..7 {
            let p = staff_position(&sharps[i].0, 4, clef);
            assert_eq!((p - sp[i]).rem_euclid(7), 0, "{} sharp {}", clef, i);
            let q = staff_position(&flats[i].0, 4, clef);
            assert_eq!((q - fp[i]).rem_euclid(7), 0, "{} flat {}", clef, i);
            assert!((-1..=9).contains(&sp[i]) && (-1..=9).contains(&fp[i]));
        }
    }
}

#[test]
fn key_signature_accidentals_in_order() {
    let d = key_sig_accidentals("D");
    assert_eq!(
        d,
        vec![
            ("f".to_string(), "sharp".to_string()),
            ("c".to_string(), "sharp".to_string())
        ]
    );
    let eb = key_sig_accidentals("Eb");
    assert_eq!(
        eb,
        vec![
            ("b".to_string(), "flat".to_string()),
            ("e".to_string(), "flat".to_string()),
            ("a".to_string(), "flat".to_string())
        ]
    );
    assert!(key_sig_accidentals("C").is_empty());
    assert!(key_sig_accidentals("nonsense").is_empty());
    let all_sharps: Vec<String> = key_sig_accidentals("C#").into_iter().map(|p| p.0).collect();
    assert_eq!(all_sharps, vec!["f", "c", "g", "d", "a", "e", "b"]);
    let all_flats: Vec<String> = key_sig_accidentals("ab").into_iter().map(|p| p.0).collect();
    assert_eq!(all_flats, vec!["b", "e", "a", "d", "g", "c", "f"]);
}

#[test]
fn supported_clefs() {
    for c in [
        "treble", "bass", "alto", "tenor", "treble-8a", "treble8a", "treble-8b", "treble8b",
        "treble-8", "treble8", "treble-15a", "treble-15b", "bass-8a", "bass8a", "bass-8b",
        "bass8b", "bass-15a", "bass-15b", "percussion",
    ] {
        assert!(is_supported_clef(c), "{}", c);
    }
    assert!(!is_supported_clef("soprano"));
    assert!(!is_supported_clef(""));
    assert!(!is_supported_clef("Treble"));
}

#[test]
fn minor_keys_share_their_relative_majors_signature() {
    let pairs = [
        ("C", "a"), ("G", "e"), ("D", "b"), ("A", "f#"), ("E", "c#"), ("B", "g#"), ("F#", "d#"),
        ("C#", "a#"), ("F", "d"), ("Bb", "g"), ("Eb", "c"), ("Ab", "f"), ("Db", "bb"),
        ("Gb", "eb"), ("Cb", "ab"),
    ];
    for (major, minor) in pairs {
        assert_eq!(key_sig_accidental_count(major), key_sig_accidental_count(minor));
        assert_eq!(key_sig_accidentals(major), key_sig_accidentals(minor));
    }
}

#[test]
fn ledger_line_positions_reach_the_note() {
    assert!(ledger_line_positions(4).is_empty());
    assert!(ledger_line_positions(-1).is_empty());
    assert!(ledger_line_positions(9).is_empty());
    assert_eq!(ledger_line_positions(-2), vec![-2]);
    assert_eq!(ledger_line_positions(-3), vec![-2]);
    assert_eq!(ledger_line_positions(-6), vec![-2, -4, -6]);
    assert_eq!(ledger_line_positions(10), vec![10]);
    assert_eq!(ledger_line_positions(13), vec![10, 12]);
    assert!(ledger_line_positions(i32::MIN).is_empty());
}
