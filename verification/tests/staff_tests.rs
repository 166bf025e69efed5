use lib::beams::{
    auto_beam_groups, beam_count, beam_group_stem_dir, beam_segments, min_dur_for_level,
    stem_dir_for_item, BeamSegment,
};
use lib::chords::chord_displaced_noteheads;
use lib::events::{Chord, ChordNote, Event, Note, Rest, TimeInfo};
use lib::rests::whole_measure_rest;
use lib::pitch::staff_position;
use lib::staff::layout_staff;
use std::collections::HashMap;

fn note(name: &str, octave: i32) -> Event {
    Event::Note(Note {
        name: name.to_string(),
        octave,
        duration: 4,
        dots: 0,
        accidental: None,
        grace: false,
        lyrics: vec![],
        tuplet: None,
    })
}

fn chord(notes: &[(&str, i32)]) -> Event {
    Event::Chord(Chord {
        notes: notes
            .iter()
            .map(|(n, o)| ChordNote { name: n.to_string(), octave: *o, accidental: None })
            .collect(),
        duration: 4,
        dots: 0,
        grace: false,
        lyrics: vec![],
        tuplet: None,
    })
}

fn rest(duration: i32) -> Event {
    Event::Rest(Rest { duration, dots: 0, grace: false, tuplet: None })
}

#[test]
fn notes_get_positions_and_stems() {
    let ev = vec![note("c", 5), note("a", 3), note("c", 7), note("c", 2), note("b", 4)];
    let st = layout_staff(&ev, Some("treble"), None, false, &[]);
    assert_eq!(st.items.len(), 5);
    let c5 = &st.items[0];
    assert_eq!(c5.staff_pos, 3);
    assert_eq!(c5.stem_dir.as_deref(), Some("down"));
    assert_eq!(c5.stem_end, Some(-10));
    let a3 = &st.items[1];
    assert_eq!(a3.staff_pos, 12);
    assert_eq!(a3.stem_dir.as_deref(), Some("up"));
    assert_eq!(a3.stem_end, Some(-5));
    // A note far above the staff gets a stem down to the top line.
    let c7 = &st.items[2];
    assert_eq!(c7.staff_pos, -11);
    assert_eq!(c7.stem_dir.as_deref(), Some("down"));
    assert_eq!(c7.stem_end, Some(0));
    // A note far below gets a stem up to the bottom line.
    let c2 = &st.items[3];
    assert_eq!(c2.staff_pos, 24);
    assert_eq!(c2.stem_dir.as_deref(), Some("up"));
    assert_eq!(c2.stem_end, Some(-8));
    // The middle line stems down.
    let b4 = &st.items[4];
    assert_eq!(b4.staff_pos, 4);
    assert_eq!(b4.stem_dir.as_deref(), Some("down"));
    assert_eq!(b4.stem_end, Some(-11));
    for item in &st.items {
        let tip = -(item.staff_pos as i64);
        let len = (item.stem_end.unwrap() - tip).abs();
        assert!(len >= 7);
    }
}

#[test]
fn chords_take_the_average_direction() {
    let ev = vec![chord(&[("c", 4), ("e", 4), ("g", 4)]), chord(&[("c", 5), ("e", 5), ("g", 5)])];
    let st = layout_staff(&ev, None, None, false, &[]);
    let low = &st.items[0];
    assert_eq!(low.chord_staff_positions, vec![10, 8, 6]);
    assert_eq!(low.stem_dir.as_deref(), Some("up"));
    assert_eq!(low.staff_pos, 10);
    assert_eq!(low.stem_end, Some(1));
    let high = &st.items[1];
    assert_eq!(high.chord_staff_positions, vec![3, 1, -1]);
    assert_eq!(high.stem_dir.as_deref(), Some("down"));
    assert_eq!(high.staff_pos, -1);
    assert_eq!(high.stem_end, Some(-10));
}

#[test]
fn rests_and_other_events() {
    let ev = vec![rest(1), rest(4), Event::Barline("single".to_string())];
    let st = layout_staff(&ev, Some("bass"), None, false, &[]);
    assert_eq!(st.items[0].staff_pos, 2);
    assert_eq!(st.items[1].staff_pos, 4);
    assert_eq!(st.items[2].staff_pos, 0);
    assert!(st.items.iter().all(|i| i.stem_dir.is_none() && i.stem_end.is_none()));
}

#[test]
fn clef_changes_apply_to_later_notes() {
    let ev = vec![note("a", 3), Event::Clef("bass".to_string()), note("a", 3)];
    let time = TimeInfo { upper: 3, lower: 4, symbol: None };
    let states = vec![Some("hyphen".to_string())];
    let st = layout_staff(&ev, Some("treble"), Some(&time), true, &states);
    assert_eq!(st.items[0].staff_pos, 12);
    assert_eq!(st.items[2].staff_pos, 0);
    assert_eq!(st.clef.as_deref(), Some("treble"));
    assert_eq!(st.time.as_ref().map(|t| (t.upper, t.lower)), Some((3, 4)));
    assert!(st.show_time_prefix);
    assert_eq!(st.lyric_prefix_states, states);
}

#[test]
fn beam_levels() {
    assert_eq!(beam_count(4), 0);
    assert_eq!(beam_count(8), 1);
    assert_eq!(beam_count(12), 1);
    assert_eq!(beam_count(16), 2);
    assert_eq!(beam_count(32), 3);
    assert_eq!(beam_count(64), 4);
    assert_eq!(beam_count(128), 4);
    assert_eq!(beam_count(-1), 0);
    assert_eq!(min_dur_for_level(1), 8);
    assert_eq!(min_dur_for_level(2), 16);
    assert_eq!(min_dur_for_level(3), 32);
    assert_eq!(min_dur_for_level(4), 64);
    assert_eq!(min_dur_for_level(0), 64);
    for level in 1..=4 {
        for d in [1, 2, 4, 7, 8, 15, 16, 31, 32, 63, 64, 100] {
            assert_eq!(beam_count(d) >= level, d >= min_dur_for_level(level));
        }
    }
}

#[test]
fn stem_direction_overrides() {
    let st = layout_staff(&[note("c", 5), rest(4)], None, None, false, &[]);
    let mut adj: HashMap<usize, String> = HashMap::new();
    assert_eq!(stem_dir_for_item(&st.items[0], &adj, 0), "down");
    adj.insert(0, "up".to_string());
    assert_eq!(stem_dir_for_item(&st.items[0], &adj, 0), "up");
    assert_eq!(stem_dir_for_item(&st.items[1], &adj, 1), "up");
    adj.insert(1, "down".to_string());
    assert_eq!(stem_dir_for_item(&st.items[1], &adj, 1), "down");
}

#[test]
fn chord_seconds_alternate_sides() {
    assert_eq!(chord_displaced_noteheads(&[10, 8, 6], "up"), vec![false, false, false]);
    assert_eq!(chord_displaced_noteheads(&[6, 5], "up"), vec![false, true]);
    assert_eq!(chord_displaced_noteheads(&[6, 5], "down"), vec![true, false]);
    assert_eq!(chord_displaced_noteheads(&[4, 5, 6], "down"), vec![false, true, false]);
    assert_eq!(chord_displaced_noteheads(&[4, 5, 6], "up"), vec![false, true, false]);
    assert_eq!(chord_displaced_noteheads(&[5, 5, 4], "down"), vec![true, false, false]);
    assert_eq!(chord_displaced_noteheads(&[3, 4, 5, 6], "down"), vec![false, true, false, true]);
    assert_eq!(chord_displaced_noteheads(&[7], "down"), vec![false]);
    assert!(chord_displaced_noteheads(&[], "up").is_empty());
}

fn short(duration: i32, grace: bool) -> Event {
    Event::Note(Note {
        name: "e".to_string(),
        octave: 5,
        duration,
        dots: 0,
        accidental: None,
        grace,
        lyrics: vec![],
        tuplet: None,
    })
}

#[test]
fn automatic_beam_groups() {
    let five = vec![short(8, false); 5];
    assert_eq!(auto_beam_groups(&five, &[0; 5]), vec![vec![0, 1, 2, 3]]);
    let nine_grace = vec![short(16, true); 9];
    assert_eq!(auto_beam_groups(&nine_grace, &[0; 9]), vec![vec![0, 1, 2, 3, 4, 5, 6, 7]]);
    let mixed = vec![
        short(8, false),
        short(8, false),
        short(4, false),
        short(8, false),
        short(16, true),
        short(16, true),
        short(8, false),
    ];
    assert_eq!(auto_beam_groups(&mixed, &[0; 7]), vec![vec![0, 1], vec![4, 5]]);
    let voices = vec![short(8, false), short(8, false), short(8, false)];
    assert_eq!(auto_beam_groups(&voices, &[0, 1, 1]), vec![vec![1, 2]]);
    let mut eighth_chord = chord(&[("c", 5), ("e", 5)]);
    if let Event::Chord(c) = &mut eighth_chord {
        c.duration = 8;
    }
    let with_rest = vec![short(8, false), rest(8), short(8, false), eighth_chord];
    assert_eq!(auto_beam_groups(&with_rest, &[0; 4]), vec![vec![2, 3]]);
    assert!(auto_beam_groups(&[], &[]).is_empty());
}

#[test]
fn beam_counts_grow_with_shorter_notes() {
    let mut last = beam_count(-4);
    for d in -4..200 {
        let c = beam_count(d);
        assert!(c >= last && (0..=4).contains(&c));
        last = c;
    }
}

#[test]
fn beam_groups_share_a_stem_direction() {
    let ev = vec![note("c", 5), note("a", 4), note("g", 4), short(8, true)];
    let st = layout_staff(&ev, Some("treble"), None, false, &[]);
    // Mean position exactly on the middle line: stems down.
    assert_eq!(beam_group_stem_dir(&st.items, &[0, 1], None), "down");
    // Below the middle line on average: stems up.
    assert_eq!(beam_group_stem_dir(&st.items, &[1, 2], None), "up");
    assert_eq!(beam_group_stem_dir(&st.items, &[0], None), "down");
    assert_eq!(beam_group_stem_dir(&st.items, &[1, 2], Some("down")), "down");
    // Grace groups stem up.
    assert_eq!(beam_group_stem_dir(&st.items, &[3], None), "up");
}

#[test]
fn whole_rests_alone_in_their_measure() {
    let ev = vec![
        rest(1),
        Event::Barline("single".to_string()),
        note("c", 5),
        rest(1),
        Event::Barline("single".to_string()),
        Event::Clef("bass".to_string()),
        rest(1),
        Event::Barline("final".to_string()),
        rest(4),
    ];
    assert_eq!(whole_measure_rest(&ev, 0), Some((None, Some(1))));
    assert_eq!(whole_measure_rest(&ev, 3), None);
    assert_eq!(whole_measure_rest(&ev, 6), Some((Some(4), Some(7))));
    assert_eq!(whole_measure_rest(&ev, 2), None);
    assert_eq!(whole_measure_rest(&ev, 8), None);
    assert_eq!(whole_measure_rest(&[rest(1)], 0), Some((None, None)));
}

fn segs(ds: &[i32]) -> Vec<(i32, usize, usize)> {
    beam_segments(ds).into_iter().map(|s: BeamSegment| (s.level, s.first, s.last)).collect()
}

#[test]
fn secondary_beams_nest_in_primary_ones() {
    assert_eq!(segs(&[8, 16, 16, 8]), vec![(1, 0, 3), (2, 1, 2)]);
    assert_eq!(segs(&[16, 8, 16]), vec![(1, 0, 2), (2, 0, 0), (2, 2, 2)]);
    assert_eq!(segs(&[32, 8]), vec![(1, 0, 1), (2, 0, 0), (3, 0, 0)]);
    assert_eq!(segs(&[8, 8]), vec![(1, 0, 1)]);
    assert_eq!(segs(&[64, 64]), vec![(1, 0, 1), (2, 0, 1), (3, 0, 1), (4, 0, 1)]);
    assert!(segs(&[16]).is_empty());
    assert!(segs(&[]).is_empty());
}

#[test]
fn positions_match_the_clef_in_force() {
    let ev = vec![
        note("c", 4),
        Event::Clef("tenor".to_string()),
        note("c", 4),
        chord(&[("e", 3), ("g", 3)]),
        Event::Clef("bass-8a".to_string()),
        note("c", 4),
        note("c", 4),
    ];
    let st = layout_staff(&ev, Some("alto"), None, false, &[]);
    let clefs = ["alto", "", "tenor", "tenor", "", "bass-8a", "bass-8a"];
    for i in [0usize, 2, 5, 6] {
        assert_eq!(st.items[i].staff_pos, staff_position("c", 4, clefs[i]));
    }
    assert_eq!(st.items[0].staff_pos, 4);
    assert_eq!(st.items[2].staff_pos, 2);
    assert_eq!(st.items[5].staff_pos, -2);
    assert_eq!(
        st.items[3].chord_staff_positions,
        vec![staff_position("e", 3, "tenor"), staff_position("g", 3, "tenor")]
    );
    assert_eq!(st.items[3].chord_staff_positions, vec![7, 5]);
}
