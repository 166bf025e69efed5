use lib::align::{
    align_staves_by_beat, classify, is_boundary_event, is_grace_event, is_pre_barline_boundary,
    is_rhythmic_event, ColumnClass,
};
use lib::events::{Event, Note, Rest, Spacer};

fn note(name: &str, duration: i32, grace: bool) -> Event {
    Event::Note(Note {
        name: name.to_string(),
        octave: 4,
        duration,
        dots: 0,
        accidental: None,
        grace,
        lyrics: vec![],
        tuplet: None,
    })
}

fn bar() -> Event {
    Event::Barline("single".to_string())
}

#[test]
fn classifies_events() {
    let grace = note("c", 8, true);
    let plain = note("c", 4, false);
    let spacer = Event::Spacer(Spacer { duration: 4, dots: 0, tuplet: None });
    let grace_rest = Event::Rest(Rest { duration: 4, dots: 0, grace: true, tuplet: None });
    assert!(is_grace_event(&grace));
    assert!(is_grace_event(&grace_rest));
    assert!(!is_grace_event(&plain));
    assert!(!is_grace_event(&bar()));
    assert!(is_rhythmic_event(&plain));
    assert!(is_rhythmic_event(&spacer));
    assert!(!is_rhythmic_event(&grace));
    assert!(!is_rhythmic_event(&bar()));
    assert!(is_boundary_event(&bar()));
    assert!(is_boundary_event(&Event::Clef("bass".to_string())));
    assert!(is_boundary_event(&Event::KeySig("G".to_string())));
    assert!(is_boundary_event(&Event::TimeSig(3, 4, None)));
    assert!(is_boundary_event(&Event::Gap(2)));
    assert!(!is_boundary_event(&Event::LineBreak));
    assert!(!is_boundary_event(&plain));
}

#[test]
fn pre_barline_boundaries() {
    let items = vec![plain_note(), Event::Clef("bass".to_string()), bar(), Event::TimeSig(2, 4, None)];
    assert!(!is_pre_barline_boundary(&items, 0));
    assert!(is_pre_barline_boundary(&items, 1));
    assert!(!is_pre_barline_boundary(&items, 2));
    assert!(!is_pre_barline_boundary(&items, 3));
    assert!(!is_pre_barline_boundary(&items, 9));
    assert_eq!(classify(&items, 0), ColumnClass::Rhythmic);
    assert_eq!(classify(&items, 1), ColumnClass::PreBarline);
    assert_eq!(classify(&items, 2), ColumnClass::Boundary);
    assert_eq!(classify(&[Event::LineBreak], 0), ColumnClass::Other);
}

fn plain_note() -> Event {
    note("c", 4, false)
}

#[test]
fn single_staff_needs_no_alignment() {
    assert!(align_staves_by_beat(&[vec![plain_note()]], &[vec![0]], &[250000]).is_none());
    assert!(align_staves_by_beat(&[], &[], &[]).is_none());
}

#[test]
fn simultaneous_notes_share_columns() {
    let a = vec![note("c", 4, false), note("d", 4, false), bar()];
    let b = vec![note("e", 2, false), bar()];
    let cols = align_staves_by_beat(
        &[a, b],
        &[vec![0, 250000, 500000], vec![0, 500000]],
        &[500000, 500000],
    )
    .unwrap();
    assert_eq!(cols.keys, vec![0, 250000, 500000, 500001]);
    assert_eq!(cols.item_cols, vec![vec![0, 1, 2], vec![0, 2]]);
    assert_eq!(cols.terminal_cols, vec![3, 3]);
}

#[test]
fn boundaries_come_before_the_beat() {
    let a = vec![note("c", 4, false)];
    let b = vec![Event::Clef("bass".to_string()), note("c", 4, true), note("e", 4, false)];
    let cols = align_staves_by_beat(&[a, b], &[vec![0], vec![0, 0, 0]], &[250000, 250000]).unwrap();
    // Clef and grace note take the two columns before the beat's notes.
    assert_eq!(cols.keys, vec![0, 1, 2, 250000]);
    assert_eq!(cols.item_cols, vec![vec![2], vec![0, 1, 2]]);
    assert_eq!(cols.terminal_cols, vec![3, 3]);
    let note_col = cols.item_cols[0][0];
    assert!(cols.item_cols[1][0] < note_col && cols.item_cols[1][1] < note_col);
}

#[test]
fn clef_before_barline_sits_just_before_the_beat() {
    let a = vec![note("c", 1, false), Event::Clef("bass".to_string()), bar(), note("d", 1, false)];
    let b = vec![note("e", 1, false), bar(), note("f", 1, false)];
    let cols = align_staves_by_beat(
        &[a, b],
        &[vec![0, 1000000, 1000000, 1000000], vec![0, 1000000, 1000000]],
        &[2000000, 2000000],
    )
    .unwrap();
    assert_eq!(cols.keys, vec![0, 999999, 1000000, 1000001, 2000000]);
    assert_eq!(cols.item_cols, vec![vec![0, 1, 2, 3], vec![0, 2, 3]]);
    assert_eq!(cols.terminal_cols, vec![4, 4]);
}
