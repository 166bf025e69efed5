use lib::events::{Event, Note, Rest, Tuplet};
use lib::staff::layout_staff;
use lib::tuplets::{tuplet_groups, tuplet_stem_dir};
use std::collections::HashMap;

fn tnote(name: &str, octave: i32, tuplet: Option<Tuplet>) -> Event {
    Event::Note(Note {
        name: name.to_string(),
        octave,
        duration: 8,
        dots: 0,
        accidental: None,
        grace: false,
        lyrics: vec![],
        tuplet,
    })
}

fn tup(number: i32, start: bool, end: bool) -> Option<Tuplet> {
    Some(Tuplet { number, count: 3, span_num: 1, span_den: 4, start, end })
}

#[test]
fn finds_tuplet_brackets() {
    let ev = vec![
        tnote("c", 5, tup(3, true, false)),
        tnote("d", 5, tup(3, false, false)),
        Event::Barline("single".to_string()),
        tnote("e", 5, tup(3, false, true)),
        tnote("f", 5, None),
        tnote("g", 5, tup(5, true, true)),
    ];
    assert_eq!(tuplet_groups(&ev), vec![(vec![0, 1, 3], 3), (vec![5], 5)]);
}

#[test]
fn a_new_start_drops_an_unclosed_bracket() {
    let ev = vec![
        tnote("c", 5, tup(3, true, false)),
        tnote("d", 5, tup(3, false, false)),
        tnote("e", 5, tup(5, true, false)),
        Event::Rest(Rest { duration: 8, dots: 0, grace: false, tuplet: tup(5, false, true) }),
        tnote("a", 5, tup(3, false, true)),
    ];
    assert_eq!(tuplet_groups(&ev), vec![(vec![2, 3], 5)]);
    let zero_span = vec![tnote("c", 5, Some(Tuplet { number: 3, count: 3, span_num: 0, span_den: 4, start: true, end: true }))];
    assert!(tuplet_groups(&zero_span).is_empty());
    assert!(tuplet_groups(&[]).is_empty());
}

#[test]
fn bracket_side_follows_the_stems() {
    let ev = vec![
        Event::Rest(Rest { duration: 8, dots: 0, grace: false, tuplet: None }),
        tnote("a", 3, None),
        tnote("c", 6, None),
    ];
    let st = layout_staff(&ev, Some("treble"), None, false, &[]);
    let mut adj: HashMap<usize, String> = HashMap::new();
    assert_eq!(tuplet_stem_dir(&st.items, &[0, 1, 2], &adj), "up");
    assert_eq!(tuplet_stem_dir(&st.items, &[0, 2], &adj), "down");
    adj.insert(2, "up".to_string());
    assert_eq!(tuplet_stem_dir(&st.items, &[0, 2], &adj), "up");
    // Only rests: their own (absent) directions, so "up".
    assert_eq!(tuplet_stem_dir(&st.items, &[0], &adj), "up");
    assert_eq!(tuplet_stem_dir(&st.items, &[], &adj), "up");
}
