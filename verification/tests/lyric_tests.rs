use lib::events::{Event, Lyric, Note};
use lib::lyrics::{lyric_line_count, lyric_links, LyricLink};

fn syl(text: &str, continuation: &str) -> Lyric {
    Lyric { text: Some(text.to_string()), continuation: continuation.to_string(), carry: false }
}

fn note(lyrics: Vec<Lyric>) -> Event {
    Event::Note(Note {
        name: "g".to_string(),
        octave: 4,
        duration: 4,
        dots: 0,
        accidental: None,
        grace: false,
        lyrics,
        tuplet: None,
    })
}

fn verse() -> Vec<Event> {
    vec![
        note(vec![syl("A", "hyphen"), syl("Oh", "")]),
        note(vec![syl("ma", "hyphen")]),
        note(vec![syl("zing", "extender"), Lyric { text: None, continuation: String::new(), carry: true }]),
        note(vec![Lyric { text: None, continuation: String::new(), carry: false }]),
        Event::Barline("single".to_string()),
        note(vec![syl("grace", ""), syl("", "hyphen")]),
    ]
}

#[test]
fn counts_lyric_lines() {
    let v = verse();
    assert_eq!(lyric_line_count(&v, 0), 2);
    assert_eq!(lyric_line_count(&v, 3), 3);
    assert_eq!(lyric_line_count(&[], 1), 1);
}

#[test]
fn joins_consecutive_syllables() {
    let v = verse();
    let links = lyric_links(&v, 2);
    assert_eq!(
        links,
        vec![
            LyricLink { line: 0, from: 0, to: 1, hyphen: true },
            LyricLink { line: 0, from: 1, to: 2, hyphen: true },
            LyricLink { line: 0, from: 2, to: 5, hyphen: false },
        ]
    );
    assert!(lyric_links(&v, 0).is_empty());
}

#[test]
fn second_verse_joints() {
    let v = vec![
        note(vec![syl("la", ""), syl("Glo", "hyphen")]),
        note(vec![syl("la", ""), Lyric { text: None, continuation: String::new(), carry: true }]),
        note(vec![syl("la", ""), syl("ri", "hyphen")]),
        note(vec![syl("la", ""), syl("a", "")]),
    ];
    let links = lyric_links(&v, 2);
    assert_eq!(
        links,
        vec![
            LyricLink { line: 1, from: 0, to: 2, hyphen: true },
            LyricLink { line: 1, from: 2, to: 3, hyphen: true },
        ]
    );
}
