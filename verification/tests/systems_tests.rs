use lib::events::{Event, Lyric, Note, TimeInfo};
use lib::systems::{
    add_repeat_both_continuations, advance_lyric_states, leading_prefix_event_count,
    prepare_staff_systems, starts_with_repeat_start,
};

fn note_with_lyrics(name: &str, lyrics: Vec<Lyric>) -> Event {
    Event::Note(Note {
        name: name.to_string(),
        octave: 4,
        duration: 4,
        dots: 0,
        accidental: None,
        grace: false,
        lyrics,
        tuplet: None,
    })
}

fn note(name: &str) -> Event {
    note_with_lyrics(name, vec![])
}

fn lyric(text: &str, continuation: &str) -> Lyric {
    Lyric { text: Some(text.to_string()), continuation: continuation.to_string(), carry: false }
}

fn carry() -> Lyric {
    Lyric { text: None, continuation: String::new(), carry: true }
}

fn barline(style: &str) -> Event {
    Event::Barline(style.to_string())
}

fn tag(e: &Event) -> String {
    match e {
        Event::Note(n) => n.name.clone(),
        Event::Barline(s) => format!("|{}", s),
        Event::Clef(c) => format!("clef:{}", c),
        Event::TimeSig(u, l, _) => format!("{}/{}", u, l),
        Event::LineBreak => "break".to_string(),
        _ => "other".to_string(),
    }
}

fn tags(v: &[Event]) -> Vec<String> {
    v.iter().map(tag).collect()
}

#[test]
fn counts_leading_prefix_events() {
    let ev = vec![
        Event::LineBreak,
        Event::Clef("bass".to_string()),
        Event::TimeSig(3, 4, None),
        note("c"),
        Event::Clef("treble".to_string()),
    ];
    assert_eq!(leading_prefix_event_count(&ev), 3);
    assert_eq!(leading_prefix_event_count(&[]), 0);
    assert_eq!(leading_prefix_event_count(&[note("c")]), 0);
    assert_eq!(leading_prefix_event_count(&[Event::LineBreak]), 1);
}

#[test]
fn detects_leading_repeat_start() {
    assert!(starts_with_repeat_start(&[Event::Clef("alto".to_string()), barline("repeat-start")]));
    assert!(!starts_with_repeat_start(&[note("c"), barline("repeat-start")]));
    assert!(!starts_with_repeat_start(&[barline("single")]));
    assert!(!starts_with_repeat_start(&[]));
}

#[test]
fn carries_repeat_both_into_next_system() {
    let systems = vec![
        vec![note("c"), barline("repeat-both")],
        vec![Event::Clef("bass".to_string()), note("d"), barline("single")],
        vec![note("e")],
    ];
    let r = add_repeat_both_continuations(&systems);
    assert_eq!(r.len(), 3);
    assert_eq!(tags(&r[0]), vec!["c", "|repeat-both"]);
    assert_eq!(tags(&r[1]), vec!["clef:bass", "|repeat-start", "d", "|single"]);
    assert_eq!(tags(&r[2]), vec!["e"]);
    assert!(starts_with_repeat_start(&r[1]));
}

#[test]
fn repeat_start_is_not_doubled() {
    let systems = vec![
        vec![note("c"), barline("repeat-both")],
        vec![barline("repeat-start"), note("d")],
    ];
    let r = add_repeat_both_continuations(&systems);
    assert_eq!(tags(&r[1]), vec!["|repeat-start", "d"]);
    let empty_next = vec![vec![barline("repeat-both")], vec![]];
    let r = add_repeat_both_continuations(&empty_next);
    assert_eq!(tags(&r[1]), vec!["|repeat-start"]);
}

#[test]
fn lyric_states_follow_continuations() {
    let ev = note_with_lyrics("c", vec![lyric("Hal", "hyphen"), lyric("la", "")]);
    let st = advance_lyric_states(&[], &ev);
    assert_eq!(st, vec![Some("hyphen".to_string())]);
    let ev2 = note_with_lyrics("d", vec![carry(), lyric("o", "extender")]);
    let st2 = advance_lyric_states(&st, &ev2);
    assert_eq!(st2, vec![Some("hyphen".to_string()), Some("extender".to_string())]);
    let ev3 = note_with_lyrics("e", vec![lyric("lu", "")]);
    let st3 = advance_lyric_states(&st2, &ev3);
    assert!(st3.is_empty());
    // Events without lyrics support leave the states alone.
    let st4 = advance_lyric_states(&st2, &barline("single"));
    assert_eq!(st4, st2);
    // A note without lyric entries ends every line.
    assert!(advance_lyric_states(&st2, &note("f")).is_empty());
}

#[test]
fn prepares_systems_with_threaded_state() {
    let systems = vec![
        vec![note_with_lyrics("c", vec![lyric("A", "hyphen")]), barline("single")],
        vec![
            Event::LineBreak,
            Event::Clef("bass".to_string()),
            Event::TimeSig(3, 4, None),
            note("d"),
        ],
        vec![note("e")],
    ];
    let time = TimeInfo { upper: 4, lower: 4, symbol: None };
    let r = prepare_staff_systems(&systems, Some("treble"), Some(&time), true);
    assert_eq!(r.len(), 3);
    assert_eq!(r[0].clef.as_deref(), Some("treble"));
    assert!(r[0].show_time_prefix);
    assert_eq!(r[0].time.as_ref().map(|t| (t.upper, t.lower)), Some((4, 4)));
    assert!(r[0].lyric_prefix_states.is_empty());
    assert_eq!(tags(&r[0].events), vec!["c", "|single"]);

    assert_eq!(r[1].clef.as_deref(), Some("bass"));
    assert!(r[1].show_time_prefix);
    assert_eq!(r[1].time.as_ref().map(|t| (t.upper, t.lower)), Some((3, 4)));
    assert_eq!(r[1].lyric_prefix_states, vec![Some("hyphen".to_string())]);
    assert_eq!(tags(&r[1].events), vec!["d"]);

    assert_eq!(r[2].clef.as_deref(), Some("bass"));
    assert!(!r[2].show_time_prefix);
    assert_eq!(r[2].time.as_ref().map(|t| (t.upper, t.lower)), Some((3, 4)));
    assert!(r[2].lyric_prefix_states.is_empty());
}

#[test]
fn systems_keep_the_initial_clef_without_changes() {
    let systems = vec![vec![note("c")], vec![note("d")], vec![]];
    let r = prepare_staff_systems(&systems, Some("alto"), None, true);
    for p in &r {
        assert_eq!(p.clef.as_deref(), Some("alto"));
        assert!(!p.show_time_prefix);
        assert!(p.time.is_none());
    }
    let r = prepare_staff_systems(&systems, None, None, false);
    assert!(r.iter().all(|p| p.clef.is_none()));
}
