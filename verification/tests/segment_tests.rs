use lib::events::{Event, Note, Rest};
use lib::score::{first_staff_systems, score_systems, system_measure_counts};
use lib::segment::{
    compute_system_breaks_by_count, has_line_breaks, mirror_breaks, split_at_line_breaks,
    split_into_measures,
};

fn note(name: &str, octave: i32, duration: i32) -> Event {
    Event::Note(Note {
        name: name.to_string(),
        octave,
        duration,
        dots: 0,
        accidental: None,
        grace: false,
        lyrics: vec![],
        tuplet: None,
    })
}

fn rest(duration: i32) -> Event {
    Event::Rest(Rest { duration, dots: 0, grace: false, tuplet: None })
}

fn bar() -> Event {
    Event::Barline("single".to_string())
}

fn tag(e: &Event) -> String {
    match e {
        Event::Note(n) => format!("{}{}", n.name, n.octave),
        Event::Rest(r) => format!("r{}", r.duration),
        Event::Spacer(_) => "s".to_string(),
        Event::Chord(_) => "chord".to_string(),
        Event::Barline(s) => format!("|{}", s),
        Event::Clef(c) => format!("clef:{}", c),
        Event::TimeSig(u, l, _) => format!("{}/{}", u, l),
        Event::KeySig(k) => format!("key:{}", k),
        Event::Gap(g) => format!("gap{}", g),
        Event::LineBreak => "break".to_string(),
    }
}

fn tags(v: &[Event]) -> Vec<String> {
    v.iter().map(tag).collect()
}

fn groups(v: &[Vec<Event>]) -> Vec<Vec<String>> {
    v.iter().map(|g| tags(g)).collect()
}

fn s(v: &[&str]) -> Vec<String> {
    v.iter().map(|x| x.to_string()).collect()
}

#[test]
fn detects_line_breaks() {
    assert!(!has_line_breaks(&[]));
    assert!(!has_line_breaks(&[note("c", 4, 4), bar()]));
    assert!(has_line_breaks(&[note("c", 4, 4), Event::LineBreak, note("d", 4, 4)]));
}

#[test]
fn splits_at_line_breaks_dropping_empty_systems() {
    let ev = vec![
        Event::LineBreak,
        note("c", 4, 4),
        bar(),
        Event::LineBreak,
        Event::LineBreak,
        note("d", 4, 4),
        Event::LineBreak,
    ];
    let r = split_at_line_breaks(&ev);
    assert_eq!(groups(&r), vec![s(&["c4", "|single"]), s(&["d4"])]);
    assert!(split_at_line_breaks(&[]).is_empty());
    assert!(split_at_line_breaks(&[Event::LineBreak]).is_empty());
}

#[test]
fn split_keeps_every_other_event() {
    let ev = vec![note("c", 4, 4), Event::LineBreak, note("d", 4, 4), note("e", 4, 4)];
    let joined: Vec<String> = split_at_line_breaks(&ev).iter().flat_map(|g| tags(g)).collect();
    assert_eq!(joined, s(&["c4", "d4", "e4"]));
}

#[test]
fn measures_end_at_barlines() {
    let ev = vec![note("c", 4, 2), note("d", 4, 2), bar(), note("e", 4, 1), bar(), rest(4)];
    let r = split_into_measures(&ev);
    assert_eq!(
        groups(&r),
        vec![s(&["c4", "d4", "|single"]), s(&["e4", "|single"]), s(&["r4"])]
    );
    assert!(split_into_measures(&[]).is_empty());
    let joined: Vec<String> = r.iter().flat_map(|g| tags(g)).collect();
    assert_eq!(joined, tags(&ev));
}

#[test]
fn fixed_measures_per_line() {
    let ev = vec![
        note("c", 4, 1),
        bar(),
        note("d", 4, 1),
        bar(),
        note("e", 4, 1),
        bar(),
        note("f", 4, 1),
        bar(),
        note("g", 4, 1),
    ];
    let r = compute_system_breaks_by_count(&ev, 2);
    assert_eq!(
        groups(&r),
        vec![
            s(&["c4", "|single", "d4", "|single"]),
            s(&["e4", "|single", "f4", "|single"]),
            s(&["g4"])
        ]
    );
    // Systems = measures / per-line, rounded up.
    assert_eq!(compute_system_breaks_by_count(&ev, 1).len(), 5);
    assert_eq!(compute_system_breaks_by_count(&ev, 3).len(), 2);
    assert_eq!(compute_system_breaks_by_count(&ev, 5).len(), 1);
    assert_eq!(compute_system_breaks_by_count(&ev, 9).len(), 1);
    // An empty stream gives one empty system.
    let empty = compute_system_breaks_by_count(&[], 4);
    assert_eq!(empty.len(), 1);
    assert!(empty[0].is_empty());
}

#[test]
fn mirrors_measure_counts() {
    let ev = vec![
        note("c", 3, 2),
        note("d", 3, 2),
        bar(),
        note("e", 3, 1),
        bar(),
        note("f", 3, 1),
        bar(),
    ];
    let r = mirror_breaks(&ev, &[2, 1]);
    assert_eq!(
        groups(&r),
        vec![s(&["c3", "d3", "|single", "e3", "|single"]), s(&["f3", "|single"])]
    );
    // Zero-measure systems take a leading line break, if any.
    let ev2 = vec![Event::LineBreak, note("c", 3, 1), bar()];
    let r2 = mirror_breaks(&ev2, &[0, 1]);
    assert_eq!(groups(&r2), vec![s(&["break"]), s(&["c3", "|single"])]);
    let r3 = mirror_breaks(&[note("c", 3, 1), bar()], &[0, 1]);
    assert_eq!(groups(&r3), vec![s(&[]), s(&["c3", "|single"])]);
    // Without counts the whole stream is one system.
    assert_eq!(groups(&mirror_breaks(&ev, &[])), vec![tags(&ev)]);
    assert!(mirror_breaks(&[], &[]).is_empty());
    // A short staff still gets one system per count.
    let r4 = mirror_breaks(&[note("c", 3, 1), bar()], &[1, 1, 1]);
    assert_eq!(r4.len(), 3);
    assert!(r4[1].is_empty() && r4[2].is_empty());
}

#[test]
fn counts_measures_per_system() {
    let systems = vec![
        vec![note("c", 4, 2), bar(), note("d", 4, 2), bar()],
        vec![note("e", 4, 1)],
        vec![],
    ];
    assert_eq!(system_measure_counts(&systems), vec![2, 0, 0]);
}

#[test]
fn first_staff_systems_choice() {
    let with_break = vec![note("c", 4, 1), Event::LineBreak, note("d", 4, 1)];
    let r = first_staff_systems(&with_break, Some(1)).unwrap();
    assert_eq!(groups(&r), vec![s(&["c4"]), s(&["d4"])]);
    let plain = vec![note("c", 4, 1), bar(), note("d", 4, 1), bar()];
    let r = first_staff_systems(&plain, Some(1)).unwrap();
    assert_eq!(groups(&r), vec![s(&["c4", "|single"]), s(&["d4", "|single"])]);
    let r = first_staff_systems(&plain, Some(0)).unwrap();
    assert_eq!(groups(&r), vec![tags(&plain)]);
    assert!(first_staff_systems(&plain, None).is_none());
}

#[test]
fn other_staves_follow_the_first() {
    let top = vec![note("c", 5, 1), bar(), note("d", 5, 1), bar(), note("e", 5, 1), bar()];
    let low = vec![note("c", 3, 2), note("g", 3, 2), bar(), note("c", 3, 1), bar(), note("f", 3, 1), bar()];
    let staff0 = compute_system_breaks_by_count(&top, 2);
    let all = score_systems(&[top.clone(), low.clone()], &staff0);
    assert_eq!(all.len(), 2);
    assert_eq!(all[0].len(), staff0.len());
    assert_eq!(all[1].len(), staff0.len());
    assert_eq!(
        groups(&all[1]),
        vec![s(&["c3", "g3", "|single", "c3", "|single"]), s(&["f3", "|single"])]
    );
    assert!(score_systems(&[], &staff0).is_empty());
}

#[test]
fn staves_with_their_own_breaks_keep_them() {
    let top = vec![note("c", 5, 1), Event::LineBreak, note("d", 5, 1)];
    let low = vec![note("c", 3, 1), note("e", 3, 1), Event::LineBreak, note("g", 3, 1)];
    let staff0 = split_at_line_breaks(&top);
    let all = score_systems(&[top, low], &staff0);
    assert_eq!(groups(&all[1]), vec![s(&["c3", "e3"]), s(&["g3"])]);
}

#[test]
fn repeats_carry_across_the_mirrored_breaks() {
    let top = vec![
        note("c", 5, 1),
        Event::Barline("repeat-both".to_string()),
        note("d", 5, 1),
        bar(),
    ];
    let low = vec![
        note("c", 3, 1),
        Event::Barline("repeat-both".to_string()),
        note("d", 3, 1),
        bar(),
    ];
    let staff0 = compute_system_breaks_by_count(&top, 1);
    let all = score_systems(&[top, low], &staff0);
    assert_eq!(
        groups(&all[0]),
        vec![s(&["c5", "|repeat-both"]), s(&["|repeat-start", "d5", "|single"])]
    );
    assert_eq!(
        groups(&all[1]),
        vec![s(&["c3", "|repeat-both"]), s(&["|repeat-start", "d3", "|single"])]
    );
}
