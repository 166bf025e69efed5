use lib::spans::span_runs;

fn lab(v: &[Option<&str>]) -> Vec<Option<String>> {
    v.iter().map(|o| o.map(|s| s.to_string())).collect()
}

fn runs(labels: &[Option<&str>], ends: &[bool], skipped: &[bool]) -> Vec<(Vec<usize>, String)> {
    span_runs(&lab(labels), ends, skipped).into_iter().map(|r| (r.indices, r.label)).collect()
}

#[test]
fn hairpin_runs_skip_other_items() {
    // cresc over items 0..2 (item 1 is a barline, skipped), dim over 3..4.
    let labels = [Some("cresc"), None, Some("cresc"), Some("dim"), Some("dim"), None];
    let ends = [false, false, false, false, true, false];
    let skipped = [false, true, false, false, false, false];
    assert_eq!(
        runs(&labels, &ends, &skipped),
        vec![(vec![0, 2], "cresc".to_string()), (vec![3, 4], "dim".to_string())]
    );
}

#[test]
fn ending_runs_break_at_unlabelled_items() {
    let labels = [Some("1."), Some("1."), None, Some("2."), Some("2.")];
    let none = [false; 5];
    assert_eq!(
        runs(&labels, &none, &none),
        vec![(vec![0, 1], "1.".to_string()), (vec![3, 4], "2.".to_string())]
    );
    // An end flag closes a run even when the next item has the same label.
    let ends = [false, true, false, false, false];
    let same = [Some("1."), Some("1."), Some("1."), Some("1."), None];
    assert_eq!(
        runs(&same, &ends, &none),
        vec![(vec![0, 1], "1.".to_string()), (vec![2, 3], "1.".to_string())]
    );
    assert!(runs(&[], &[], &[]).is_empty());
    assert!(runs(&[None, None], &[false, false], &[false, false]).is_empty());
}

#[test]
fn runs_are_consecutive_and_ordered() {
    let labels = [Some("8va"), Some("8va"), Some("8va"), None, Some("8va")];
    let none = [false; 5];
    let r = runs(&labels, &none, &none);
    assert_eq!(r, vec![(vec![0, 1, 2], "8va".to_string()), (vec![4], "8va".to_string())]);
    for w in r.windows(2) {
        assert!(w[0].0.last().unwrap() < &w[1].0[0]);
    }
}
