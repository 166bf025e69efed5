use lib::barlines::{barline_strokes, BarPart, BarStroke};

fn strokes(style: &str) -> Vec<(BarPart, i32)> {
    barline_strokes(style).into_iter().map(|s: BarStroke| (s.part, s.offset)).collect()
}

#[test]
fn barline_styles() {
    assert_eq!(strokes("single"), vec![(BarPart::Thin, 0)]);
    assert_eq!(strokes("double"), vec![(BarPart::Thin, -1), (BarPart::Thin, 0)]);
    assert_eq!(strokes("final"), vec![(BarPart::Thin, -1), (BarPart::Thick, 0)]);
    assert_eq!(
        strokes("repeat-start"),
        vec![(BarPart::Thick, 0), (BarPart::Thin, 1), (BarPart::Dots, 2)]
    );
    assert_eq!(
        strokes("repeat-end"),
        vec![(BarPart::Dots, -2), (BarPart::Thin, -1), (BarPart::Thick, 0)]
    );
    assert_eq!(
        strokes("repeat-both"),
        vec![
            (BarPart::Dots, -2),
            (BarPart::Thin, -1),
            (BarPart::Thick, 0),
            (BarPart::Thin, 1),
            (BarPart::Dots, 2)
        ]
    );
    assert_eq!(strokes("dashed"), vec![(BarPart::Thin, 0)]);
}

#[test]
fn barline_elements_run_left_to_right() {
    for style in ["single", "double", "final", "repeat-start", "repeat-end", "repeat-both", "x"] {
        let s = strokes(style);
        assert!(s.windows(2).all(|w| w[0].1 < w[1].1));
        assert!(s.iter().any(|(p, o)| *o == 0 && *p != BarPart::Dots));
        let dots_right = s.iter().any(|(p, o)| *p == BarPart::Dots && *o > 0);
        let dots_left = s.iter().any(|(p, o)| *p == BarPart::Dots && *o < 0);
        assert_eq!(dots_right, style == "repeat-start" || style == "repeat-both");
        assert_eq!(dots_left, style == "repeat-end" || style == "repeat-both");
    }
}
