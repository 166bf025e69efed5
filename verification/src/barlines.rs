//! What a barline of each style is drawn with: thin and thick lines and
//! repeat dots, at offsets from the barline's position.

use vstd::prelude::*;
use crate::text::str_eq;

verus! {

/// One element of a barline drawing.
#[derive(Debug, Clone, Copy, PartialEq, Eq, Structural)]
pub enum BarPart {
    /// A thin vertical line.
    Thin,
    /// A thick vertical line.
    Thick,
    /// The two repeat dots in the middle spaces of a staff.
    Dots,
}

/// A barline element and its horizontal offset from the barline's position,
/// in half staff spaces (positive to the right).
#[derive(Debug, Clone, Copy, PartialEq, Eq, Structural)]
pub struct BarStroke {
    pub part: BarPart,
    pub offset: i32,
}

/// The elements of a barline style, in drawing order: "single" (and any
/// unknown style) one thin line; "double" two thin lines; "final" a thin then
/// a thick line; "repeat-start" a thick line, a thin line and dots to the
/// right; "repeat-end" dots, a thin and a thick line to the left;
/// "repeat-both" both repeat sides around one thick line.
pub open spec fn spec_barline_strokes(style: Seq<char>) -> Seq<BarStroke> {
    if style == "double"@ {
        seq![BarStroke { part: BarPart::Thin, offset: -1i32 }, BarStroke { part: BarPart::Thin, offset: 0 }]
    } else if style == "final"@ {
        seq![BarStroke { part: BarPart::Thin, offset: -1i32 }, BarStroke { part: BarPart::Thick, offset: 0 }]
    } else if style == "repeat-start"@ {
        seq![
            BarStroke { part: BarPart::Thick, offset: 0 },
            BarStroke { part: BarPart::Thin, offset: 1 },
            BarStroke { part: BarPart::Dots, offset: 2 },
        ]
    } else if style == "repeat-end"@ {
        seq![
            BarStroke { part: BarPart::Dots, offset: -2i32 },
            BarStroke { part: BarPart::Thin, offset: -1i32 },
            BarStroke { part: BarPart::Thick, offset: 0 },
        ]
    } else if style == "repeat-both"@ {
        seq![
            BarStroke { part: BarPart::Dots, offset: -2i32 },
            BarStroke { part: BarPart::Thin, offset: -1i32 },
            BarStroke { part: BarPart::Thick, offset: 0 },
            BarStroke { part: BarPart::Thin, offset: 1 },
            BarStroke { part: BarPart::Dots, offset: 2 },
        ]
    } else {
        seq![BarStroke { part: BarPart::Thin, offset: 0 }]
    }
}

/// The elements to draw for a barline of the given style.
pub fn barline_strokes(style: &str) -> (r: Vec<BarStroke>)
    ensures
        r@ == spec_barline_strokes(style@),
{
    let r = if str_eq(style, "double") {
        vec![BarStroke { part: BarPart::Thin, offset: -1 }, BarStroke { part: BarPart::Thin, offset: 0 }]
    } else if str_eq(style, "final") {
        vec![BarStroke { part: BarPart::Thin, offset: -1 }, BarStroke { part: BarPart::Thick, offset: 0 }]
    } else if str_eq(style, "repeat-start") {
        vec![
            BarStroke { part: BarPart::Thick, offset: 0 },
            BarStroke { part: BarPart::Thin, offset: 1 },
            BarStroke { part: BarPart::Dots, offset: 2 },
        ]
    } else if str_eq(style, "repeat-end") {
        vec![
            BarStroke { part: BarPart::Dots, offset: -2 },
            BarStroke { part: BarPart::Thin, offset: -1 },
            BarStroke { part: BarPart::Thick, offset: 0 },
        ]
    } else if str_eq(style, "repeat-both") {
        vec![
            BarStroke { part: BarPart::Dots, offset: -2 },
            BarStroke { part: BarPart::Thin, offset: -1 },
            BarStroke { part: BarPart::Thick, offset: 0 },
            BarStroke { part: BarPart::Thin, offset: 1 },
            BarStroke { part: BarPart::Dots, offset: 2 },
        ]
    } else {
        vec![BarStroke { part: BarPart::Thin, offset: 0 }]
    };
    assert(r@ =~= spec_barline_strokes(style@));
    r
}

/// Every barline ends at its position or reaches it with a line, its elements
/// run left to right, and repeat dots appear exactly in repeat barlines, on
/// the side the repeat faces: after a start, before an end, on both sides of
/// a combined one.
pub proof fn barline_shapes(style: Seq<char>)
    ensures
        ({
            let s = spec_barline_strokes(style);
            &&& s.len() > 0
            &&& exists|i: int| 0 <= i < s.len() && (#[trigger] s[i]).offset == 0 && s[i].part != BarPart::Dots
            &&& forall|i: int, j: int| 0 <= i < j < s.len() ==> (#[trigger] s[i]).offset < (#[trigger] s[j]).offset
            &&& (exists|i: int| 0 <= i < s.len() && (#[trigger] s[i]).part == BarPart::Dots && s[i].offset > 0)
                <==> (style == "repeat-start"@ || style == "repeat-both"@)
            &&& (exists|i: int| 0 <= i < s.len() && (#[trigger] s[i]).part == BarPart::Dots && s[i].offset < 0)
                <==> (style == "repeat-end"@ || style == "repeat-both"@)
        }),
{
    reveal_strlit("double");
    reveal_strlit("final");
    reveal_strlit("repeat-start");
    reveal_strlit("repeat-end");
    reveal_strlit("repeat-both");
    assert("double"@.len() == 6 && "final"@.len() == 5 && "repeat-start"@.len() == 12);
    assert("repeat-end"@.len() == 10 && "repeat-both"@.len() == 11);
    let s = spec_barline_strokes(style);
    if style == "repeat-start"@ {
        assert(s[2].part == BarPart::Dots && s[2].offset > 0);
        assert(s[0].offset == 0 && s[0].part != BarPart::Dots);
    } else if style == "repeat-end"@ {
        assert(s[0].part == BarPart::Dots && s[0].offset < 0);
        assert(s[2].offset == 0 && s[2].part != BarPart::Dots);
    } else if style == "repeat-both"@ {
        assert(s[0].part == BarPart::Dots && s[0].offset < 0);
        assert(s[4].part == BarPart::Dots && s[4].offset > 0);
        assert(s[2].offset == 0 && s[2].part != BarPart::Dots);
    } else if style == "double"@ || style == "final"@ {
        assert(s[1].offset == 0 && s[1].part != BarPart::Dots);
    } else {
        assert(s[0].offset == 0 && s[0].part != BarPart::Dots);
    }
}

} // verus!
