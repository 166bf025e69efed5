//! Music-font selection.

use vstd::prelude::*;
use crate::text::str_eq;

verus! {

/// The SMuFL fonts whose metrics the renderer knows.
#[derive(Debug, Clone, Copy, PartialEq, Eq, Structural)]
pub enum FontId {
    Bravura,
    Leipzig,
    Leland,
    Petaluma,
}

/// Font chosen for a family name: the capitalised or lower-case name of
/// Leipzig, Leland or Petaluma selects that font; any other name selects Bravura.
pub open spec fn spec_font_from_name(name: Seq<char>) -> FontId {
    if name == "Leipzig"@ || name == "leipzig"@ {
        FontId::Leipzig
    } else if name == "Leland"@ || name == "leland"@ {
        FontId::Leland
    } else if name == "Petaluma"@ || name == "petaluma"@ {
        FontId::Petaluma
    } else {
        FontId::Bravura
    }
}

impl FontId {
    /// Resolve a music-font family name.
    pub fn from_name(name: &str) -> (r: Self)
        ensures
            r == spec_font_from_name(name@),
    {
        if str_eq(name, "Leipzig") || str_eq(name, "leipzig") {
            FontId::Leipzig
        } else if str_eq(name, "Leland") || str_eq(name, "leland") {
            FontId::Leland
        } else if str_eq(name, "Petaluma") || str_eq(name, "petaluma") {
            FontId::Petaluma
        } else {
            FontId::Bravura
        }
    }
}

} // verus!
