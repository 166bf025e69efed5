//! Engraving logic of a SMuFL-based sheet-music renderer: pitch and clef
//! rules, glyph code tables, event-stream segmentation into measures and
//! systems, vertical staff layout, beat alignment across staves, beaming,
//! chord notehead stacking, tuplets, spanners and lyrics.

pub mod text;

pub mod pitch;
pub mod glyph;
pub mod events;
pub mod codes;
pub mod svg;
pub mod segment;
pub mod align;
pub mod staff;
pub mod timesig;
pub mod systems;
pub mod beams;
pub mod score;
pub mod chords;
pub mod barlines;
pub mod lyrics;
pub mod rests;
pub mod tuplets;
pub mod spans;
