# Engraving logic of a SMuFL sheet-music renderer, verified with Verus

`src/` is the verified library (crate `lib`):

- `pitch` — diatonic numbers, staff positions per clef, stem direction, ledger
  lines, key signatures (counts, accidental order and placement).
- `codes`, `glyph`, `svg` — SMuFL code points and names, font selection, XML
  escaping and SVG text-anchor attributes.
- `events` — the event stream of a staff and its mathematical view.
- `segment`, `score`, `systems` — cutting staves into measures and systems
  (forced breaks, fixed measures per line, mirroring the first staff), repeat
  barlines carried across breaks, the clef / time signature / lyric state each
  system starts with.
- `staff` — vertical layout of a staff: staff positions, stems, chords.
- `align` — beat columns shared by the staves of a system.
- `beams`, `chords` — automatic beam groups, beam levels, the stem direction
  of a beam group and of a single item, and the notehead side of chord seconds.
- `barlines`, `rests`, `tuplets`, `spans`, `lyrics` — what a barline style is
  drawn with, whole rests alone in their measure, tuplet brackets, runs of
  items under hairpins / endings / octave lines, lyric lines and the hyphens
  and extenders joining syllables.
- `timesig`, `text` — reading a time signature; string helpers.

Each public function states its result exactly in `ensures`; the laws of the
library (octave shifts, ledger-line symmetry, key-signature placement, systems
that keep every event, aligned simultaneous events, beam groups, alternating
seconds, ...) are public proof functions next to the functions they relate.

`app/` holds the floating-point geometry around it (font metrics, widths,
system breaking by available width, column x positions) and the assembly of a
score's systems. `tests/` exercises the library on concrete values.
