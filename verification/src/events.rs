//! The music event stream that the parser produces and the layout consumes,
//! with a mathematical view of each event.

use vstd::prelude::*;

verus! {

/// Duration code of a breve (double whole note).
pub const DURATION_BREVE: i32 = 0;
/// Duration code of a longa.
pub const DURATION_LONGA: i32 = -1;
/// Duration code of a maxima.
pub const DURATION_MAXIMA: i32 = -2;

/// Tuplet membership of a rhythmic event: the displayed number, how many
/// events share the span, the span length as a fraction of a whole note
/// (`span_num / span_den`; only a positive fraction marks a tuplet), and
/// whether the event opens or closes the group.
#[derive(Debug, Clone, Copy, PartialEq, Eq, Structural)]
pub struct Tuplet {
    pub number: i32,
    pub count: i32,
    pub span_num: i32,
    pub span_den: i32,
    pub start: bool,
    pub end: bool,
}

/// One lyric line attached to an event.
#[derive(Debug, Clone)]
pub struct Lyric {
    pub text: Option<String>,
    /// "hyphen", "extender" or "" (no continuation).
    pub continuation: String,
    /// A bare `l`: carry the previous state of this line.
    pub carry: bool,
}

/// View of a lyric line.
pub struct LyricView {
    pub text: Option<Seq<char>>,
    pub continuation: Seq<char>,
    pub carry: bool,
}

/// View of an optional string.
pub open spec fn opt_str_view(o: Option<String>) -> Option<Seq<char>> {
    match o {
        Some(s) => Some(s@),
        None => None,
    }
}

impl View for Lyric {
    type V = LyricView;

    open spec fn view(&self) -> LyricView {
        LyricView {
            text: opt_str_view(self.text),
            continuation: self.continuation@,
            carry: self.carry,
        }
    }
}

/// View of a list of lyric lines.
pub open spec fn lyrics_view(v: Seq<Lyric>) -> Seq<LyricView> {
    v.map_values(|l: Lyric| l@)
}

/// A note of a chord.
#[derive(Debug, Clone)]
pub struct ChordNote {
    pub name: String,
    pub octave: i32,
    pub accidental: Option<String>,
}

/// View of a chord note.
pub struct ChordNoteView {
    pub name: Seq<char>,
    pub octave: i32,
    pub accidental: Option<Seq<char>>,
}

impl View for ChordNote {
    type V = ChordNoteView;

    open spec fn view(&self) -> ChordNoteView {
        ChordNoteView {
            name: self.name@,
            octave: self.octave,
            accidental: opt_str_view(self.accidental),
        }
    }
}

/// View of the notes of a chord.
pub open spec fn chord_notes_view(v: Seq<ChordNote>) -> Seq<ChordNoteView> {
    v.map_values(|n: ChordNote| n@)
}

/// A single note.
#[derive(Debug, Clone)]
pub struct Note {
    /// Note letter, "a" to "g".
    pub name: String,
    pub octave: i32,
    pub duration: i32,
    pub dots: i32,
    /// "sharp", "flat", "natural", "double-sharp" or "double-flat".
    pub accidental: Option<String>,
    pub grace: bool,
    pub lyrics: Vec<Lyric>,
    pub tuplet: Option<Tuplet>,
}

/// View of a note.
pub struct NoteView {
    pub name: Seq<char>,
    pub octave: i32,
    pub duration: i32,
    pub dots: i32,
    pub accidental: Option<Seq<char>>,
    pub grace: bool,
    pub lyrics: Seq<LyricView>,
    pub tuplet: Option<Tuplet>,
}

/// A chord: several notes on one stem.
#[derive(Debug, Clone)]
pub struct Chord {
    pub notes: Vec<ChordNote>,
    pub duration: i32,
    pub dots: i32,
    pub grace: bool,
    pub lyrics: Vec<Lyric>,
    pub tuplet: Option<Tuplet>,
}

/// View of a chord.
pub struct ChordView {
    pub notes: Seq<ChordNoteView>,
    pub duration: i32,
    pub dots: i32,
    pub grace: bool,
    pub lyrics: Seq<LyricView>,
    pub tuplet: Option<Tuplet>,
}

/// A rest.
#[derive(Debug, Clone, Copy, PartialEq, Eq, Structural)]
pub struct Rest {
    pub duration: i32,
    pub dots: i32,
    pub grace: bool,
    pub tuplet: Option<Tuplet>,
}

/// An invisible rest that takes time.
#[derive(Debug, Clone, Copy, PartialEq, Eq, Structural)]
pub struct Spacer {
    pub duration: i32,
    pub dots: i32,
    pub tuplet: Option<Tuplet>,
}

/// An event of the music stream.
#[derive(Debug, Clone)]
pub enum Event {
    Note(Note),
    Rest(Rest),
    Spacer(Spacer),
    Chord(Chord),
    /// A barline with its style ("single", "double", "final", "repeat-start",
    /// "repeat-end", "repeat-both", ...).
    Barline(String),
    /// An inline clef change to the named clef.
    Clef(String),
    /// An inline time signature: upper, lower, optional symbol ("common", "cut").
    TimeSig(i32, i32, Option<String>),
    /// An inline key signature.
    KeySig(String),
    /// Extra horizontal space, in units of repeated blanks.
    Gap(i32),
    /// A forced system break.
    LineBreak,
}

/// View of an event.
pub enum EventView {
    Note(NoteView),
    Rest(Rest),
    Spacer(Spacer),
    Chord(ChordView),
    Barline(Seq<char>),
    Clef(Seq<char>),
    TimeSig(i32, i32, Option<Seq<char>>),
    KeySig(Seq<char>),
    Gap(i32),
    LineBreak,
}

impl View for Event {
    type V = EventView;

    open spec fn view(&self) -> EventView {
        match *self {
            Event::Note(n) => EventView::Note(
                NoteView {
                    name: n.name@,
                    octave: n.octave,
                    duration: n.duration,
                    dots: n.dots,
                    accidental: opt_str_view(n.accidental),
                    grace: n.grace,
                    lyrics: lyrics_view(n.lyrics@),
                    tuplet: n.tuplet,
                },
            ),
            Event::Rest(r) => EventView::Rest(r),
            Event::Spacer(s) => EventView::Spacer(s),
            Event::Chord(c) => EventView::Chord(
                ChordView {
                    notes: chord_notes_view(c.notes@),
                    duration: c.duration,
                    dots: c.dots,
                    grace: c.grace,
                    lyrics: lyrics_view(c.lyrics@),
                    tuplet: c.tuplet,
                },
            ),
            Event::Barline(s) => EventView::Barline(s@),
            Event::Clef(c) => EventView::Clef(c@),
            Event::TimeSig(u, l, s) => EventView::TimeSig(u, l, opt_str_view(s)),
            Event::KeySig(k) => EventView::KeySig(k@),
            Event::Gap(a) => EventView::Gap(a),
            Event::LineBreak => EventView::LineBreak,
        }
    }
}

/// View of a sequence of events.
pub open spec fn events_view(v: Seq<Event>) -> Seq<EventView> {
    v.map_values(|e: Event| e@)
}

/// A time signature in force: upper and lower numbers and an optional
/// symbol ("common" or "cut").
#[derive(Debug, Clone)]
pub struct TimeInfo {
    pub upper: i32,
    pub lower: i32,
    pub symbol: Option<String>,
}

/// View of a time signature.
pub struct TimeInfoView {
    pub upper: i32,
    pub lower: i32,
    pub symbol: Option<Seq<char>>,
}

impl View for TimeInfo {
    type V = TimeInfoView;

    open spec fn view(&self) -> TimeInfoView {
        TimeInfoView { upper: self.upper, lower: self.lower, symbol: opt_str_view(self.symbol) }
    }
}

/// View of an optional time signature.
pub open spec fn opt_time_view(t: Option<TimeInfo>) -> Option<TimeInfoView> {
    match t {
        Some(t) => Some(t@),
        None => None,
    }
}

impl TimeInfo {
    /// A copy with the same view.
    pub fn copy(&self) -> (r: TimeInfo)
        ensures
            r@ == self@,
    {
        TimeInfo { upper: self.upper, lower: self.lower, symbol: copy_opt_string(&self.symbol) }
    }
}

/// A copy of an optional time signature.
pub fn copy_opt_time(t: &Option<TimeInfo>) -> (r: Option<TimeInfo>)
    ensures
        opt_time_view(r) == opt_time_view(*t),
{
    match t {
        Some(t) => Some(t.copy()),
        None => None,
    }
}

/// View of a list of optional strings.
pub open spec fn opt_strs_view(v: Seq<Option<String>>) -> Seq<Option<Seq<char>>> {
    v.map_values(|o: Option<String>| opt_str_view(o))
}

/// A copy of a list of optional strings.
pub fn copy_opt_strings(v: &[Option<String>]) -> (r: Vec<Option<String>>)
    ensures
        opt_strs_view(r@) == opt_strs_view(v@),
{
    let mut r: Vec<Option<String>> = Vec::new();
    let mut i: usize = 0;
    while i < v.len()
        invariant
            i <= v@.len(),
            r@.len() == i,
            forall|j: int| 0 <= j < i ==> opt_str_view(#[trigger] r@[j]) == opt_str_view(v@[j]),
        decreases v@.len() - i,
    {
        r.push(copy_opt_string(&v[i]));
        i += 1;
    }
    assert(opt_strs_view(r@) =~= opt_strs_view(v@));
    r
}

// ─── Classification (spec) ─────────────────────────────────────────────

impl EventView {
    /// Whether the event is a barline.
    pub open spec fn is_barline(self) -> bool {
        self is Barline
    }

    /// Whether the event is a forced system break.
    pub open spec fn is_line_break(self) -> bool {
        self is LineBreak
    }

    /// Notes, chords and rests may be grace notes; other events never are.
    pub open spec fn grace(self) -> bool {
        match self {
            EventView::Note(n) => n.grace,
            EventView::Chord(c) => c.grace,
            EventView::Rest(r) => r.grace,
            _ => false,
        }
    }

    /// Events that carry lyrics: notes and chords.
    pub open spec fn is_anchor(self) -> bool {
        self is Note || self is Chord
    }

    /// Lyric lines of a note or chord; none for other events.
    pub open spec fn lyrics(self) -> Seq<LyricView> {
        match self {
            EventView::Note(n) => n.lyrics,
            EventView::Chord(c) => c.lyrics,
            _ => Seq::empty(),
        }
    }
}

// ─── Copies ────────────────────────────────────────────────────────────

/// A copy of an optional string.
pub fn copy_opt_string(o: &Option<String>) -> (r: Option<String>)
    ensures
        opt_str_view(r) == opt_str_view(*o),
{
    match o {
        Some(s) => Some(s.clone()),
        None => None,
    }
}

impl Lyric {
    /// A copy with the same view.
    pub fn copy(&self) -> (r: Lyric)
        ensures
            r@ == self@,
    {
        Lyric {
            text: copy_opt_string(&self.text),
            continuation: self.continuation.clone(),
            carry: self.carry,
        }
    }
}

/// A copy of a list of lyric lines.
pub fn copy_lyrics(v: &Vec<Lyric>) -> (r: Vec<Lyric>)
    ensures
        lyrics_view(r@) == lyrics_view(v@),
{
    let mut r: Vec<Lyric> = Vec::new();
    let mut i: usize = 0;
    while i < v.len()
        invariant
            i <= v.len(),
            r@.len() == i,
            forall|j: int| 0 <= j < i ==> #[trigger] r@[j]@ == v@[j]@,
        decreases v.len() - i,
    {
        r.push(v[i].copy());
        i += 1;
    }
    assert(lyrics_view(r@) =~= lyrics_view(v@));
    r
}

impl ChordNote {
    /// A copy with the same view.
    pub fn copy(&self) -> (r: ChordNote)
        ensures
            r@ == self@,
    {
        ChordNote {
            name: self.name.clone(),
            octave: self.octave,
            accidental: copy_opt_string(&self.accidental),
        }
    }
}

/// A copy of the notes of a chord.
pub fn copy_chord_notes(v: &Vec<ChordNote>) -> (r: Vec<ChordNote>)
    ensures
        chord_notes_view(r@) == chord_notes_view(v@),
{
    let mut r: Vec<ChordNote> = Vec::new();
    let mut i: usize = 0;
    while i < v.len()
        invariant
            i <= v.len(),
            r@.len() == i,
            forall|j: int| 0 <= j < i ==> #[trigger] r@[j]@ == v@[j]@,
        decreases v.len() - i,
    {
        r.push(v[i].copy());
        i += 1;
    }
    assert(chord_notes_view(r@) =~= chord_notes_view(v@));
    r
}

impl Event {
    /// A copy with the same view.
    pub fn copy(&self) -> (r: Event)
        ensures
            r@ == self@,
    {
        match self {
            Event::Note(n) => Event::Note(
                Note {
                    name: n.name.clone(),
                    octave: n.octave,
                    duration: n.duration,
                    dots: n.dots,
                    accidental: copy_opt_string(&n.accidental),
                    grace: n.grace,
                    lyrics: copy_lyrics(&n.lyrics),
                    tuplet: n.tuplet,
                },
            ),
            Event::Rest(r) => Event::Rest(*r),
            Event::Spacer(s) => Event::Spacer(*s),
            Event::Chord(c) => Event::Chord(
                Chord {
                    notes: copy_chord_notes(&c.notes),
                    duration: c.duration,
                    dots: c.dots,
                    grace: c.grace,
                    lyrics: copy_lyrics(&c.lyrics),
                    tuplet: c.tuplet,
                },
            ),
            Event::Barline(s) => Event::Barline(s.clone()),
            Event::Clef(c) => Event::Clef(c.clone()),
            Event::TimeSig(u, l, s) => Event::TimeSig(*u, *l, copy_opt_string(s)),
            Event::KeySig(k) => Event::KeySig(k.clone()),
            Event::Gap(a) => Event::Gap(*a),
            Event::LineBreak => Event::LineBreak,
        }
    }

    /// Whether the event is a barline.
    pub fn is_barline(&self) -> (r: bool)
        ensures
            r == self@.is_barline(),
    {
        matches!(self, Event::Barline(_))
    }

    /// Whether the event is a forced system break.
    pub fn is_line_break(&self) -> (r: bool)
        ensures
            r == self@.is_line_break(),
    {
        matches!(self, Event::LineBreak)
    }

    /// Whether the event is a grace note, grace chord or grace rest.
    pub fn grace(&self) -> (r: bool)
        ensures
            r == self@.grace(),
    {
        match self {
            Event::Note(n) => n.grace,
            Event::Chord(c) => c.grace,
            Event::Rest(r) => r.grace,
            _ => false,
        }
    }

    /// Whether the event carries lyrics (a note or a chord).
    pub fn is_anchor(&self) -> (r: bool)
        ensures
            r == self@.is_anchor(),
    {
        matches!(self, Event::Note(_) | Event::Chord(_))
    }

    /// The lyric lines of a note or chord; empty for other events.
    pub fn lyrics(&self) -> (r: &[Lyric])
        ensures
            lyrics_view(r@) == self@.lyrics(),
    {
        match self {
            Event::Note(n) => n.lyrics.as_slice(),
            Event::Chord(c) => c.lyrics.as_slice(),
            _ => {
                let r: &[Lyric] = &[];
                assert(lyrics_view(r@) =~= Seq::empty());
                r
            },
        }
    }
}

/// A copy of a sequence of events.
pub fn copy_events(v: &[Event]) -> (r: Vec<Event>)
    ensures
        events_view(r@) == events_view(v@),
{
    let mut r: Vec<Event> = Vec::new();
    let mut i: usize = 0;
    while i < v.len()
        invariant
            i <= v.len(),
            r@.len() == i,
            forall|j: int| 0 <= j < i ==> #[trigger] r@[j]@ == v@[j]@,
        decreases v.len() - i,
    {
        r.push(v[i].copy());
        i += 1;
    }
    assert(events_view(r@) =~= events_view(v@));
    r
}

/// A copy of the events `v[lo..hi]`.
pub fn copy_event_range(v: &[Event], lo: usize, hi: usize) -> (r: Vec<Event>)
    requires
        lo <= hi <= v@.len(),
    ensures
        events_view(r@) == events_view(v@.subrange(lo as int, hi as int)),
{
    let mut r: Vec<Event> = Vec::new();
    let mut i: usize = lo;
    while i < hi
        invariant
            lo <= i <= hi <= v@.len(),
            r@.len() == i - lo,
            forall|j: int| 0 <= j < i - lo ==> #[trigger] r@[j]@ == v@[lo + j]@,
        decreases hi - i,
    {
        r.push(v[i].copy());
        i += 1;
    }
    assert(events_view(r@) =~= events_view(v@.subrange(lo as int, hi as int)));
    r
}

} // verus!
