//! Preparing the systems of each staff: repeat barlines carried across
//! system breaks, the clef, time signature and lyric states each system
//! starts with.

use vstd::prelude::*;
use crate::events::{
    Event, EventView, events_view, Lyric, LyricView, lyrics_view, TimeInfo, TimeInfoView,
    opt_time_view, opt_str_view, opt_strs_view, copy_opt_time, copy_event_range,
};
use crate::segment::groups_view;
use crate::text::{str_eq, owned};

verus! {

// ─── Repeat barlines across system breaks ──────────────────────────────

/// Line breaks, clef changes and time signatures a system starts with.
pub open spec fn is_prefix_event(e: EventView) -> bool {
    e is LineBreak || e is Clef || e is TimeSig
}

/// Number of leading prefix events.
pub open spec fn spec_leading_prefix_count(s: Seq<EventView>) -> int
    decreases s.len(),
{
    if s.len() > 0 && is_prefix_event(s[0]) {
        1 + spec_leading_prefix_count(s.drop_first())
    } else {
        0
    }
}

proof fn lemma_prefix_count_bound(s: Seq<EventView>)
    ensures
        0 <= spec_leading_prefix_count(s) <= s.len(),
        forall|j: int| 0 <= j < spec_leading_prefix_count(s) ==> is_prefix_event(#[trigger] s[j]),
        spec_leading_prefix_count(s) < s.len() ==> !is_prefix_event(s[spec_leading_prefix_count(s)]),
    decreases s.len(),
{
    if s.len() > 0 && is_prefix_event(s[0]) {
        lemma_prefix_count_bound(s.drop_first());
        assert forall|j: int| 0 <= j < spec_leading_prefix_count(s) implies is_prefix_event(
            #[trigger] s[j],
        ) by {
            if j > 0 {
                assert(s[j] == s.drop_first()[j - 1]);
            }
        }
    }
}

/// Number of leading line breaks, clef changes and time signatures.
pub fn leading_prefix_event_count(events: &[Event]) -> (r: usize)
    ensures
        r == spec_leading_prefix_count(events_view(events@)),
{
    let ghost ev = events_view(events@);
    let mut i: usize = 0;
    assert(ev.skip(0) =~= ev);
    while i < events.len() && matches!(events[i], Event::LineBreak | Event::Clef(_) | Event::TimeSig(..))
        invariant
            ev == events_view(events@),
            i <= events@.len(),
            spec_leading_prefix_count(ev) == i + spec_leading_prefix_count(ev.skip(i as int)),
        decreases events@.len() - i,
    {
        assert(ev.skip(i as int)[0] == events@[i as int]@);
        assert(ev.skip(i as int).drop_first() =~= ev.skip(i + 1));
        i += 1;
    }
    proof {
        if i < events@.len() {
            assert(ev.skip(i as int)[0] == events@[i as int]@);
        }
    }
    i
}

/// The event after the leading prefix events is a "repeat-start" barline.
pub open spec fn spec_starts_with_repeat_start(s: Seq<EventView>) -> bool {
    let k = spec_leading_prefix_count(s);
    k < s.len() && s[k] == EventView::Barline("repeat-start"@)
}

/// Whether the system's music begins with a start-repeat barline.
pub fn starts_with_repeat_start(events: &[Event]) -> (r: bool)
    ensures
        r == spec_starts_with_repeat_start(events_view(events@)),
{
    let k = leading_prefix_event_count(events);
    proof {
        lemma_prefix_count_bound(events_view(events@));
    }
    if k < events.len() {
        assert(events_view(events@)[k as int] == events@[k as int]@);
        match &events[k] {
            Event::Barline(style) => str_eq(style.as_str(), "repeat-start"),
            _ => false,
        }
    } else {
        false
    }
}

/// The system ends with a "repeat-both" barline.
pub open spec fn ends_with_repeat_both(s: Seq<EventView>) -> bool {
    s.len() > 0 && s.last() == EventView::Barline("repeat-both"@)
}

/// A system after one that ends with a combined end/start repeat gets a
/// start-repeat barline after its leading prefix events, unless it has one.
pub open spec fn spec_with_repeat_continuation(prev: Option<Seq<EventView>>, s: Seq<EventView>) -> Seq<
    EventView,
> {
    if (prev matches Some(p) && ends_with_repeat_both(p)) && !spec_starts_with_repeat_start(s) {
        s.insert(spec_leading_prefix_count(s), EventView::Barline("repeat-start"@))
    } else {
        s
    }
}

/// Every system with the start-repeat it continues from the system before.
pub open spec fn spec_add_repeat_both_continuations(systems: Seq<Seq<EventView>>) -> Seq<
    Seq<EventView>,
> {
    Seq::new(
        systems.len(),
        |i: int|
            spec_with_repeat_continuation(
                if i > 0 {
                    Some(systems[i - 1])
                } else {
                    None
                },
                systems[i],
            ),
    )
}

fn ends_with_repeat_both_exec(events: &Vec<Event>) -> (r: bool)
    ensures
        r == ends_with_repeat_both(events_view(events@)),
{
    let n = events.len();
    if n == 0 {
        return false;
    }
    assert(events_view(events@).last() == events@[n - 1]@);
    match &events[n - 1] {
        Event::Barline(style) => {
            let r = str_eq(style.as_str(), "repeat-both");
            proof {
                if r {
                    assert(events_view(events@).last() == EventView::Barline("repeat-both"@));
                }
            }
            r
        },
        _ => false,
    }
}

/// Carry combined end/start repeats across system breaks.
pub fn add_repeat_both_continuations(systems: &[Vec<Event>]) -> (r: Vec<Vec<Event>>)
    ensures
        groups_view(r@) == spec_add_repeat_both_continuations(groups_view(systems@)),
{
    let ghost sv = groups_view(systems@);
    let mut result: Vec<Vec<Event>> = Vec::new();
    let mut idx: usize = 0;
    while idx < systems.len()
        invariant
            sv == groups_view(systems@),
            idx <= systems@.len(),
            result@.len() == idx,
            forall|j: int|
                0 <= j < idx ==> events_view((#[trigger] result@[j])@)
                    == spec_add_repeat_both_continuations(sv)[j],
        decreases systems@.len() - idx,
    {
        let system = &systems[idx];
        assert(sv[idx as int] == events_view(system@));
        let mut events = copy_event_range(system.as_slice(), 0, system.len());
        assert(system@.subrange(0, system@.len() as int) =~= system@);
        let prev_ended = idx > 0 && ends_with_repeat_both_exec(&systems[idx - 1]);
        proof {
            if idx > 0 {
                assert(sv[idx - 1] == events_view(systems@[idx - 1]@));
            }
        }
        if prev_ended && !starts_with_repeat_start(events.as_slice()) {
            let insert_at = leading_prefix_event_count(events.as_slice());
            proof {
                lemma_prefix_count_bound(events_view(events@));
            }
            let ghost before = events@;
            events.insert(insert_at, Event::Barline(owned("repeat-start")));
            assert(events_view(events@) =~= events_view(before).insert(
                insert_at as int,
                EventView::Barline("repeat-start"@),
            ));
        }
        let ghost e = events@;
        result.push(events);
        assert(events_view(result@[idx as int]@) == events_view(e));
        idx += 1;
    }
    assert(groups_view(result@) =~= spec_add_repeat_both_continuations(sv));
    result
}

// ─── Lyric line states ─────────────────────────────────────────────────

/// State of one lyric line after a lyric entry: a carried entry keeps the
/// line's state, "hyphen" and "extender" continue the line, anything else
/// ends it.
pub open spec fn next_line_state(entry: LyricView, current: Option<Seq<char>>) -> Option<Seq<char>> {
    if entry.carry {
        current
    } else if entry.continuation == "hyphen"@ || entry.continuation == "extender"@ {
        Some(entry.continuation)
    } else {
        None
    }
}

/// Line states with trailing empty states removed.
pub open spec fn trim_trailing_none(s: Seq<Option<Seq<char>>>) -> Seq<Option<Seq<char>>>
    decreases s.len(),
{
    if s.len() > 0 && s.last() is None {
        trim_trailing_none(s.drop_last())
    } else {
        s
    }
}

/// Lyric line states after an event: unchanged for events without lyrics;
/// otherwise each line up to the longer of the states and the entries takes
/// the state its entry gives (lines without an entry end), and trailing ended
/// lines are dropped.
pub open spec fn spec_advance_lyric_states(states: Seq<Option<Seq<char>>>, e: EventView) -> Seq<
    Option<Seq<char>>,
> {
    if !e.is_anchor() {
        states
    } else {
        let ly = e.lyrics();
        let n = if states.len() >= ly.len() {
            states.len()
        } else {
            ly.len()
        };
        trim_trailing_none(
            Seq::new(
                n,
                |li: int|
                    if li < ly.len() {
                        next_line_state(
                            ly[li],
                            if li < states.len() {
                                states[li]
                            } else {
                                None
                            },
                        )
                    } else {
                        None
                    },
            ),
        )
    }
}

/// Advance the lyric line states past one event.
pub fn advance_lyric_states(states: &[Option<String>], event: &Event) -> (r: Vec<Option<String>>)
    ensures
        opt_strs_view(r@) == spec_advance_lyric_states(opt_strs_view(states@), event@),
{
    let ghost sv = opt_strs_view(states@);
    if !event.is_anchor() {
        return crate::events::copy_opt_strings(states);
    }
    let lyrics = event.lyrics();
    let ghost ly = event@.lyrics();
    let line_count = if states.len() >= lyrics.len() { states.len() } else { lyrics.len() };
    let ghost full = Seq::new(
        line_count as nat,
        |li: int|
            if li < ly.len() {
                next_line_state(
                    ly[li],
                    if li < sv.len() {
                        sv[li]
                    } else {
                        None
                    },
                )
            } else {
                None
            },
    );
    let mut next_states: Vec<Option<String>> = Vec::new();
    let mut li: usize = 0;
    while li < line_count
        invariant
            sv == opt_strs_view(states@),
            lyrics_view(lyrics@) == ly,
            line_count == (if states@.len() >= lyrics@.len() {
                states@.len()
            } else {
                lyrics@.len()
            }),
            full.len() == line_count,
            forall|k: int| 0 <= k < line_count ==> #[trigger] full[k] == (if k < ly.len() {
                next_line_state(
                    ly[k],
                    if k < sv.len() {
                        sv[k]
                    } else {
                        None
                    },
                )
            } else {
                None
            }),
            li <= line_count,
            next_states@.len() == li,
            forall|k: int| 0 <= k < li ==> opt_str_view(#[trigger] next_states@[k]) == full[k],
        decreases line_count - li,
    {
        let ghost cur = if (li as int) < sv.len() {
            sv[li as int]
        } else {
            None
        };
        let current: Option<String> = if li < states.len() {
            assert(sv[li as int] == opt_str_view(states@[li as int]));
            crate::events::copy_opt_string(&states[li])
        } else {
            None
        };
        if li < lyrics.len() {
            let e = &lyrics[li];
            assert(ly[li as int] == e@);
            if e.carry {
                next_states.push(current);
            } else if str_eq(e.continuation.as_str(), "hyphen") || str_eq(e.continuation.as_str(), "extender") {
                next_states.push(Some(e.continuation.clone()));
            } else {
                next_states.push(None);
            }
        } else {
            next_states.push(None);
        }
        li += 1;
    }
    assert(opt_strs_view(next_states@) =~= full);
    // Trim trailing empty states.
    while next_states.len() > 0 && next_states[next_states.len() - 1].is_none()
        invariant
            trim_trailing_none(opt_strs_view(next_states@)) == trim_trailing_none(full),
        decreases next_states@.len(),
    {
        let ghost before = opt_strs_view(next_states@);
        next_states.pop();
        assert(opt_strs_view(next_states@) =~= before.drop_last());
    }
    proof {
        let v = opt_strs_view(next_states@);
        if v.len() > 0 {
            assert(v.last() == opt_str_view(next_states@[next_states@.len() - 1]));
        }
    }
    next_states
}

// ─── Systems of a staff ────────────────────────────────────────────────

/// A system of a staff ready for layout: its music, and the clef, time
/// signature and lyric line states it starts with.
pub struct PreparedSystem {
    pub events: Vec<Event>,
    pub clef: Option<String>,
    pub time: Option<TimeInfo>,
    pub show_time_prefix: bool,
    pub lyric_prefix_states: Vec<Option<String>>,
}

/// View of a prepared system.
pub struct PreparedSystemView {
    pub events: Seq<EventView>,
    pub clef: Option<Seq<char>>,
    pub time: Option<TimeInfoView>,
    pub show_time_prefix: bool,
    pub lyric_prefix_states: Seq<Option<Seq<char>>>,
}

impl View for PreparedSystem {
    type V = PreparedSystemView;

    open spec fn view(&self) -> PreparedSystemView {
        PreparedSystemView {
            events: events_view(self.events@),
            clef: opt_str_view(self.clef),
            time: opt_time_view(self.time),
            show_time_prefix: self.show_time_prefix,
            lyric_prefix_states: opt_strs_view(self.lyric_prefix_states@),
        }
    }
}

/// Number of leading line breaks.
pub open spec fn leading_breaks(s: Seq<EventView>, k: int) -> int
    decreases s.len() - k,
{
    if 0 <= k < s.len() && s[k] is LineBreak {
        leading_breaks(s, k + 1)
    } else {
        k
    }
}

/// The clef and time-signature changes from position `k` on, folded into the
/// clef, time signature and "show the time signature" flag; also where they end.
pub open spec fn header(
    s: Seq<EventView>,
    k: int,
    clef: Option<Seq<char>>,
    time: Option<TimeInfoView>,
    show: bool,
) -> (int, Option<Seq<char>>, Option<TimeInfoView>, bool)
    decreases s.len() - k,
{
    if 0 <= k < s.len() {
        match s[k] {
            EventView::Clef(c) => header(s, k + 1, Some(c), time, show),
            EventView::TimeSig(u, l, sym) => header(
                s,
                k + 1,
                clef,
                Some(TimeInfoView { upper: u, lower: l, symbol: sym }),
                true,
            ),
            _ => (k, clef, time, show),
        }
    } else {
        (k, clef, time, show)
    }
}

/// Lyric line states after a run of events.
pub open spec fn fold_lyrics(states: Seq<Option<Seq<char>>>, s: Seq<EventView>) -> Seq<Option<Seq<char>>>
    decreases s.len(),
{
    if s.len() == 0 {
        states
    } else {
        spec_advance_lyric_states(fold_lyrics(states, s.drop_last()), s.last())
    }
}

/// One system prepared from the clef, time signature and lyric states in
/// force before it: leading line breaks are dropped, leading clef and time
/// signature changes become the system's own, and the time signature is shown
/// when `show0` asks for it (and one is in force) or when the system changes it.
pub open spec fn system_view(
    s: Seq<EventView>,
    clef: Option<Seq<char>>,
    time: Option<TimeInfoView>,
    states: Seq<Option<Seq<char>>>,
    show0: bool,
) -> PreparedSystemView {
    let h = header(s, leading_breaks(s, 0), clef, time, show0 && time is Some);
    PreparedSystemView {
        events: s.skip(h.0),
        clef: h.1,
        time: h.2,
        show_time_prefix: h.3,
        lyric_prefix_states: states,
    }
}

/// Clef, time signature and lyric states in force after the first `n` systems.
pub open spec fn state_after(
    systems: Seq<Seq<EventView>>,
    n: int,
    clef0: Option<Seq<char>>,
    time0: Option<TimeInfoView>,
) -> (Option<Seq<char>>, Option<TimeInfoView>, Seq<Option<Seq<char>>>)
    decreases n,
{
    if n <= 0 {
        (clef0, time0, Seq::empty())
    } else {
        let st = state_after(systems, n - 1, clef0, time0);
        let v = system_view(systems[n - 1], st.0, st.1, st.2, false);
        (v.clef, v.time, fold_lyrics(st.2, v.events))
    }
}

/// System `i` of a staff, prepared.
pub open spec fn spec_prepared(
    systems: Seq<Seq<EventView>>,
    i: int,
    clef0: Option<Seq<char>>,
    time0: Option<TimeInfoView>,
    show_initial: bool,
) -> PreparedSystemView {
    let st = state_after(systems, i, clef0, time0);
    system_view(systems[i], st.0, st.1, st.2, i == 0 && show_initial)
}

proof fn lemma_leading_breaks_bound(s: Seq<EventView>, k: int)
    requires
        0 <= k <= s.len(),
    ensures
        k <= leading_breaks(s, k) <= s.len(),
    decreases s.len() - k,
{
    if k < s.len() && s[k] is LineBreak {
        lemma_leading_breaks_bound(s, k + 1);
    }
}

proof fn lemma_header_bound(
    s: Seq<EventView>,
    k: int,
    clef: Option<Seq<char>>,
    time: Option<TimeInfoView>,
    show: bool,
)
    requires
        0 <= k <= s.len(),
    ensures
        k <= header(s, k, clef, time, show).0 <= s.len(),
    decreases s.len() - k,
{
    if k < s.len() {
        match s[k] {
            EventView::Clef(c) => lemma_header_bound(s, k + 1, Some(c), time, show),
            EventView::TimeSig(u, l, sym) => lemma_header_bound(
                s,
                k + 1,
                clef,
                Some(TimeInfoView { upper: u, lower: l, symbol: sym }),
                true,
            ),
            _ => {},
        }
    }
}

proof fn lemma_header_show_irrelevant(
    s: Seq<EventView>,
    k: int,
    clef: Option<Seq<char>>,
    time: Option<TimeInfoView>,
    a: bool,
    b: bool,
)
    ensures
        header(s, k, clef, time, a).0 == header(s, k, clef, time, b).0,
        header(s, k, clef, time, a).1 == header(s, k, clef, time, b).1,
        header(s, k, clef, time, a).2 == header(s, k, clef, time, b).2,
    decreases s.len() - k,
{
    if 0 <= k < s.len() {
        match s[k] {
            EventView::Clef(c) => lemma_header_show_irrelevant(s, k + 1, Some(c), time, a, b),
            EventView::TimeSig(u, l, sym) => {},
            _ => {},
        }
    }
}

/// Prepare the systems of one staff, threading the clef, time signature and
/// lyric line states from each system into the next.
pub fn prepare_staff_systems(
    systems: &[Vec<Event>],
    initial_clef: Option<&str>,
    initial_time: Option<&TimeInfo>,
    show_initial_time: bool,
) -> (r: Vec<PreparedSystem>)
    ensures
        r@.len() == systems@.len(),
        forall|i: int|
            0 <= i < systems@.len() ==> (#[trigger] r@[i])@ == spec_prepared(
                groups_view(systems@),
                i,
                match initial_clef {
                    Some(c) => Some(c@),
                    None => None,
                },
                match initial_time {
                    Some(t) => Some(t@),
                    None => None,
                },
                show_initial_time,
            ),
{
    let ghost sv = groups_view(systems@);
    let ghost clef0 = match initial_clef {
        Some(c) => Some(c@),
        None => None,
    };
    let ghost time0 = match initial_time {
        Some(t) => Some(t@),
        None => None,
    };
    let mut prepared: Vec<PreparedSystem> = Vec::new();
    let mut current_clef: Option<String> = match initial_clef {
        Some(c) => Some(owned(c)),
        None => None,
    };
    let mut current_time: Option<TimeInfo> = match initial_time {
        Some(t) => Some(t.copy()),
        None => None,
    };
    let mut lyric_states: Vec<Option<String>> = Vec::new();
    let mut idx: usize = 0;
    while idx < systems.len()
        invariant
            sv == groups_view(systems@),
            idx <= systems@.len(),
            prepared@.len() == idx,
            ({
                let st = state_after(sv, idx as int, clef0, time0);
                &&& opt_str_view(current_clef) == st.0
                &&& opt_time_view(current_time) == st.1
                &&& opt_strs_view(lyric_states@) == st.2
            }),
            forall|i: int|
                0 <= i < idx ==> (#[trigger] prepared@[i])@ == spec_prepared(
                    sv,
                    i,
                    clef0,
                    time0,
                    show_initial_time,
                ),
        decreases systems@.len() - idx,
    {
        let sys = &systems[idx];
        let ghost s = sv[idx as int];
        assert(s == events_view(sys@));
        let mut system_clef = match &current_clef {
            Some(c) => Some(c.clone()),
            None => None,
        };
        let mut system_time = copy_opt_time(&current_time);
        let lyric_prefix_states = crate::events::copy_opt_strings(lyric_states.as_slice());
        let mut show_time = idx == 0 && show_initial_time && system_time.is_some();
        let mut start: usize = 0;
        while start < sys.len() && matches!(sys[start], Event::LineBreak)
            invariant
                s == events_view(sys@),
                start <= sys@.len(),
                leading_breaks(s, 0) == leading_breaks(s, start as int),
            decreases sys@.len() - start,
        {
            assert(s[start as int] == sys@[start as int]@);
            start += 1;
        }
        proof {
            if start < sys@.len() {
                assert(s[start as int] == sys@[start as int]@);
            }
        }
        let ghost h0 = header(s, start as int, opt_str_view(system_clef), opt_time_view(system_time), show_time);
        while start < sys.len() && matches!(sys[start], Event::Clef(_) | Event::TimeSig(..))
            invariant
                s == events_view(sys@),
                start <= sys@.len(),
                header(s, start as int, opt_str_view(system_clef), opt_time_view(system_time), show_time) == h0,
            decreases sys@.len() - start,
        {
            assert(s[start as int] == sys@[start as int]@);
            match &sys[start] {
                Event::Clef(c) => {
                    system_clef = Some(c.clone());
                },
                Event::TimeSig(u, l, sym) => {
                    system_time = Some(TimeInfo { upper: *u, lower: *l, symbol: crate::events::copy_opt_string(sym) });
                    show_time = true;
                },
                _ => {},
            }
            start += 1;
        }
        proof {
            if start < sys@.len() {
                assert(s[start as int] == sys@[start as int]@);
            }
            assert(h0.0 == start);
        }
        let cleaned = copy_event_range(sys.as_slice(), start, sys.len());
        assert(events_view(cleaned@) =~= s.skip(start as int));
        let cleaned2 = copy_event_range(cleaned.as_slice(), 0, cleaned.len());
        assert(cleaned@.subrange(0, cleaned@.len() as int) =~= cleaned@);
        let ps = PreparedSystem {
            events: cleaned2,
            clef: match &system_clef {
                Some(c) => Some(c.clone()),
                None => None,
            },
            time: copy_opt_time(&system_time),
            show_time_prefix: show_time,
            lyric_prefix_states,
        };
        assert(ps@ == spec_prepared(sv, idx as int, clef0, time0, show_initial_time));
        prepared.push(ps);
        current_clef = system_clef;
        current_time = system_time;
        // Advance the lyric states through the system's music.
        let ghost st_before = opt_strs_view(lyric_states@);
        let ghost cv = events_view(cleaned@);
        let mut k: usize = 0;
        assert(cv.take(0) =~= Seq::<EventView>::empty());
        while k < cleaned.len()
            invariant
                cv == events_view(cleaned@),
                k <= cleaned@.len(),
                opt_strs_view(lyric_states@) == fold_lyrics(st_before, cv.take(k as int)),
            decreases cleaned@.len() - k,
        {
            assert(cv.take(k + 1).drop_last() =~= cv.take(k as int));
            assert(cv.take(k + 1).last() == cleaned@[k as int]@);
            lyric_states = advance_lyric_states(lyric_states.as_slice(), &cleaned[k]);
            k += 1;
        }
        assert(cv.take(cleaned@.len() as int) =~= cv);
        proof {
            let st = state_after(sv, idx as int, clef0, time0);
            lemma_header_show_irrelevant(s, leading_breaks(s, 0), st.0, st.1, false, idx == 0 && show_initial_time && st.1 is Some);
        }
        idx += 1;
    }
    prepared
}


// ─── Laws ──────────────────────────────────────────────────────────────

proof fn lemma_prefix_count_at(s: Seq<EventView>, k: int)
    requires
        0 <= k <= s.len(),
        forall|j: int| 0 <= j < k ==> is_prefix_event(#[trigger] s[j]),
        k < s.len() ==> !is_prefix_event(s[k]),
    ensures
        spec_leading_prefix_count(s) == k,
    decreases k,
{
    if k > 0 {
        assert forall|j: int| 0 <= j < k - 1 implies is_prefix_event(#[trigger] s.drop_first()[j]) by {
            assert(s.drop_first()[j] == s[j + 1]);
        }
        if k - 1 < s.drop_first().len() {
            assert(s.drop_first()[k - 1] == s[k]);
        }
        lemma_prefix_count_at(s.drop_first(), k - 1);
        assert(is_prefix_event(s[0]));
    }
}

/// After carrying repeats across system breaks, every system that follows a
/// system ending in a combined end/start repeat opens (after its leading line
/// breaks, clefs and time signatures) with a start-repeat barline; every other
/// system is left as it was; no system is added or dropped.
pub proof fn repeat_continuations_open_systems(systems: Seq<Seq<EventView>>, i: int)
    requires
        0 <= i < systems.len(),
    ensures
        spec_add_repeat_both_continuations(systems).len() == systems.len(),
        i > 0 && ends_with_repeat_both(systems[i - 1]) ==> spec_starts_with_repeat_start(
            spec_add_repeat_both_continuations(systems)[i],
        ),
        !(i > 0 && ends_with_repeat_both(systems[i - 1])) ==> spec_add_repeat_both_continuations(
            systems,
        )[i] == systems[i],
{
    let s = systems[i];
    let r = spec_add_repeat_both_continuations(systems)[i];
    if i > 0 && ends_with_repeat_both(systems[i - 1]) && !spec_starts_with_repeat_start(s) {
        let k = spec_leading_prefix_count(s);
        lemma_prefix_count_bound(s);
        let b = EventView::Barline("repeat-start"@);
        assert(r == s.insert(k, b));
        assert forall|j: int| 0 <= j < k implies is_prefix_event(#[trigger] r[j]) by {
            assert(r[j] == s[j]);
        }
        assert(r[k] == b);
        lemma_prefix_count_at(r, k);
    }
}

/// Trailing ended lyric lines never survive an event: states without a
/// trailing ended line stay so, and the number of lines never exceeds the
/// larger of the lines before and the event's lyric entries.
pub proof fn lyric_states_stay_trimmed(states: Seq<Option<Seq<char>>>, e: EventView)
    requires
        states.len() == 0 || states.last() is Some,
    ensures
        ({
            let r = spec_advance_lyric_states(states, e);
            &&& r.len() == 0 || r.last() is Some
            &&& r.len() <= states.len() || r.len() <= e.lyrics().len()
        }),
{
    if e.is_anchor() {
        let ly = e.lyrics();
        let n = if states.len() >= ly.len() {
            states.len()
        } else {
            ly.len()
        };
        let full = Seq::new(
            n,
            |li: int|
                if li < ly.len() {
                    next_line_state(
                        ly[li],
                        if li < states.len() {
                            states[li]
                        } else {
                            None
                        },
                    )
                } else {
                    None
                },
        );
        lemma_trim_trailing_none(full);
    }
}

proof fn lemma_trim_trailing_none(s: Seq<Option<Seq<char>>>)
    ensures
        trim_trailing_none(s).len() <= s.len(),
        trim_trailing_none(s).len() == 0 || trim_trailing_none(s).last() is Some,
    decreases s.len(),
{
    if s.len() > 0 && s.last() is None {
        lemma_trim_trailing_none(s.drop_last());
    }
}

/// No system of the music changes the clef.
pub open spec fn no_clef_changes(systems: Seq<Seq<EventView>>) -> bool {
    forall|i: int, j: int|
        0 <= i < systems.len() && 0 <= j < systems[i].len() ==> !(#[trigger] systems[i][j] is Clef)
}

proof fn lemma_header_keeps_clef(
    s: Seq<EventView>,
    k: int,
    clef: Option<Seq<char>>,
    time: Option<TimeInfoView>,
    show: bool,
)
    requires
        forall|j: int| 0 <= j < s.len() ==> !(#[trigger] s[j] is Clef),
    ensures
        header(s, k, clef, time, show).1 == clef,
    decreases s.len() - k,
{
    if 0 <= k < s.len() {
        match s[k] {
            EventView::Clef(c) => {},
            EventView::TimeSig(u, l, sym) => lemma_header_keeps_clef(
                s,
                k + 1,
                clef,
                Some(TimeInfoView { upper: u, lower: l, symbol: sym }),
                true,
            ),
            _ => {},
        }
    }
}

proof fn lemma_state_keeps_clef(
    systems: Seq<Seq<EventView>>,
    n: int,
    clef0: Option<Seq<char>>,
    time0: Option<TimeInfoView>,
)
    requires
        no_clef_changes(systems),
        n <= systems.len(),
    ensures
        state_after(systems, n, clef0, time0).0 == clef0,
    decreases n,
{
    if n > 0 {
        lemma_state_keeps_clef(systems, n - 1, clef0, time0);
        let st = state_after(systems, n - 1, clef0, time0);
        let s = systems[n - 1];
        assert forall|j: int| 0 <= j < s.len() implies !(#[trigger] s[j] is Clef) by {
            assert(!(systems[n - 1][j] is Clef));
        }
        lemma_header_keeps_clef(s, leading_breaks(s, 0), st.0, st.1, false);
    }
}

/// Every system is drawn with the clef in force where it starts: with no clef
/// change in the music, each system carries the staff's initial clef.
pub proof fn systems_keep_initial_clef(
    systems: Seq<Seq<EventView>>,
    i: int,
    clef0: Option<Seq<char>>,
    time0: Option<TimeInfoView>,
    show_initial: bool,
)
    requires
        no_clef_changes(systems),
        0 <= i < systems.len(),
    ensures
        spec_prepared(systems, i, clef0, time0, show_initial).clef == clef0,
{
    lemma_state_keeps_clef(systems, i, clef0, time0);
    let st = state_after(systems, i, clef0, time0);
    let s = systems[i];
    assert forall|j: int| 0 <= j < s.len() implies !(#[trigger] s[j] is Clef) by {
        assert(!(systems[i][j] is Clef));
    }
    lemma_header_keeps_clef(s, leading_breaks(s, 0), st.0, st.1, i == 0 && show_initial && st.1 is Some);
}

} // verus!
