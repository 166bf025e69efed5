//! Lyrics under a staff: how many lines (verses) there are, which notes carry
//! a syllable, and which consecutive syllables are joined by a hyphen or by a
//! melisma extender.

use vstd::prelude::*;
use crate::events::{Event, EventView, events_view};
use crate::text::str_eq;

verus! {

/// Lyric line `li` of event `e` shows a syllable: the event is a note or
/// chord, its entry on that line is not a carried one, and the entry's text is
/// present and nonempty.
pub open spec fn has_syllable(e: EventView, li: int) -> bool {
    &&& e.is_anchor()
    &&& 0 <= li < e.lyrics().len()
    &&& !e.lyrics()[li].carry
    &&& e.lyrics()[li].text matches Some(t) && t.len() > 0
}

/// A joint between two syllables of one lyric line: a hyphen centred between
/// them, or an extender line held from the first towards the second.
#[derive(Debug, Clone, Copy, PartialEq, Eq, Structural)]
pub struct LyricLink {
    pub line: usize,
    pub from: usize,
    pub to: usize,
    pub hyphen: bool,
}

/// Joints of line `li` among the first `n` events, and the last syllable seen
/// with its continuation: each syllable is joined to the previous syllable of
/// the line when that one asked for a hyphen or an extender.
pub open spec fn line_scan(evs: Seq<EventView>, li: int, n: int) -> (Seq<LyricLink>, Option<(int, Seq<char>)>)
    decreases n,
{
    if n <= 0 {
        (Seq::empty(), None)
    } else {
        let prev = line_scan(evs, li, n - 1);
        let idx = n - 1;
        if has_syllable(evs[idx], li) {
            let cont = evs[idx].lyrics()[li].continuation;
            let links = match prev.1 {
                Some(p) => if p.1 == "hyphen"@ {
                    prev.0.push(LyricLink { line: li as usize, from: p.0 as usize, to: idx as usize, hyphen: true })
                } else if p.1 == "extender"@ {
                    prev.0.push(LyricLink { line: li as usize, from: p.0 as usize, to: idx as usize, hyphen: false })
                } else {
                    prev.0
                },
                None => prev.0,
            };
            (links, Some((idx, cont)))
        } else {
            prev
        }
    }
}

/// Joints of the first `m` lyric lines, line by line.
pub open spec fn links_upto(evs: Seq<EventView>, m: int) -> Seq<LyricLink>
    decreases m,
{
    if m <= 0 {
        Seq::empty()
    } else {
        links_upto(evs, m - 1) + line_scan(evs, m - 1, evs.len() as int).0
    }
}

/// Number of lyric lines of a staff: the most entries any note or chord has,
/// and at least as many as the lines continued from the previous system.
pub open spec fn spec_lyric_line_count(evs: Seq<EventView>, carried: int, n: int) -> int
    decreases n,
{
    if n <= 0 {
        carried
    } else {
        let c = spec_lyric_line_count(evs, carried, n - 1);
        let k = evs[n - 1].lyrics().len() as int;
        if k > c {
            k
        } else {
            c
        }
    }
}

/// Number of lyric lines to draw.
pub fn lyric_line_count(events: &[Event], carried_lines: usize) -> (r: usize)
    ensures
        r == spec_lyric_line_count(events_view(events@), carried_lines as int, events@.len() as int),
{
    let ghost evs = events_view(events@);
    let mut count = carried_lines;
    let mut i: usize = 0;
    while i < events.len()
        invariant
            evs == events_view(events@),
            i <= events@.len(),
            count == spec_lyric_line_count(evs, carried_lines as int, i as int),
        decreases events@.len() - i,
    {
        assert(evs[i as int] == events@[i as int]@);
        let k = events[i].lyrics().len();
        if k > count {
            count = k;
        }
        i += 1;
    }
    count
}

fn syllable_at(ev: &Event, li: usize) -> (r: bool)
    ensures
        r == has_syllable(ev@, li as int),
{
    if !ev.is_anchor() {
        return false;
    }
    let lyrics = ev.lyrics();
    if li >= lyrics.len() {
        return false;
    }
    let entry = &lyrics[li];
    proof {
        assert(ev@.lyrics()[li as int] == entry@);
    }
    if entry.carry {
        return false;
    }
    match &entry.text {
        Some(t) => t.unicode_len() > 0,
        None => false,
    }
}

/// Hyphens and extenders joining the syllables of every lyric line, line by
/// line, in the order of the notes.
pub fn lyric_links(events: &[Event], line_count: usize) -> (r: Vec<LyricLink>)
    ensures
        r@ == links_upto(events_view(events@), line_count as int),
{
    let ghost evs = events_view(events@);
    let mut links: Vec<LyricLink> = Vec::new();
    let mut li: usize = 0;
    while li < line_count
        invariant
            evs == events_view(events@),
            li <= line_count,
            links@ == links_upto(evs, li as int),
        decreases line_count - li,
    {
        let ghost before = links@;
        let mut prev: Option<(usize, bool, bool)> = None;
        let mut i: usize = 0;
        while i < events.len()
            invariant
                evs == events_view(events@),
                li < line_count,
                i <= events@.len(),
                links@ == before + line_scan(evs, li as int, i as int).0,
                match line_scan(evs, li as int, i as int).1 {
                    None => prev is None,
                    Some(p) => prev matches Some(q) && q.0 == p.0 && q.1 == (p.1 == "hyphen"@)
                        && q.2 == (p.1 == "extender"@),
                },
            decreases events@.len() - i,
        {
            let ev = &events[i];
            assert(evs[i as int] == ev@);
            if syllable_at(ev, li) {
                let lyrics = ev.lyrics();
                let entry = &lyrics[li];
                assert(ev@.lyrics()[li as int] == entry@);
                match prev {
                    Some((p, hy, ex)) => {
                        if hy {
                            links.push(LyricLink { line: li, from: p, to: i, hyphen: true });
                        } else if ex {
                            links.push(LyricLink { line: li, from: p, to: i, hyphen: false });
                        }
                    },
                    None => {},
                }
                let hy = str_eq(entry.continuation.as_str(), "hyphen");
                let ex = str_eq(entry.continuation.as_str(), "extender");
                prev = Some((i, hy, ex));
            }
            i += 1;
        }
        li += 1;
    }
    links
}

/// Syllables `a` and `b` of line `li` follow each other: `a` comes first and
/// no note between them has a syllable on that line.
pub open spec fn consecutive_syllables(evs: Seq<EventView>, li: int, a: int, b: int) -> bool {
    &&& 0 <= a < b < evs.len()
    &&& has_syllable(evs[a], li)
    &&& has_syllable(evs[b], li)
    &&& forall|q: int| a < q < b ==> !has_syllable(#[trigger] evs[q], li)
}

/// The joint that syllable `a` asks for towards the next syllable of its line.
pub open spec fn asks_for_link(evs: Seq<EventView>, li: int, a: int) -> bool {
    evs[a].lyrics()[li].continuation == "hyphen"@ || evs[a].lyrics()[li].continuation
        == "extender"@
}

/// What the scan of line `li` over the first `n` events has established.
pub open spec fn line_scan_ok(evs: Seq<EventView>, li: int, n: int) -> bool {
    let st = line_scan(evs, li, n);
    &&& match st.1 {
        Some(p) => {
            &&& 0 <= p.0 < n
            &&& has_syllable(evs[p.0], li)
            &&& p.1 == evs[p.0].lyrics()[li].continuation
            &&& forall|q: int| p.0 < q < n ==> !has_syllable(#[trigger] evs[q], li)
        },
        None => forall|q: int| 0 <= q < n ==> !has_syllable(#[trigger] evs[q], li),
    }
    &&& forall|k: int|
        0 <= k < st.0.len() ==> {
            let l = #[trigger] st.0[k];
            &&& l.line == li
            &&& l.to < n
            &&& consecutive_syllables(evs, li, l.from as int, l.to as int)
            &&& asks_for_link(evs, li, l.from as int)
            &&& l.hyphen == (evs[l.from as int].lyrics()[li].continuation == "hyphen"@)
        }
    &&& forall|a: int, b: int|
        b < n && consecutive_syllables(evs, li, a, b) && asks_for_link(evs, li, a) ==> exists|k: int|
            0 <= k < st.0.len() && (#[trigger] st.0[k]).from == a && st.0[k].to == b
}

proof fn lemma_line_scan(evs: Seq<EventView>, li: int, n: int)
    requires
        0 <= li < usize::MAX,
        0 <= n <= evs.len(),
        evs.len() <= usize::MAX,
    ensures
        line_scan_ok(evs, li, n),
    decreases n,
{
    if n > 0 {
        lemma_line_scan(evs, li, n - 1);
        let prev = line_scan(evs, li, n - 1);
        let st = line_scan(evs, li, n);
        let idx = n - 1;
        if has_syllable(evs[idx], li) {
            assert forall|k: int| 0 <= k < prev.0.len() implies st.0[k] == prev.0[k] by {}
            match prev.1 {
                Some(p) => {
                    if st.0.len() > prev.0.len() {
                        let l = st.0.last();
                        assert(l.from == p.0 && l.to == idx);
                        assert(consecutive_syllables(evs, li, p.0, idx));
                    }
                    assert forall|a: int, b: int|
                        b < n && consecutive_syllables(evs, li, a, b) && asks_for_link(evs, li, a) implies exists|k: int|
                            0 <= k < st.0.len() && (#[trigger] st.0[k]).from == a && st.0[k].to == b by {
                        if b < n - 1 {
                            let k = choose|k: int| 0 <= k < prev.0.len() && (#[trigger] prev.0[k]).from == a && prev.0[k].to == b;
                            assert(st.0[k] == prev.0[k]);
                        } else {
                            if a < p.0 {
                                assert(!has_syllable(evs[p.0], li));
                            }
                            if a > p.0 {
                                assert(!has_syllable(evs[a], li));
                            }
                            assert(a == p.0);
                            let k = st.0.len() - 1;
                            assert(st.0[k].from == a && st.0[k].to == b);
                        }
                    }
                },
                None => {
                    assert forall|a: int, b: int|
                        b < n && consecutive_syllables(evs, li, a, b) && asks_for_link(evs, li, a) implies exists|k: int|
                            0 <= k < st.0.len() && (#[trigger] st.0[k]).from == a && st.0[k].to == b by {
                        if b < n - 1 {
                            let k = choose|k: int| 0 <= k < prev.0.len() && (#[trigger] prev.0[k]).from == a && prev.0[k].to == b;
                            assert(st.0[k] == prev.0[k]);
                        } else {
                            assert(!has_syllable(evs[a], li));
                        }
                    }
                },
            }
        } else {
            assert forall|a: int, b: int|
                b < n && consecutive_syllables(evs, li, a, b) && asks_for_link(evs, li, a) implies exists|k: int|
                    0 <= k < st.0.len() && (#[trigger] st.0[k]).from == a && st.0[k].to == b by {
                assert(b < n - 1);
            }
        }
    }
}

/// Lyric joints are exactly the hyphens and extenders that syllables ask for
/// towards the next syllable of their line: every joint links two consecutive
/// syllables of one line, of the kind the first one asks for, and every
/// syllable asking for a joint gets one to the next syllable of its line.
pub proof fn lyric_links_join_consecutive_syllables(evs: Seq<EventView>, m: int)
    requires
        0 <= m < usize::MAX,
        evs.len() <= usize::MAX,
    ensures
        forall|k: int|
            0 <= k < links_upto(evs, m).len() ==> {
                let l = #[trigger] links_upto(evs, m)[k];
                &&& l.line < m
                &&& consecutive_syllables(evs, l.line as int, l.from as int, l.to as int)
                &&& asks_for_link(evs, l.line as int, l.from as int)
                &&& l.hyphen == (evs[l.from as int].lyrics()[l.line as int].continuation == "hyphen"@)
            },
        forall|li: int, a: int, b: int|
            0 <= li < m && consecutive_syllables(evs, li, a, b) && asks_for_link(evs, li, a)
                ==> exists|k: int|
                0 <= k < links_upto(evs, m).len() && (#[trigger] links_upto(evs, m)[k]).line == li
                    && links_upto(evs, m)[k].from == a && links_upto(evs, m)[k].to == b,
    decreases m,
{
    if m > 0 {
        lyric_links_join_consecutive_syllables(evs, m - 1);
        let n = evs.len() as int;
        lemma_line_scan(evs, m - 1, n);
        let before = links_upto(evs, m - 1);
        let scan = line_scan(evs, m - 1, n).0;
        let all = links_upto(evs, m);
        assert(all == before + scan);
        assert forall|k: int| 0 <= k < all.len() implies {
            let l = #[trigger] all[k];
            &&& l.line < m
            &&& consecutive_syllables(evs, l.line as int, l.from as int, l.to as int)
            &&& asks_for_link(evs, l.line as int, l.from as int)
            &&& l.hyphen == (evs[l.from as int].lyrics()[l.line as int].continuation == "hyphen"@)
        } by {
            if k < before.len() {
                assert(all[k] == before[k]);
            } else {
                assert(all[k] == scan[k - before.len()]);
            }
        }
        assert forall|li: int, a: int, b: int|
            0 <= li < m && consecutive_syllables(evs, li, a, b) && asks_for_link(evs, li, a)
                implies exists|k: int|
                0 <= k < all.len() && (#[trigger] all[k]).line == li && all[k].from == a
                    && all[k].to == b by {
            if li < m - 1 {
                let k = choose|k: int|
                    0 <= k < before.len() && (#[trigger] before[k]).line == li && before[k].from == a
                        && before[k].to == b;
                assert(all[k] == before[k]);
            } else {
                let j = choose|j: int| 0 <= j < scan.len() && (#[trigger] scan[j]).from == a && scan[j].to == b;
                assert(all[before.len() + j] == scan[j]);
            }
        }
    }
}

} // verus!
