//! Whole-measure rests: a whole rest that is the only note, chord, rest or
//! spacer of its measure is centred between the measure's barlines.

use vstd::prelude::*;
use crate::events::{Event, EventView, events_view};

verus! {

/// Events that fill a measure: notes, chords, rests and spacers.
pub open spec fn is_measure_content(e: EventView) -> bool {
    e is Note || e is Chord || e is Rest || e is Spacer
}

/// Index of the last barline before event `i`, if any.
pub open spec fn barline_before(evs: Seq<EventView>, i: int) -> Option<int>
    decreases i,
{
    if i <= 0 {
        None
    } else if evs[i - 1].is_barline() {
        Some(i - 1)
    } else {
        barline_before(evs, i - 1)
    }
}

/// Index of the first barline at or after event `j`, if any.
pub open spec fn barline_from(evs: Seq<EventView>, j: int) -> Option<int>
    decreases evs.len() - j,
{
    if j < 0 || j >= evs.len() {
        None
    } else if evs[j].is_barline() {
        Some(j)
    } else {
        barline_from(evs, j + 1)
    }
}

/// Number of measure-filling events among events `a` to `b - 1`.
pub open spec fn content_count(evs: Seq<EventView>, a: int, b: int) -> int
    decreases b - a,
{
    if b <= a {
        0
    } else {
        content_count(evs, a, b - 1) + if is_measure_content(evs[b - 1]) {
            1int
        } else {
            0int
        }
    }
}

/// First event of the measure holding event `i`.
pub open spec fn measure_start(evs: Seq<EventView>, i: int) -> int {
    match barline_before(evs, i) {
        Some(p) => p + 1,
        None => 0,
    }
}

/// End (exclusive) of the measure holding event `i`: its closing barline, or
/// the end of the staff.
pub open spec fn measure_end(evs: Seq<EventView>, i: int) -> int {
    match barline_from(evs, i + 1) {
        Some(q) => q,
        None => evs.len() as int,
    }
}

/// The barlines around event `i` when it is a whole rest alone in its measure.
pub open spec fn spec_whole_measure_rest(evs: Seq<EventView>, i: int) -> Option<(Option<int>, Option<int>)> {
    if (evs[i] matches EventView::Rest(r) && r.duration == 1) && content_count(
        evs,
        measure_start(evs, i),
        measure_end(evs, i),
    ) == 1 {
        Some((barline_before(evs, i), barline_from(evs, i + 1)))
    } else {
        None
    }
}

proof fn lemma_barline_before(evs: Seq<EventView>, i: int)
    requires
        0 <= i <= evs.len(),
    ensures
        match barline_before(evs, i) {
            Some(p) => 0 <= p < i && evs[p].is_barline() && forall|q: int|
                p < q < i ==> !(#[trigger] evs[q]).is_barline(),
            None => forall|q: int| 0 <= q < i ==> !(#[trigger] evs[q]).is_barline(),
        },
    decreases i,
{
    if i > 0 {
        lemma_barline_before(evs, i - 1);
    }
}

proof fn lemma_barline_from(evs: Seq<EventView>, j: int)
    requires
        0 <= j <= evs.len(),
    ensures
        match barline_from(evs, j) {
            Some(q) => j <= q < evs.len() && evs[q].is_barline() && forall|k: int|
                j <= k < q ==> !(#[trigger] evs[k]).is_barline(),
            None => forall|k: int| j <= k < evs.len() ==> !(#[trigger] evs[k]).is_barline(),
        },
    decreases evs.len() - j,
{
    if j < evs.len() {
        lemma_barline_from(evs, j + 1);
    }
}

fn find_barline_before(events: &[Event], i: usize) -> (r: Option<usize>)
    requires
        i <= events@.len(),
    ensures
        barline_before(events_view(events@), i as int) == match r {
            Some(p) => Some(p as int),
            None => None,
        },
        r matches Some(p) ==> p < i,
{
    let ghost evs = events_view(events@);
    let mut k: usize = i;
    while k > 0
        invariant
            evs == events_view(events@),
            i <= events@.len(),
            k <= i,
            barline_before(evs, i as int) == barline_before(evs, k as int),
        decreases k,
    {
        assert(evs[k - 1] == events@[k - 1]@);
        if events[k - 1].is_barline() {
            return Some(k - 1);
        }
        k -= 1;
    }
    None
}

fn find_barline_from(events: &[Event], j0: usize) -> (r: Option<usize>)
    requires
        j0 <= events@.len(),
    ensures
        barline_from(events_view(events@), j0 as int) == match r {
            Some(q) => Some(q as int),
            None => None,
        },
{
    let ghost evs = events_view(events@);
    let mut j: usize = j0;
    while j < events.len()
        invariant
            evs == events_view(events@),
            j0 <= j <= events@.len(),
            barline_from(evs, j0 as int) == barline_from(evs, j as int),
        decreases events@.len() - j,
    {
        assert(evs[j as int] == events@[j as int]@);
        if events[j].is_barline() {
            return Some(j);
        }
        j += 1;
    }
    None
}

/// Where a whole rest alone in its measure is centred: the barlines before
/// and after it (none at the start or end of the staff); `None` for any other
/// event.
pub fn whole_measure_rest(events: &[Event], i: usize) -> (r: Option<(Option<usize>, Option<usize>)>)
    requires
        i < events@.len(),
    ensures
        match r {
            Some(p) => spec_whole_measure_rest(events_view(events@), i as int) == Some(
                (
                    match p.0 {
                        Some(a) => Some(a as int),
                        None => None,
                    },
                    match p.1 {
                        Some(b) => Some(b as int),
                        None => None,
                    },
                ),
            ),
            None => spec_whole_measure_rest(events_view(events@), i as int) is None,
        },
{
    let ghost evs = events_view(events@);
    assert(evs[i as int] == events@[i as int]@);
    let is_whole_rest = match &events[i] {
        Event::Rest(r) => r.duration == 1,
        _ => false,
    };
    if !is_whole_rest {
        return None;
    }
    let prev = find_barline_before(events, i);
    let next = find_barline_from(events, i + 1);
    let start: usize = match prev {
        Some(p) => p + 1,
        None => 0,
    };
    let end: usize = match next {
        Some(q) => q,
        None => events.len(),
    };
    proof {
        lemma_barline_before(evs, i as int);
        lemma_barline_from(evs, i + 1);
    }
    assert(start == measure_start(evs, i as int));
    assert(end == measure_end(evs, i as int));
    // Count the measure's content.
    let mut count: usize = 0;
    let mut m: usize = start;
    while m < end
        invariant
            evs == events_view(events@),
            start <= m <= end <= events@.len(),
            count == content_count(evs, start as int, m as int),
            count <= m - start,
        decreases end - m,
    {
        assert(evs[m as int] == events@[m as int]@);
        if matches!(events[m], Event::Note(_) | Event::Chord(_) | Event::Rest(_) | Event::Spacer(_)) {
            count += 1;
        }
        m += 1;
    }
    if count == 1 {
        Some((prev, next))
    } else {
        None
    }
}

proof fn lemma_content_count_split(evs: Seq<EventView>, a: int, m: int, b: int)
    requires
        a <= m <= b,
    ensures
        content_count(evs, a, b) == content_count(evs, a, m) + content_count(evs, m, b),
    decreases b - m,
{
    if b > m {
        lemma_content_count_split(evs, a, m, b - 1);
    }
}

proof fn lemma_content_count_nonneg(evs: Seq<EventView>, a: int, b: int)
    ensures
        content_count(evs, a, b) >= 0,
    decreases b - a,
{
    if b > a {
        lemma_content_count_nonneg(evs, a, b - 1);
    }
}

/// A whole rest found alone in its measure lies between the barlines
/// returned, no barline lies between them, and no other note, chord, rest or
/// spacer shares the measure.
pub proof fn whole_measure_rest_is_alone(evs: Seq<EventView>, i: int)
    requires
        0 <= i < evs.len(),
        spec_whole_measure_rest(evs, i) is Some,
    ensures
        ({
            let s = measure_start(evs, i);
            let e = measure_end(evs, i);
            &&& 0 <= s <= i < e <= evs.len()
            &&& forall|q: int| s <= q < e ==> !(#[trigger] evs[q]).is_barline()
            &&& forall|q: int| s <= q < e && q != i ==> !is_measure_content(#[trigger] evs[q])
        }),
{
    lemma_barline_before(evs, i);
    lemma_barline_from(evs, i + 1);
    let s = measure_start(evs, i);
    let e = measure_end(evs, i);
    assert forall|q: int| s <= q < e && q != i implies !is_measure_content(#[trigger] evs[q]) by {
        if is_measure_content(evs[q]) {
            let (lo, hi) = if q < i {
                (q, i)
            } else {
                (i, q)
            };
            lemma_content_count_split(evs, s, lo, e);
            lemma_content_count_split(evs, lo, lo + 1, e);
            lemma_content_count_split(evs, lo + 1, hi, e);
            lemma_content_count_split(evs, hi, hi + 1, e);
            lemma_content_count_nonneg(evs, s, lo);
            lemma_content_count_nonneg(evs, lo + 1, hi);
            lemma_content_count_nonneg(evs, hi + 1, e);
            assert(content_count(evs, lo, lo) == 0);
            assert(content_count(evs, hi, hi) == 0);
            assert(content_count(evs, lo, lo + 1) == 1);
            assert(content_count(evs, hi, hi + 1) == 1);
        }
    }
}

} // verus!
