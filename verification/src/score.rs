//! Cutting every staff of a score into the same systems: the first staff's
//! systems decide, the other staves follow them measure for measure.

use vstd::prelude::*;
use crate::events::{Event, EventView, events_view, copy_event_range};
use crate::segment::{
    groups_view, count_barlines, has_line_breaks, split_at_line_breaks,
    spec_split_at_line_breaks, compute_system_breaks_by_count, spec_breaks_by_count, mirror_breaks,
    spec_mirror_breaks, mirror_breaks_system_count,
};
use crate::systems::{add_repeat_both_continuations, spec_add_repeat_both_continuations};

verus! {

/// The stream holds a forced system break.
pub open spec fn spec_has_line_breaks(s: Seq<EventView>) -> bool {
    exists|i: int| 0 <= i < s.len() && (#[trigger] s[i]).is_line_break()
}

/// The first staff's systems when they do not depend on the page width: cut
/// at forced breaks if there are any, else `mpl` measures per system if a
/// count is given (a count below 1 leaves the music in one system); `None`
/// when the width decides.
pub open spec fn spec_first_staff_systems(s: Seq<EventView>, mpl: Option<i32>) -> Option<
    Seq<Seq<EventView>>,
> {
    if spec_has_line_breaks(s) {
        Some(spec_split_at_line_breaks(s))
    } else {
        match mpl {
            Some(m) => if m > 0 {
                Some(spec_breaks_by_count(s, m as int))
            } else {
                Some(seq![s])
            },
            None => None,
        }
    }
}

/// Systems of the first staff, unless they depend on the available width.
pub fn first_staff_systems(events: &[Event], measures_per_line: Option<i32>) -> (r: Option<
    Vec<Vec<Event>>,
>)
    ensures
        match r {
            Some(v) => spec_first_staff_systems(events_view(events@), measures_per_line) == Some(
                groups_view(v@),
            ),
            None => spec_first_staff_systems(events_view(events@), measures_per_line) is None,
        },
{
    proof {
        lemma_line_breaks_view(events@);
    }
    if has_line_breaks(events) {
        Some(split_at_line_breaks(events))
    } else {
        match measures_per_line {
            Some(m) => {
                if m > 0 {
                    Some(compute_system_breaks_by_count(events, m))
                } else {
                    let all = copy_event_range(events, 0, events.len());
                    assert(events@.subrange(0, events@.len() as int) =~= events@);
                    let mut v: Vec<Vec<Event>> = Vec::new();
                    v.push(all);
                    assert(groups_view(v@) =~= seq![events_view(events@)]);
                    Some(v)
                }
            },
            None => None,
        }
    }
}

proof fn lemma_line_breaks_view(v: Seq<Event>)
    ensures
        spec_has_line_breaks(events_view(v)) == exists|i: int|
            0 <= i < v.len() && (#[trigger] v[i])@.is_line_break(),
{
    if spec_has_line_breaks(events_view(v)) {
        let i = choose|i: int| 0 <= i < events_view(v).len() && (#[trigger] events_view(v)[i]).is_line_break();
        assert(v[i]@.is_line_break());
    }
    if exists|i: int| 0 <= i < v.len() && (#[trigger] v[i])@.is_line_break() {
        let i = choose|i: int| 0 <= i < v.len() && (#[trigger] v[i])@.is_line_break();
        assert(events_view(v)[i].is_line_break());
    }
}

/// Number of measures (barlines) in each system.
pub fn system_measure_counts(systems: &[Vec<Event>]) -> (r: Vec<usize>)
    ensures
        r@.len() == systems@.len(),
        forall|i: int|
            0 <= i < systems@.len() ==> r@[i] == count_barlines(events_view((#[trigger] systems@[i])@)),
{
    let mut counts: Vec<usize> = Vec::new();
    let mut i: usize = 0;
    while i < systems.len()
        invariant
            i <= systems@.len(),
            counts@.len() == i,
            forall|k: int|
                0 <= k < i ==> counts@[k] == count_barlines(events_view((#[trigger] systems@[k])@)),
        decreases systems@.len() - i,
    {
        let sys = &systems[i];
        let ghost ev = events_view(sys@);
        let mut c: usize = 0;
        let mut j: usize = 0;
        while j < sys.len()
            invariant
                ev == events_view(sys@),
                j <= sys@.len(),
                c == count_barlines(ev.take(j as int)),
                c <= j,
            decreases sys@.len() - j,
        {
            assert(ev.take(j + 1).drop_last() =~= ev.take(j as int));
            assert(ev.take(j + 1).last() == sys@[j as int]@);
            if sys[j].is_barline() {
                c += 1;
            }
            j += 1;
        }
        assert(ev.take(sys@.len() as int) =~= ev);
        counts.push(c);
        i += 1;
    }
    counts
}

/// The systems of a staff other than the first: its own forced breaks when it
/// and the first staff both have some, else the first staff's measure counts
/// mirrored; then repeats are carried across the breaks.
pub open spec fn spec_other_staff_systems(
    first: Seq<EventView>,
    counts: Seq<usize>,
    s: Seq<EventView>,
) -> Seq<Seq<EventView>> {
    spec_add_repeat_both_continuations(
        if spec_has_line_breaks(first) && spec_has_line_breaks(s) {
            spec_split_at_line_breaks(s)
        } else {
            spec_mirror_breaks(s, counts)
        },
    )
}

/// The systems of every staff: the first staff's given systems, and the other
/// staves cut to follow them, all with repeats carried across the breaks.
pub open spec fn spec_score_systems(
    staves: Seq<Seq<EventView>>,
    staff0: Seq<Seq<EventView>>,
) -> Seq<Seq<Seq<EventView>>> {
    let first = if staves.len() > 0 {
        staves[0]
    } else {
        Seq::empty()
    };
    let counts = staff0.map_values(|g: Seq<EventView>| count_barlines(g) as usize);
    Seq::new(
        staves.len(),
        |si: int|
            if si == 0 {
                spec_add_repeat_both_continuations(staff0)
            } else {
                spec_other_staff_systems(first, counts, staves[si])
            },
    )
}

/// View of a list of staves' systems.
pub open spec fn staves_systems_view(v: Seq<Vec<Vec<Event>>>) -> Seq<Seq<Seq<EventView>>> {
    v.map_values(|s: Vec<Vec<Event>>| groups_view(s@))
}

/// Cut every staff into systems, following the first staff's systems.
pub fn score_systems(staves: &[Vec<Event>], staff0_systems: &[Vec<Event>]) -> (r: Vec<
    Vec<Vec<Event>>,
>)
    ensures
        staves_systems_view(r@) == spec_score_systems(
            groups_view(staves@),
            groups_view(staff0_systems@),
        ),
{
    let ghost sv = groups_view(staves@);
    let ghost s0 = groups_view(staff0_systems@);
    let counts = system_measure_counts(staff0_systems);
    let ghost cv = s0.map_values(|g: Seq<EventView>| count_barlines(g) as usize);
    assert(counts@ =~= cv) by {
        assert forall|i: int| 0 <= i < counts@.len() implies counts@[i] == cv[i] by {
            assert(s0[i] == events_view(staff0_systems@[i]@));
        }
    }
    let first_breaks = if staves.len() > 0 {
        has_line_breaks(staves[0].as_slice())
    } else {
        false
    };
    proof {
        if staves@.len() > 0 {
            lemma_line_breaks_view(staves@[0]@);
            assert(sv[0] == events_view(staves@[0]@));
        } else {
            assert(!spec_has_line_breaks(Seq::<EventView>::empty()));
        }
    }
    let mut result: Vec<Vec<Vec<Event>>> = Vec::new();
    let mut si: usize = 0;
    while si < staves.len()
        invariant
            sv == groups_view(staves@),
            s0 == groups_view(staff0_systems@),
            counts@ == s0.map_values(|g: Seq<EventView>| count_barlines(g) as usize),
            first_breaks == spec_has_line_breaks(
                if sv.len() > 0 {
                    sv[0]
                } else {
                    Seq::empty()
                },
            ),
            si <= staves@.len(),
            result@.len() == si,
            forall|k: int|
                0 <= k < si ==> groups_view((#[trigger] result@[k])@) == spec_score_systems(sv, s0)[k],
        decreases staves@.len() - si,
    {
        let split = if si == 0 {
            add_repeat_both_continuations(staff0_systems)
        } else {
            let staff = &staves[si];
            assert(sv[si as int] == events_view(staff@));
            proof {
                lemma_line_breaks_view(staff@);
            }
            let cut = if first_breaks && has_line_breaks(staff.as_slice()) {
                split_at_line_breaks(staff.as_slice())
            } else {
                mirror_breaks(staff.as_slice(), counts.as_slice())
            };
            add_repeat_both_continuations(cut.as_slice())
        };
        result.push(split);
        si += 1;
    }
    assert(staves_systems_view(result@) =~= spec_score_systems(sv, s0));
    result
}

/// When staves are cut by mirroring the first staff's measure counts, every
/// staff gets exactly as many systems as the first staff has (provided it has
/// at least one), so the systems line up across the score.
pub proof fn staves_share_systems(staves: Seq<Seq<EventView>>, staff0: Seq<Seq<EventView>>, si: int)
    requires
        0 <= si < staves.len(),
        staff0.len() > 0,
        si > 0 ==> !(spec_has_line_breaks(staves[0]) && spec_has_line_breaks(staves[si])),
    ensures
        spec_score_systems(staves, staff0)[si].len() == staff0.len(),
{
    if si > 0 {
        let counts = staff0.map_values(|g: Seq<EventView>| count_barlines(g) as usize);
        mirror_breaks_system_count(staves[si], counts);
    }
}

} // verus!
