//! Spanners drawn over runs of items (hairpins, volta endings, octave lines):
//! cutting a staff's items into the runs that carry the same label.
//!
//! Item `i` carries `labels[i]` (none when it is outside any spanner), may
//! close its spanner (`ends[i]`), and may be left out of the grouping
//! altogether (`skipped[i]`, e.g. items that are not notes or chords for
//! hairpins).

use vstd::prelude::*;
use crate::text::str_eq;

verus! {

/// A run of items under one spanner and the spanner's label.
pub struct SpanRun {
    pub indices: Vec<usize>,
    pub label: String,
}

/// View of a run.
pub open spec fn run_view(r: SpanRun) -> (Seq<int>, Seq<char>) {
    (r.indices@.map_values(|i: usize| i as int), r.label@)
}

/// View of a list of runs.
pub open spec fn runs_view(v: Seq<SpanRun>) -> Seq<(Seq<int>, Seq<char>)> {
    v.map_values(|r: SpanRun| run_view(r))
}

/// View of a list of optional labels.
pub open spec fn labels_view(v: Seq<Option<String>>) -> Seq<Option<Seq<char>>> {
    v.map_values(|o: Option<String>| match o {
        Some(s) => Some(s@),
        None => None,
    })
}

/// The runs with the open run (if any) added.
pub open spec fn close_open(runs: Seq<(Seq<int>, Seq<char>)>, cur: Seq<int>, label: Seq<char>) -> Seq<(Seq<int>, Seq<char>)> {
    if cur.len() > 0 {
        runs.push((cur, label))
    } else {
        runs
    }
}

/// Runs closed so far, the open run and its label, after the first `n` items:
/// a labelled item joins the open run when the labels agree and otherwise
/// closes it and opens a new one; an item that ends its spanner closes the
/// run; an unlabelled item closes it; skipped items change nothing.
pub open spec fn span_scan(
    labels: Seq<Option<Seq<char>>>,
    ends: Seq<bool>,
    skipped: Seq<bool>,
    n: int,
) -> (Seq<(Seq<int>, Seq<char>)>, Seq<int>, Seq<char>)
    decreases n,
{
    if n <= 0 {
        (Seq::empty(), Seq::empty(), Seq::empty())
    } else {
        let prev = span_scan(labels, ends, skipped, n - 1);
        let i = n - 1;
        if skipped[i] {
            prev
        } else {
            match labels[i] {
                Some(l) => {
                    let joins = prev.1.len() == 0 || prev.2 == l;
                    let runs1 = if joins {
                        prev.0
                    } else {
                        prev.0.push((prev.1, prev.2))
                    };
                    let cur1 = if joins {
                        prev.1.push(i)
                    } else {
                        seq![i]
                    };
                    if ends[i] {
                        (runs1.push((cur1, l)), Seq::empty(), Seq::empty())
                    } else {
                        (runs1, cur1, l)
                    }
                },
                None => (close_open(prev.0, prev.1, prev.2), Seq::empty(), Seq::empty()),
            }
        }
    }
}

/// The runs of a staff's items under spanners.
pub open spec fn spec_span_runs(
    labels: Seq<Option<Seq<char>>>,
    ends: Seq<bool>,
    skipped: Seq<bool>,
) -> Seq<(Seq<int>, Seq<char>)> {
    let st = span_scan(labels, ends, skipped, labels.len() as int);
    close_open(st.0, st.1, st.2)
}

/// Cut the items into the runs drawn under one spanner each.
pub fn span_runs(labels: &[Option<String>], ends: &[bool], skipped: &[bool]) -> (r: Vec<SpanRun>)
    requires
        ends@.len() == labels@.len(),
        skipped@.len() == labels@.len(),
    ensures
        runs_view(r@) == spec_span_runs(labels_view(labels@), ends@, skipped@),
{
    let ghost lv = labels_view(labels@);
    let mut runs: Vec<SpanRun> = Vec::new();
    let mut cur: Vec<usize> = Vec::new();
    let mut cur_label: String = String::new();
    proof {
        assert(cur_label@ =~= Seq::<char>::empty());
    }
    let n = labels.len();
    let mut i: usize = 0;
    while i < n
        invariant
            n == labels@.len(),
            ends@.len() == n,
            skipped@.len() == n,
            lv == labels_view(labels@),
            i <= n,
            runs_view(runs@) == span_scan(lv, ends@, skipped@, i as int).0,
            cur@.map_values(|j: usize| j as int) == span_scan(lv, ends@, skipped@, i as int).1,
            cur_label@ == span_scan(lv, ends@, skipped@, i as int).2,
        decreases n - i,
    {
        let ghost r0 = runs_view(runs@);
        let ghost c0 = cur@.map_values(|j: usize| j as int);
        if !skipped[i] {
            match &labels[i] {
                Some(l) => {
                    assert(lv[i as int] == Some(l@));
                    let joins = cur.len() == 0 || str_eq(cur_label.as_str(), l.as_str());
                    if !joins {
                        runs.push(SpanRun { indices: cur, label: cur_label });
                        cur = Vec::new();
                        cur_label = l.clone();
                        assert(runs_view(runs@) =~= r0.push((c0, span_scan(lv, ends@, skipped@, i as int).2)));
                    } else {
                        cur_label = l.clone();
                    }
                    let ghost cb = cur@;
                    cur.push(i);
                    assert(cur@.map_values(|j: usize| j as int) =~= cb.map_values(|j: usize| j as int).push(
                        i as int,
                    ));
                    if ends[i] {
                        let ghost r1 = runs_view(runs@);
                        let ghost c1 = cur@.map_values(|j: usize| j as int);
                        runs.push(SpanRun { indices: cur, label: cur_label });
                        cur = Vec::new();
                        cur_label = String::new();
                        assert(runs_view(runs@) =~= r1.push((c1, l@)));
                        assert(cur@.map_values(|j: usize| j as int) =~= Seq::<int>::empty());
                        proof {
                            assert(cur_label@ =~= Seq::<char>::empty());
                        }
                    }
                },
                None => {
                    assert(lv[i as int] is None);
                    if cur.len() > 0 {
                        runs.push(SpanRun { indices: cur, label: cur_label });
                        cur = Vec::new();
                        cur_label = String::new();
                        assert(runs_view(runs@) =~= r0.push((c0, span_scan(lv, ends@, skipped@, i as int).2)));
                    } else {
                        cur_label = String::new();
                    }
                    assert(cur@.map_values(|j: usize| j as int) =~= Seq::<int>::empty());
                    proof {
                        assert(cur_label@ =~= Seq::<char>::empty());
                    }
                },
            }
        }
        i += 1;
    }
    if cur.len() > 0 {
        let ghost r0 = runs_view(runs@);
        let ghost c0 = cur@.map_values(|j: usize| j as int);
        let ghost l0 = cur_label@;
        runs.push(SpanRun { indices: cur, label: cur_label });
        assert(runs_view(runs@) =~= r0.push((c0, l0)));
    }
    runs
}

/// A run under the spanner `label` among the first `n` items: increasing
/// indices of items that are not skipped and carry `label`, none but possibly
/// the last ending the spanner, with no other unskipped item between them.
pub open spec fn span_run(
    labels: Seq<Option<Seq<char>>>,
    ends: Seq<bool>,
    skipped: Seq<bool>,
    g: Seq<int>,
    label: Seq<char>,
    n: int,
) -> bool {
    g.len() > 0 ==> {
        &&& 0 <= g[0]
        &&& g.last() < n
        &&& forall|a: int, b: int| 0 <= a < b < g.len() ==> #[trigger] g[a] < #[trigger] g[b]
        &&& forall|a: int|
            0 <= a < g.len() ==> !skipped[#[trigger] g[a]] && labels[g[a]] == Some(label)
        &&& forall|a: int| 0 <= a < g.len() - 1 ==> !ends[#[trigger] g[a]]
        &&& forall|j: int|
            g[0] <= j <= g.last() && !(#[trigger] skipped[j]) ==> exists|a: int|
                0 <= a < g.len() && g[a] == j
    }
}

/// What the scan over the first `n` items has established.
pub open spec fn span_scan_ok(
    labels: Seq<Option<Seq<char>>>,
    ends: Seq<bool>,
    skipped: Seq<bool>,
    n: int,
) -> bool {
    let st = span_scan(labels, ends, skipped, n);
    &&& span_run(labels, ends, skipped, st.1, st.2, n)
    &&& st.1.len() > 0 ==> !ends[st.1.last()] && forall|j: int|
        st.1[0] <= j < n && !(#[trigger] skipped[j]) ==> exists|a: int| 0 <= a < st.1.len() && st.1[a] == j
    &&& forall|k: int|
        0 <= k < st.0.len() ==> {
            let g = #[trigger] st.0[k];
            &&& g.0.len() > 0
            &&& span_run(labels, ends, skipped, g.0, g.1, n)
            &&& g.0.last() < (if st.1.len() > 0 {
                st.1[0]
            } else {
                n
            })
        }
    &&& forall|k: int, l: int|
        0 <= k < l < st.0.len() ==> (#[trigger] st.0[k]).0.last() < (#[trigger] st.0[l]).0[0]
}

proof fn lemma_span_scan(labels: Seq<Option<Seq<char>>>, ends: Seq<bool>, skipped: Seq<bool>, n: int)
    requires
        0 <= n <= labels.len(),
        ends.len() == labels.len(),
        skipped.len() == labels.len(),
    ensures
        span_scan_ok(labels, ends, skipped, n),
    decreases n,
{
    if n > 0 {
        lemma_span_scan(labels, ends, skipped, n - 1);
        let prev = span_scan(labels, ends, skipped, n - 1);
        let st = span_scan(labels, ends, skipped, n);
        let i = n - 1;
        if skipped[i] {
            assert(st == prev);
            assert forall|k: int| 0 <= k < st.0.len() implies {
                let g = #[trigger] st.0[k];
                &&& g.0.len() > 0
                &&& span_run(labels, ends, skipped, g.0, g.1, n)
                &&& g.0.last() < (if st.1.len() > 0 {
                    st.1[0]
                } else {
                    n
                })
            } by {}
        } else {
            match labels[i] {
                Some(l) => {
                    let joins = prev.1.len() == 0 || prev.2 == l;
                    let runs1 = if joins {
                        prev.0
                    } else {
                        prev.0.push((prev.1, prev.2))
                    };
                    let cur1 = if joins {
                        prev.1.push(i)
                    } else {
                        seq![i]
                    };
                    assert(span_run(labels, ends, skipped, cur1, l, n)) by {
                        if joins && prev.1.len() > 0 {
                            let c = prev.1;
                            assert forall|a: int, b: int| 0 <= a < b < cur1.len() implies #[trigger] cur1[a] < #[trigger] cur1[b] by {
                                assert(cur1[a] == c[a]);
                                if b < c.len() {
                                    assert(cur1[b] == c[b]);
                                }
                            }
                            assert forall|a: int| 0 <= a < cur1.len() implies !skipped[#[trigger] cur1[a]] && labels[cur1[a]] == Some(l) by {
                                if a < c.len() {
                                    assert(cur1[a] == c[a]);
                                }
                            }
                            assert forall|a: int| 0 <= a < cur1.len() - 1 implies !ends[#[trigger] cur1[a]] by {
                                assert(cur1[a] == c[a]);
                                if a == c.len() - 1 {
                                    assert(c[a] == c.last());
                                }
                            }
                            assert forall|j: int| cur1[0] <= j <= cur1.last() && !(#[trigger] skipped[j]) implies exists|a: int|
                                0 <= a < cur1.len() && cur1[a] == j by {
                                if j == i {
                                    assert(cur1[c.len() as int] == j);
                                } else {
                                    let a = choose|a: int| 0 <= a < c.len() && c[a] == j;
                                    assert(cur1[a] == j);
                                }
                            }
                        }
                    }
                    assert forall|k: int| 0 <= k < runs1.len() implies {
                        let g = #[trigger] runs1[k];
                        &&& g.0.len() > 0
                        &&& span_run(labels, ends, skipped, g.0, g.1, n)
                        &&& g.0.last() < cur1[0]
                    } by {
                        if k < prev.0.len() {
                            assert(runs1[k] == prev.0[k]);
                        } else {
                            assert(runs1[k] == (prev.1, prev.2));
                        }
                    }
                    assert forall|k: int, m: int| 0 <= k < m < runs1.len() implies (#[trigger] runs1[k]).0.last() < (#[trigger] runs1[m]).0[0] by {
                        if m < prev.0.len() {
                            assert(runs1[k] == prev.0[k] && runs1[m] == prev.0[m]);
                        } else {
                            assert(runs1[k] == prev.0[k] && runs1[m] == (prev.1, prev.2));
                        }
                    }
                    if ends[i] {
                        let out = runs1.push((cur1, l));
                        assert(st.0 == out);
                        assert forall|k: int| 0 <= k < st.0.len() implies {
                            let g = #[trigger] st.0[k];
                            &&& g.0.len() > 0
                            &&& span_run(labels, ends, skipped, g.0, g.1, n)
                            &&& g.0.last() < (if st.1.len() > 0 {
                                st.1[0]
                            } else {
                                n
                            })
                        } by {
                            if k < runs1.len() {
                                assert(st.0[k] == runs1[k]);
                            } else {
                                assert(st.0[k] == (cur1, l));
                            }
                        }
                        assert forall|k: int, m: int| 0 <= k < m < st.0.len() implies (#[trigger] st.0[k]).0.last() < (#[trigger] st.0[m]).0[0] by {
                            if m < runs1.len() {
                                assert(st.0[k] == runs1[k] && st.0[m] == runs1[m]);
                            } else {
                                assert(st.0[k] == runs1[k] && st.0[m] == (cur1, l));
                            }
                        }
                    } else {
                        assert(st.0 == runs1 && st.1 == cur1 && st.2 == l);
                        assert forall|j: int| cur1[0] <= j < n && !(#[trigger] skipped[j]) implies exists|a: int|
                            0 <= a < cur1.len() && cur1[a] == j by {
                            if j == i {
                                assert(cur1[cur1.len() - 1] == j);
                            } else if joins {
                                let a = choose|a: int| 0 <= a < prev.1.len() && prev.1[a] == j;
                                assert(cur1[a] == j);
                            }
                        }
                    }
                },
                None => {
                    let out = close_open(prev.0, prev.1, prev.2);
                    assert(st.0 == out && st.1.len() == 0);
                    assert forall|k: int| 0 <= k < st.0.len() implies {
                        let g = #[trigger] st.0[k];
                        &&& g.0.len() > 0
                        &&& span_run(labels, ends, skipped, g.0, g.1, n)
                        &&& g.0.last() < n
                    } by {
                        if k < prev.0.len() {
                            assert(st.0[k] == prev.0[k]);
                        } else {
                            assert(st.0[k] == (prev.1, prev.2));
                        }
                    }
                    assert forall|k: int, m: int| 0 <= k < m < st.0.len() implies (#[trigger] st.0[k]).0.last() < (#[trigger] st.0[m]).0[0] by {
                        if m < prev.0.len() {
                            assert(st.0[k] == prev.0[k] && st.0[m] == prev.0[m]);
                        } else {
                            assert(st.0[k] == prev.0[k] && st.0[m] == (prev.1, prev.2));
                        }
                    }
                },
            }
        }
    }
}

/// Every spanner run is a nonempty run of consecutive unskipped items that
/// all carry the run's label, only its last item may end the spanner, and
/// runs follow each other without overlapping.
pub proof fn span_runs_are_runs(
    labels: Seq<Option<Seq<char>>>,
    ends: Seq<bool>,
    skipped: Seq<bool>,
    k: int,
)
    requires
        ends.len() == labels.len(),
        skipped.len() == labels.len(),
        0 <= k < spec_span_runs(labels, ends, skipped).len(),
    ensures
        ({
            let rs = spec_span_runs(labels, ends, skipped);
            &&& rs[k].0.len() > 0
            &&& span_run(labels, ends, skipped, rs[k].0, rs[k].1, labels.len() as int)
            &&& k + 1 < rs.len() ==> rs[k].0.last() < rs[k + 1].0[0]
        }),
{
    let n = labels.len() as int;
    lemma_span_scan(labels, ends, skipped, n);
    let st = span_scan(labels, ends, skipped, n);
    let rs = spec_span_runs(labels, ends, skipped);
    if k < st.0.len() {
        assert(rs[k] == st.0[k]);
        if k + 1 < st.0.len() {
            assert(rs[k + 1] == st.0[k + 1]);
        } else if k + 1 < rs.len() {
            assert(rs[k + 1] == (st.1, st.2));
        }
    } else {
        assert(rs[k] == (st.1, st.2));
    }
}

} // verus!
