//! Notehead stacking in chords: noteheads a second apart go to alternate
//! sides of the stem.

use vstd::prelude::*;
use vstd::set_lib::{set_int_range, lemma_int_range, lemma_map_size, lemma_subset_equality};
use vstd::relations::injective_on;
use crate::text::str_eq;

verus! {

/// Sort key of note `a`: noteheads are walked from the stem's base, i.e. by
/// staff position upward from the lowest for down stems and downward from the
/// highest for up stems.
pub open spec fn sort_key(p: Seq<i32>, down: bool, a: int) -> int {
    if down {
        p[a] as int
    } else {
        -(p[a] as int)
    }
}

/// Note `b` is walked before note `a`: smaller key, or equal key and earlier
/// in the chord (a stable order).
pub open spec fn walked_before(p: Seq<i32>, down: bool, b: int, a: int) -> bool {
    sort_key(p, down, b) < sort_key(p, down, a) || (sort_key(p, down, b) == sort_key(p, down, a)
        && b < a)
}

/// Number of notes among the first `m` walked before note `a`.
pub open spec fn count_before(p: Seq<i32>, down: bool, a: int, m: int) -> int
    decreases m,
{
    if m <= 0 {
        0
    } else {
        count_before(p, down, a, m - 1) + if walked_before(p, down, m - 1, a) {
            1int
        } else {
            0int
        }
    }
}

/// Place of note `a` in the walk from the stem's base.
pub open spec fn walk_rank(p: Seq<i32>, down: bool, a: int) -> int {
    count_before(p, down, a, p.len() as int)
}

/// The note at place `k` of the walk.
pub open spec fn at_rank(p: Seq<i32>, down: bool, k: int) -> int {
    choose|a: int| 0 <= a < p.len() && walk_rank(p, down, a) == k
}

/// Whether the note at place `k` of the walk is displaced: the first is not;
/// a note a second away from the one before it takes the other side; any
/// other step (a unison or a wider interval) puts it back on the normal side.
pub open spec fn side_at(p: Seq<i32>, down: bool, k: int) -> bool
    decreases k,
{
    if k <= 0 {
        false
    } else {
        let d = p[at_rank(p, down, k)] - p[at_rank(p, down, k - 1)];
        if d == 1 || d == -1 {
            !side_at(p, down, k - 1)
        } else {
            false
        }
    }
}

/// Whether note `a` of the chord is drawn on the far side of the stem.
pub open spec fn spec_displaced(p: Seq<i32>, down: bool, a: int) -> bool {
    side_at(p, down, walk_rank(p, down, a))
}

proof fn lemma_count_bounds(p: Seq<i32>, down: bool, a: int, m: int)
    requires
        0 <= m,
    ensures
        0 <= count_before(p, down, a, m) <= m,
        0 <= a < m ==> count_before(p, down, a, m) <= m - 1,
    decreases m,
{
    if m > 0 {
        lemma_count_bounds(p, down, a, m - 1);
    }
}

proof fn lemma_count_strict(p: Seq<i32>, down: bool, a: int, b: int, m: int)
    requires
        0 <= m,
        walked_before(p, down, a, b),
    ensures
        count_before(p, down, a, m) <= count_before(p, down, b, m),
        0 <= a < m ==> count_before(p, down, a, m) < count_before(p, down, b, m),
    decreases m,
{
    if m > 0 {
        lemma_count_strict(p, down, a, b, m - 1);
    }
}

proof fn lemma_ranks_distinct(p: Seq<i32>, down: bool, a: int, b: int)
    requires
        0 <= a < p.len(),
        0 <= b < p.len(),
        a != b,
    ensures
        walk_rank(p, down, a) != walk_rank(p, down, b),
{
    if walked_before(p, down, a, b) {
        lemma_count_strict(p, down, a, b, p.len() as int);
    } else {
        lemma_count_strict(p, down, b, a, p.len() as int);
    }
}

proof fn lemma_every_rank_taken(p: Seq<i32>, down: bool, k: int)
    requires
        0 <= k < p.len(),
    ensures
        exists|a: int| 0 <= a < p.len() && walk_rank(p, down, a) == k,
{
    let n = p.len() as int;
    let x = set_int_range(0, n);
    let f = |a: int| walk_rank(p, down, a);
    lemma_int_range(0, n);
    assert(injective_on(f, x)) by {
        assert forall|a: int, b: int| x.contains(a) && x.contains(b) && #[trigger] f(a) == #[trigger] f(b) implies a == b by {
            if a != b {
                lemma_ranks_distinct(p, down, a, b);
            }
        }
    }
    let y = x.map(f);
    lemma_map_size(x, y, f);
    assert(y.subset_of(x)) by {
        assert forall|r: int| y.contains(r) implies x.contains(r) by {
            let a = choose|a: int| x.contains(a) && f(a) == r;
            lemma_count_bounds(p, down, a, n);
        }
    }
    lemma_subset_equality(y, x);
    assert(x.contains(k));
    assert(y.contains(k));
    let a = choose|a: int| x.contains(a) && f(a) == k;
    assert(0 <= a < n && walk_rank(p, down, a) == k);
}

/// Which noteheads of a chord are displaced to the far side of the stem, for
/// a chord with the given staff positions and stem direction ("down" or up).
pub fn chord_displaced_noteheads(positions: &[i32], stem_dir: &str) -> (r: Vec<bool>)
    ensures
        r@.len() == positions@.len(),
        forall|a: int|
            0 <= a < positions@.len() ==> r@[a] == spec_displaced(
                positions@,
                stem_dir@ == "down"@,
                a,
            ),
{
    let n = positions.len();
    let down = str_eq(stem_dir, "down");
    let ghost p = positions@;
    // Place of each note in the walk.
    let mut ranks: Vec<usize> = Vec::new();
    let mut a: usize = 0;
    while a < n
        invariant
            n == p.len(),
            p == positions@,
            a <= n,
            ranks@.len() == a,
            forall|j: int| 0 <= j < a ==> #[trigger] ranks@[j] == walk_rank(p, down, j),
        decreases n - a,
    {
        let mut c: usize = 0;
        let mut b: usize = 0;
        while b < n
            invariant
                n == p.len(),
                p == positions@,
                a < n,
                b <= n,
                c == count_before(p, down, a as int, b as int),
            decreases n - b,
        {
            proof {
                lemma_count_bounds(p, down, a as int, b as int);
            }
            let kb: i64 = if down { positions[b] as i64 } else { -(positions[b] as i64) };
            let ka: i64 = if down { positions[a] as i64 } else { -(positions[a] as i64) };
            if kb < ka || (kb == ka && b < a) {
                c += 1;
            }
            b += 1;
        }
        ranks.push(c);
        a += 1;
    }
    // The note at each place of the walk.
    let mut order: Vec<usize> = Vec::new();
    let mut k: usize = 0;
    while k < n
        invariant
            n == p.len(),
            p == positions@,
            ranks@.len() == n,
            forall|j: int| 0 <= j < n ==> #[trigger] ranks@[j] == walk_rank(p, down, j),
            k <= n,
            order@.len() == k,
            forall|q: int| 0 <= q < k ==> #[trigger] order@[q] == at_rank(p, down, q),
            forall|q: int| 0 <= q < k ==> 0 <= #[trigger] order@[q] < n,
        decreases n - k,
    {
        proof {
            lemma_every_rank_taken(p, down, k as int);
        }
        let ghost w = at_rank(p, down, k as int);
        let mut j: usize = 0;
        while j < n && ranks[j] != k
            invariant
                n == p.len(),
                ranks@.len() == n,
                forall|i: int| 0 <= i < n ==> #[trigger] ranks@[i] == walk_rank(p, down, i),
                0 <= w < n,
                walk_rank(p, down, w) == k,
                j <= n,
                forall|i: int| 0 <= i < j ==> #[trigger] ranks@[i] != k,
            decreases n - j,
        {
            j += 1;
        }
        proof {
            if j == n {
                assert(ranks@[w] == k);
            }
            if j != w {
                lemma_ranks_distinct(p, down, j as int, w);
            }
        }
        order.push(j);
        k += 1;
    }
    // Walk from the stem's base, alternating sides across seconds.
    let mut sides: Vec<bool> = Vec::new();
    let mut side = false;
    let mut q: usize = 0;
    while q < n
        invariant
            n == p.len(),
            p == positions@,
            order@.len() == n,
            forall|i: int| 0 <= i < n ==> #[trigger] order@[i] == at_rank(p, down, i),
            forall|i: int| 0 <= i < n ==> 0 <= #[trigger] order@[i] < n,
            q <= n,
            sides@.len() == q,
            forall|i: int| 0 <= i < q ==> #[trigger] sides@[i] == side_at(p, down, i),
            q > 0 ==> side == side_at(p, down, q - 1),
        decreases n - q,
    {
        if q > 0 {
            let cur = positions[order[q]] as i64;
            let prev = positions[order[q - 1]] as i64;
            let d = cur - prev;
            if d == 1 || d == -1 {
                side = !side;
            } else {
                side = false;
            }
        } else {
            side = false;
        }
        sides.push(side);
        q += 1;
    }
    // Each note takes the side of its place in the walk.
    let mut out: Vec<bool> = Vec::new();
    let mut i: usize = 0;
    while i < n
        invariant
            n == p.len(),
            p == positions@,
            ranks@.len() == n,
            forall|j: int| 0 <= j < n ==> #[trigger] ranks@[j] == walk_rank(p, down, j),
            sides@.len() == n,
            forall|j: int| 0 <= j < n ==> #[trigger] sides@[j] == side_at(p, down, j),
            i <= n,
            out@.len() == i,
            forall|j: int| 0 <= j < i ==> #[trigger] out@[j] == spec_displaced(p, down, j),
        decreases n - i,
    {
        proof {
            lemma_count_bounds(p, down, i as int, n as int);
        }
        out.push(sides[ranks[i]]);
        i += 1;
    }
    out
}

/// Noteheads a second apart that follow each other in the walk from the stem's
/// base sit on opposite sides of the stem; the notehead at the stem's base is
/// never displaced.
pub proof fn seconds_alternate_sides(p: Seq<i32>, down: bool, a: int, b: int)
    requires
        0 <= a < p.len(),
        0 <= b < p.len(),
        walk_rank(p, down, b) == walk_rank(p, down, a) + 1,
        p[b] - p[a] == 1 || p[b] - p[a] == -1,
    ensures
        spec_displaced(p, down, a) != spec_displaced(p, down, b),
        walk_rank(p, down, a) == 0 ==> !spec_displaced(p, down, a),
{
    let k = walk_rank(p, down, b);
    lemma_count_bounds(p, down, a, p.len() as int);
    lemma_count_bounds(p, down, b, p.len() as int);
    let ak = at_rank(p, down, k);
    let ak1 = at_rank(p, down, k - 1);
    lemma_every_rank_taken(p, down, k);
    lemma_every_rank_taken(p, down, k - 1);
    if ak != b {
        lemma_ranks_distinct(p, down, ak, b);
    }
    if ak1 != a {
        lemma_ranks_distinct(p, down, ak1, a);
    }
}

/// A notehead that follows the one before it in the walk by more than a second
/// (or by a unison) is drawn on the normal side of the stem.
pub proof fn wider_steps_stay_on_the_normal_side(p: Seq<i32>, down: bool, a: int, b: int)
    requires
        0 <= a < p.len(),
        0 <= b < p.len(),
        walk_rank(p, down, b) == walk_rank(p, down, a) + 1,
        p[b] - p[a] != 1,
        p[b] - p[a] != -1,
    ensures
        !spec_displaced(p, down, b),
{
    let k = walk_rank(p, down, b);
    lemma_count_bounds(p, down, a, p.len() as int);
    lemma_count_bounds(p, down, b, p.len() as int);
    let ak = at_rank(p, down, k);
    let ak1 = at_rank(p, down, k - 1);
    lemma_every_rank_taken(p, down, k);
    lemma_every_rank_taken(p, down, k - 1);
    if ak != b {
        lemma_ranks_distinct(p, down, ak, b);
    }
    if ak1 != a {
        lemma_ranks_distinct(p, down, ak1, a);
    }
}

/// A displaced notehead is never the first of the walk: just before it in the
/// walk stands a notehead a second away that is on the normal side.
pub proof fn displaced_follows_a_second(p: Seq<i32>, down: bool, b: int)
    requires
        0 <= b < p.len(),
        spec_displaced(p, down, b),
    ensures
        walk_rank(p, down, b) > 0,
        exists|a: int|
            0 <= a < p.len() && walk_rank(p, down, a) + 1 == walk_rank(p, down, b) && (p[b] - p[a]
                == 1 || p[b] - p[a] == -1) && !#[trigger] spec_displaced(p, down, a),
{
    let k = walk_rank(p, down, b);
    lemma_count_bounds(p, down, b, p.len() as int);
    assert(k > 0);
    lemma_every_rank_taken(p, down, k);
    lemma_every_rank_taken(p, down, k - 1);
    let ak = at_rank(p, down, k);
    let a = at_rank(p, down, k - 1);
    if ak != b {
        lemma_ranks_distinct(p, down, ak, b);
    }
    assert(0 <= a < p.len() && walk_rank(p, down, a) == k - 1);
    assert(!spec_displaced(p, down, a));
}

} // verus!
