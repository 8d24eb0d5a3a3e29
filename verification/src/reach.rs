//! Reachability over the grid: what it means for a coordinate to be
//! attainable from a start position in a bounded number of 8-neighbor,
//! blocked-free steps.
//!
//! The planner's contracts are stated over these definitions; the lemmas
//! here relate bounded reachability to explicit paths and justify the
//! level-by-level search the planner runs.

use vstd::prelude::*;

use crate::grid::{blocked_at, GridCell};
use crate::pos::adjacent;

verus! {

/// The `j`-th of the 8 neighbors of `p`: the 4 orthogonal ones first, then
/// the 4 diagonal ones.
pub open spec fn nb(p: (int, int), j: int) -> (int, int) {
    if j == 0 {
        (p.0 - 1, p.1)
    } else if j == 1 {
        (p.0 + 1, p.1)
    } else if j == 2 {
        (p.0, p.1 - 1)
    } else if j == 3 {
        (p.0, p.1 + 1)
    } else if j == 4 {
        (p.0 - 1, p.1 - 1)
    } else if j == 5 {
        (p.0 + 1, p.1 - 1)
    } else if j == 6 {
        (p.0 - 1, p.1 + 1)
    } else {
        (p.0 + 1, p.1 + 1)
    }
}

/// A single legal step: `b` is 8-adjacent to `a` and the grid does not
/// report `b` blocked.  Only an explicitly blocked cell stops expansion;
/// an absent (out-of-bounds) cell does not.
pub open spec fn step_ok(
    g: Map<(int, int), GridCell>,
    a: (int, int),
    b: (int, int),
) -> bool {
    adjacent(a, b) && !blocked_at(g, b)
}

/// `p` can be reached from `start` in at most `k` legal steps.  A step into
/// `p` comes from one of its 8 neighbors and requires `p` unblocked.
pub open spec fn reach_in(
    g: Map<(int, int), GridCell>,
    start: (int, int),
    p: (int, int),
    k: nat,
) -> bool
    decreases k,
{
    if k == 0 {
        p == start
    } else {
        reach_in(g, start, p, (k - 1) as nat) || (!blocked_at(g, p) && (reach_in(
            g,
            start,
            nb(p, 0),
            (k - 1) as nat,
        ) || reach_in(g, start, nb(p, 1), (k - 1) as nat) || reach_in(
            g,
            start,
            nb(p, 2),
            (k - 1) as nat,
        ) || reach_in(g, start, nb(p, 3), (k - 1) as nat) || reach_in(
            g,
            start,
            nb(p, 4),
            (k - 1) as nat,
        ) || reach_in(g, start, nb(p, 5), (k - 1) as nat) || reach_in(
            g,
            start,
            nb(p, 6),
            (k - 1) as nat,
        ) || reach_in(g, start, nb(p, 7), (k - 1) as nat)))
    }
}

/// `k` is the least number of steps that reaches `p`.
pub open spec fn at_level(
    g: Map<(int, int), GridCell>,
    start: (int, int),
    p: (int, int),
    k: nat,
) -> bool {
    reach_in(g, start, p, k) && (k == 0 || !reach_in(g, start, p, (k - 1) as nat))
}

/// Adjacent coordinates are each other's neighbors, case by case.
pub proof fn lemma_adjacent_nb(a: (int, int), b: (int, int))
    requires
        adjacent(a, b),
    ensures
        b == nb(a, 0) || b == nb(a, 1) || b == nb(a, 2) || b == nb(a, 3) || b
            == nb(a, 4) || b == nb(a, 5) || b == nb(a, 6) || b == nb(a, 7),
        a == nb(b, 0) || a == nb(b, 1) || a == nb(b, 2) || a == nb(b, 3) || a
            == nb(b, 4) || a == nb(b, 5) || a == nb(b, 6) || a == nb(b, 7),
{
}

/// Every neighbor is adjacent.
pub proof fn lemma_nb_adjacent(p: (int, int), j: int)
    requires
        0 <= j < 8,
    ensures
        adjacent(p, nb(p, j)),
        adjacent(nb(p, j), p),
{
}

/// Reachability is monotone in the step bound.
pub proof fn lemma_reach_mono(
    g: Map<(int, int), GridCell>,
    start: (int, int),
    p: (int, int),
    j: nat,
    k: nat,
)
    requires
        j <= k,
        reach_in(g, start, p, j),
    ensures
        reach_in(g, start, p, k),
    decreases k,
{
    if j < k {
        lemma_reach_mono(g, start, p, j, (k - 1) as nat);
    }
}

/// One legal step extends reachability by one level.
pub proof fn lemma_step_reach(
    g: Map<(int, int), GridCell>,
    start: (int, int),
    q: (int, int),
    p: (int, int),
    k: nat,
)
    requires
        reach_in(g, start, q, k),
        step_ok(g, q, p),
    ensures
        reach_in(g, start, p, (k + 1) as nat),
{
    lemma_adjacent_nb(p, q);
}

/// A coordinate has at most one least level.
pub proof fn lemma_level_unique(
    g: Map<(int, int), GridCell>,
    start: (int, int),
    p: (int, int),
    a: nat,
    b: nat,
)
    requires
        at_level(g, start, p, a),
        at_level(g, start, p, b),
    ensures
        a == b,
{
    if a < b {
        lemma_reach_mono(g, start, p, a, (b - 1) as nat);
    } else if b < a {
        lemma_reach_mono(g, start, p, b, (a - 1) as nat);
    }
}

/// Every reachable coordinate has a least level.
pub proof fn lemma_has_level(
    g: Map<(int, int), GridCell>,
    start: (int, int),
    p: (int, int),
    j: nat,
)
    requires
        reach_in(g, start, p, j),
    ensures
        exists|l: nat| l <= j && #[trigger] at_level(g, start, p, l),
    decreases j,
{
    if j == 0 {
        assert(at_level(g, start, p, 0));
    } else if reach_in(g, start, p, (j - 1) as nat) {
        lemma_has_level(g, start, p, (j - 1) as nat);
        let l = choose|l: nat|
            l <= (j - 1) as nat && #[trigger] at_level(g, start, p, l);
        assert(l <= j && at_level(g, start, p, l));
    } else {
        assert(at_level(g, start, p, j));
    }
}

/// A coordinate first reached at level `k >= 1` has a predecessor first
/// reached at level `k - 1`.
pub proof fn lemma_level_pred(
    g: Map<(int, int), GridCell>,
    start: (int, int),
    p: (int, int),
    k: nat,
)
    requires
        k >= 1,
        at_level(g, start, p, k),
    ensures
        exists|q: (int, int)|
            #[trigger] at_level(g, start, q, (k - 1) as nat) && step_ok(g, q, p),
{
    assert(!blocked_at(g, p));
    let j = choose|j: int|
        0 <= j < 8 && #[trigger] reach_in(g, start, nb(p, j), (k - 1) as nat);
    assert(reach_in(g, start, nb(p, 0), (k - 1) as nat) || reach_in(
        g,
        start,
        nb(p, 1),
        (k - 1) as nat,
    ) || reach_in(g, start, nb(p, 2), (k - 1) as nat) || reach_in(
        g,
        start,
        nb(p, 3),
        (k - 1) as nat,
    ) || reach_in(g, start, nb(p, 4), (k - 1) as nat) || reach_in(
        g,
        start,
        nb(p, 5),
        (k - 1) as nat,
    ) || reach_in(g, start, nb(p, 6), (k - 1) as nat) || reach_in(
        g,
        start,
        nb(p, 7),
        (k - 1) as nat,
    ));
    let q = nb(p, j);
    assert(reach_in(g, start, q, (k - 1) as nat));
    lemma_nb_adjacent(p, j);
    assert(step_ok(g, q, p));
    if k - 1 > 0 && reach_in(g, start, q, (k - 2) as nat) {
        // then p would already be reachable at level k - 1, contradiction
        lemma_step_reach(g, start, q, p, (k - 2) as nat);
        assert(false);
    }
    assert(at_level(g, start, q, (k - 1) as nat) && step_ok(g, q, p));
}

/// If no coordinate is first reached at level `k`, reachability has hit its
/// fixpoint: anything reachable at all is reachable within `k - 1` steps.
pub proof fn lemma_level_fixpoint(
    g: Map<(int, int), GridCell>,
    start: (int, int),
    k: nat,
    p: (int, int),
    j: nat,
)
    requires
        k >= 1,
        forall|q: (int, int)| !at_level(g, start, q, k),
        reach_in(g, start, p, j),
    ensures
        reach_in(g, start, p, (k - 1) as nat),
    decreases j,
{
    if j <= k - 1 {
        lemma_reach_mono(g, start, p, j, (k - 1) as nat);
    } else if reach_in(g, start, p, (j - 1) as nat) {
        lemma_level_fixpoint(g, start, k, p, (j - 1) as nat);
    } else {
        let i = choose|i: int|
            0 <= i < 8 && #[trigger] reach_in(g, start, nb(p, i), (j - 1) as nat);
        assert(reach_in(g, start, nb(p, 0), (j - 1) as nat) || reach_in(
            g,
            start,
            nb(p, 1),
            (j - 1) as nat,
        ) || reach_in(g, start, nb(p, 2), (j - 1) as nat) || reach_in(
            g,
            start,
            nb(p, 3),
            (j - 1) as nat,
        ) || reach_in(g, start, nb(p, 4), (j - 1) as nat) || reach_in(
            g,
            start,
            nb(p, 5),
            (j - 1) as nat,
        ) || reach_in(g, start, nb(p, 6), (j - 1) as nat) || reach_in(
            g,
            start,
            nb(p, 7),
            (j - 1) as nat,
        ));
        let q = nb(p, i);
        assert(reach_in(g, start, q, (j - 1) as nat));
        lemma_level_fixpoint(g, start, k, q, (j - 1) as nat);
        lemma_nb_adjacent(p, i);
        lemma_step_reach(g, start, q, p, (k - 1) as nat);
        assert(reach_in(g, start, p, k));
        assert(!at_level(g, start, p, k));
        assert(reach_in(g, start, p, (k - 1) as nat));
    }
}

/// An explicit path: starts somewhere, and every later element follows from
/// its predecessor by one legal step.
pub open spec fn is_path(g: Map<(int, int), GridCell>, s: Seq<(int, int)>) -> bool {
    s.len() >= 1 && forall|i: int|
        1 <= i < s.len() ==> #[trigger] step_ok(g, s[i - 1], s[i])
}

/// A path of `n` steps witnesses reachability within `n` steps.
pub proof fn lemma_path_reach(
    g: Map<(int, int), GridCell>,
    start: (int, int),
    s: Seq<(int, int)>,
)
    requires
        is_path(g, s),
        s[0] == start,
    ensures
        reach_in(g, start, s.last(), (s.len() - 1) as nat),
    decreases s.len(),
{
    if s.len() == 1 {
    } else {
        let t = s.drop_last();
        assert(is_path(g, t)) by {
            assert forall|i: int| 1 <= i < t.len() implies #[trigger] step_ok(
                g,
                t[i - 1],
                t[i],
            ) by {
                assert(t[i - 1] == s[i - 1] && t[i] == s[i]);
                assert(step_ok(g, s[i - 1], s[i]));
            }
        }
        lemma_path_reach(g, start, t);
        assert(step_ok(g, s[s.len() - 2], s.last()));
        assert(t.last() == s[s.len() - 2]);
        lemma_step_reach(g, start, t.last(), s.last(), (t.len() - 1) as nat);
        lemma_reach_mono(
            g,
            start,
            s.last(),
            ((t.len() - 1) as nat + 1) as nat,
            (s.len() - 1) as nat,
        );
    }
}

} // verus!
