//! The movement planner: cost-limited reachable cells and least-cost paths.
//!
//! `get_reachable_cells` runs a level-by-level flood fill from a start
//! position over the 8-connected neighborhood; every step costs a flat
//! `STEP_FT` regardless of direction.  Only an explicitly blocked cell stops
//! expansion; an absent (out-of-bounds) cell does not.  The result maps each
//! reachable coordinate to its cheapest cost and a predecessor on a cheapest
//! path.  `get_path` reconstructs the chain of steps to a destination.

use vstd::prelude::*;

use crate::grid::{blocked_at, Grid, GridCell};
use crate::pos::{adjacent, GridPos, MAX_BUDGET_FT, MAX_COORD, STEP_FT};
use crate::reach::{
    at_level, is_path, lemma_adjacent_nb, lemma_has_level, lemma_level_fixpoint,
    lemma_level_pred, lemma_level_unique, lemma_nb_adjacent, lemma_path_reach,
    lemma_reach_mono, lemma_step_reach, nb, reach_in, step_ok,
};

verus! {

/// One record of the planner's result: the cheapest discovered cumulative
/// cost to reach `to`, and the predecessor `from` on that path.
#[derive(Clone, Copy, PartialEq, Eq, Structural, Debug)]
pub struct ReachableCell {
    pub to: GridPos,
    pub cost_ft: i32,
    pub from: GridPos,
}

/// The map built by `rc_map`: destination coordinate to record.
pub open spec fn rc_map(s: Seq<ReachableCell>) -> Map<(int, int), ReachableCell>
    decreases s.len(),
{
    if s.len() == 0 {
        Map::empty()
    } else {
        rc_map(s.drop_last()).insert(s.last().to@, s.last())
    }
}

/// Destination coordinates are pairwise distinct.
pub open spec fn rc_distinct(s: Seq<ReachableCell>) -> bool {
    forall|i: int, j: int| 0 <= i < j < s.len() ==> s[i].to@ != s[j].to@
}

proof fn lemma_rc_map_props(s: Seq<ReachableCell>)
    requires
        rc_distinct(s),
    ensures
        forall|p: (int, int)|
            #[trigger] rc_map(s).dom().contains(p) <==> exists|i: int|
                0 <= i < s.len() && s[i].to@ == p,
        forall|i: int|
            0 <= i < s.len() ==> rc_map(s).dom().contains(#[trigger] s[i].to@)
                && rc_map(s)[s[i].to@] == s[i],
        rc_map(s).dom().finite(),
        rc_map(s).dom().len() == s.len(),
    decreases s.len(),
{
    if s.len() == 0 {
    } else {
        let t = s.drop_last();
        lemma_rc_map_props(t);
        assert forall|p: (int, int)| #[trigger] rc_map(s).dom().contains(
            p,
        ) implies exists|i: int| 0 <= i < s.len() && s[i].to@ == p by {
            if p == s.last().to@ {
                assert(s[s.len() - 1].to@ == p);
            } else {
                let i = choose|i: int| 0 <= i < t.len() && t[i].to@ == p;
                assert(s[i].to@ == p);
            }
        }
        assert forall|p: (int, int)| (exists|i: int|
            0 <= i < s.len() && s[i].to@ == p) implies #[trigger] rc_map(
            s,
        ).dom().contains(p) by {
            let i = choose|i: int| 0 <= i < s.len() && s[i].to@ == p;
            if i < s.len() - 1 {
                assert(t[i].to@ == p);
            }
        }
        assert forall|i: int| 0 <= i < s.len() implies rc_map(s).dom().contains(
            #[trigger] s[i].to@,
        ) && rc_map(s)[s[i].to@] == s[i] by {
            if i < s.len() - 1 {
                assert(t[i] == s[i]);
                assert(s[i].to@ != s.last().to@);
            }
        }
        assert(!rc_map(t).dom().contains(s.last().to@));
    }
}

/// The planner's result: at most one record per destination coordinate.
pub struct ReachableMap {
    entries: Vec<ReachableCell>,
}

impl View for ReachableMap {
    type V = Map<(int, int), ReachableCell>;

    closed spec fn view(&self) -> Map<(int, int), ReachableCell> {
        rc_map(self.entries@)
    }
}

impl ReachableMap {
    pub closed spec fn wf(self) -> bool {
        rc_distinct(self.entries@)
    }

    pub fn new() -> (r: ReachableMap)
        ensures
            r.wf(),
            r@ =~= Map::<(int, int), ReachableCell>::empty(),
    {
        ReachableMap { entries: Vec::new() }
    }

    /// How many destinations the map holds.
    pub fn len(&self) -> (n: usize)
        requires
            self.wf(),
        ensures
            n == self@.dom().len(),
            self@.dom().finite(),
    {
        proof {
            lemma_rc_map_props(self.entries@);
        }
        self.entries.len()
    }

    /// The record for a destination, if that destination is reachable.
    pub fn get(&self, p: GridPos) -> (r: Option<&ReachableCell>)
        requires
            self.wf(),
        ensures
            match r {
                Some(rc) => self@.dom().contains(p@) && *rc == self@[p@],
                None => !self@.dom().contains(p@),
            },
    {
        proof {
            lemma_rc_map_props(self.entries@);
        }
        let n = self.entries.len();
        let mut i: usize = 0;
        while i < n
            invariant
                n == self.entries@.len(),
                i <= n,
                self.wf(),
                forall|j: int| 0 <= j < i ==> self.entries@[j].to@ != p@,
                forall|j: int|
                    0 <= j < n ==> rc_map(self.entries@).dom().contains(
                        #[trigger] self.entries@[j].to@,
                    ) && rc_map(self.entries@)[self.entries@[j].to@]
                        == self.entries@[j],
                forall|q: (int, int)|
                    #[trigger] rc_map(self.entries@).dom().contains(q)
                        ==> exists|j: int|
                        0 <= j < n && self.entries@[j].to@ == q,
            decreases n - i,
        {
            if self.entries[i].to == p {
                return Some(&self.entries[i]);
            }
            i += 1;
        }
        return None;
    }

    /// Is the destination present?
    pub fn contains(&self, p: GridPos) -> (r: bool)
        requires
            self.wf(),
        ensures
            r == self@.dom().contains(p@),
    {
        self.get(p).is_some()
    }

    /// All records, in discovery order (cheapest levels first).
    pub fn entries(&self) -> (r: &Vec<ReachableCell>)
        requires
            self.wf(),
        ensures
            r@.len() == self@.dom().len(),
            forall|i: int|
                0 <= i < r@.len() ==> self@.dom().contains(#[trigger] r@[i].to@)
                    && self@[r@[i].to@] == r@[i],
    {
        proof {
            lemma_rc_map_props(self.entries@);
        }
        &self.entries
    }

    /// Insert a record for a destination not yet present.
    pub fn insert_new(&mut self, rc: ReachableCell)
        requires
            old(self).wf(),
            !old(self)@.dom().contains(rc.to@),
        ensures
            final(self).wf(),
            final(self)@ == old(self)@.insert(rc.to@, rc),
    {
        proof {
            lemma_rc_map_props(self.entries@);
        }
        self.entries.push(rc);
        proof {
            assert(self.entries@.drop_last() =~= old(self).entries@);
            assert forall|i: int, j: int|
                0 <= i < j < self.entries@.len() implies self.entries@[i].to@
                != self.entries@[j].to@ by {
                if j < self.entries@.len() - 1 {
                    assert(old(self).entries@[i].to@ != old(
                        self,
                    ).entries@[j].to@);
                } else {
                    assert(old(self).entries@[i].to@ == self.entries@[i].to@);
                    if self.entries@[i].to@ == rc.to@ {
                        lemma_rc_map_props(old(self).entries@);
                    }
                }
            }
        }
    }
}

/// `p` can be reached from `start` within the budget: in at least one and
/// at most `budget / STEP_FT` steps.
pub open spec fn reachable_within(
    g: Map<(int, int), GridCell>,
    start: (int, int),
    budget: int,
    p: (int, int),
) -> bool {
    p != start && exists|k: nat|
        1 <= k && STEP_FT * k <= budget && #[trigger] reach_in(g, start, p, k)
}

/// What one record of the result promises: its cost is the least number of
/// steps times `STEP_FT`, within budget, and its predecessor is one legal
/// step back on a cheapest path, chaining down to `start`.
pub open spec fn rc_ok(
    g: Map<(int, int), GridCell>,
    start: (int, int),
    budget: int,
    m: Map<(int, int), ReachableCell>,
    p: (int, int),
) -> bool {
    let rc = m[p];
    &&& rc.to@ == p
    &&& p != start
    &&& rc.cost_ft % STEP_FT == 0
    &&& STEP_FT <= rc.cost_ft <= budget
    &&& at_level(g, start, p, (rc.cost_ft / STEP_FT) as nat)
    &&& step_ok(g, rc.from@, p)
    &&& (rc.cost_ft == STEP_FT ==> rc.from@ == start)
    &&& (rc.cost_ft > STEP_FT ==> m.dom().contains(rc.from@)
        && m[rc.from@].cost_ft == rc.cost_ft - STEP_FT)
}

/// The whole contract of `get_reachable_cells`: the start coordinate is
/// excluded, every record is sound (`rc_ok`), and every coordinate
/// reachable within the budget is present.
pub open spec fn reachable_map_ok(
    g: Map<(int, int), GridCell>,
    start: (int, int),
    budget: int,
    m: Map<(int, int), ReachableCell>,
) -> bool {
    &&& !m.dom().contains(start)
    &&& forall|p: (int, int)|
        #[trigger] m.dom().contains(p) ==> rc_ok(g, start, budget, m, p)
    &&& forall|p: (int, int)|
        reachable_within(g, start, budget, p) ==> #[trigger] m.dom().contains(p)
}

/// Machine limits on the planner's inputs, so that step costs and visited
/// coordinates can never overflow an `i32`.
pub open spec fn planner_args_ok(start: GridPos, budget_ft: i32) -> bool {
    &&& -MAX_COORD <= start.x <= MAX_COORD
    &&& -MAX_COORD <= start.y <= MAX_COORD
    &&& budget_ft <= MAX_BUDGET_FT
}

/// `p` lies within Chebyshev distance `k` of `s`.
pub open spec fn in_window(s: (int, int), p: (int, int), k: int) -> bool {
    &&& s.0 - k <= p.0 <= s.0 + k
    &&& s.1 - k <= p.1 <= s.1 + k
}

/// The search need not act on `p`: it is blocked, or it is the start, or it
/// is already recorded.
pub open spec fn covered(
    g: Map<(int, int), GridCell>,
    start: (int, int),
    m: Map<(int, int), ReachableCell>,
    p: (int, int),
) -> bool {
    blocked_at(g, p) || p == start || m.dom().contains(p)
}

/// Invariant while the search expands level `k` into level `k + 1`.
/// `m0` is the snapshot of the map when the level began: it held exactly
/// the coordinates reachable within `k` steps (other than `start`), and the
/// current map extends it by coordinates first reached at level `k + 1`.
pub open spec fn level_inv(
    g: Map<(int, int), GridCell>,
    start: (int, int),
    budget: int,
    k: int,
    m0: Map<(int, int), ReachableCell>,
    m: Map<(int, int), ReachableCell>,
) -> bool {
    &&& !m.dom().contains(start)
    &&& forall|p: (int, int)|
        #[trigger] m0.dom().contains(p) ==> m.dom().contains(p) && m[p] == m0[p]
    &&& forall|p: (int, int)|
        #[trigger] m.dom().contains(p) ==> rc_ok(g, start, budget, m, p)
            && m[p].cost_ft <= STEP_FT * (k + 1)
    &&& forall|p: (int, int)|
        #[trigger] m.dom().contains(p) ==> m0.dom().contains(p) || at_level(
            g,
            start,
            p,
            (k + 1) as nat,
        )
    &&& forall|p: (int, int)|
        (p == start || m0.dom().contains(p)) <==> #[trigger] reach_in(
            g,
            start,
            p,
            k as nat,
        )
}

/// `next` lists exactly the coordinates added since the level snapshot
/// `m0`, each once, all within the widened window.
pub open spec fn next_tracks(
    start: (int, int),
    k: int,
    m0: Map<(int, int), ReachableCell>,
    m: Map<(int, int), ReachableCell>,
    next: Seq<GridPos>,
) -> bool {
    &&& forall|i: int|
        0 <= i < next.len() ==> m.dom().contains(#[trigger] next[i]@)
            && !m0.dom().contains(next[i]@)
    &&& forall|i: int, j: int|
        0 <= i < j < next.len() ==> next[i]@ != next[j]@
    &&& forall|p: (int, int)|
        #[trigger] m.dom().contains(p) && !m0.dom().contains(p) ==> exists|i: int|
            0 <= i < next.len() && next[i]@ == p
    &&& forall|i: int|
        0 <= i < next.len() ==> in_window(start, #[trigger] next[i]@, k + 1)
}

/// The `j`-th neighbor of `p`, in the order the search visits them.
fn neighbor(p: GridPos, j: usize) -> (r: GridPos)
    requires
        j < 8,
        i32::MIN < p.x < i32::MAX,
        i32::MIN < p.y < i32::MAX,
    ensures
        r@ == nb(p@, j as int),
{
    if j == 0 {
        GridPos { x: p.x - 1, y: p.y }
    } else if j == 1 {
        GridPos { x: p.x + 1, y: p.y }
    } else if j == 2 {
        GridPos { x: p.x, y: p.y - 1 }
    } else if j == 3 {
        GridPos { x: p.x, y: p.y + 1 }
    } else if j == 4 {
        GridPos { x: p.x - 1, y: p.y - 1 }
    } else if j == 5 {
        GridPos { x: p.x + 1, y: p.y - 1 }
    } else if j == 6 {
        GridPos { x: p.x - 1, y: p.y + 1 }
    } else {
        GridPos { x: p.x + 1, y: p.y + 1 }
    }
}

/// Inserting a fresh record for a coordinate first reached at level
/// `k + 1`, discovered from the level-`k` cell `pos`, preserves the level
/// invariant and the tracking of newly added coordinates.
proof fn lemma_level_insert(
    g: Map<(int, int), GridCell>,
    s0: (int, int),
    b: int,
    k: int,
    m0: Map<(int, int), ReachableCell>,
    mb: Map<(int, int), ReachableCell>,
    next_b: Seq<GridPos>,
    rc: ReachableCell,
    pos: GridPos,
    np: GridPos,
)
    requires
        0 <= k,
        STEP_FT * (k + 1) <= b,
        rc.to == np,
        rc.from == pos,
        rc.cost_ft == STEP_FT * (k + 1),
        step_ok(g, pos@, np@),
        !mb.dom().contains(np@),
        np@ != s0,
        at_level(g, s0, np@, (k + 1) as nat),
        level_inv(g, s0, b, k, m0, mb),
        next_tracks(s0, k, m0, mb, next_b),
        in_window(s0, np@, k + 1),
        k >= 1 ==> mb.dom().contains(pos@) && mb[pos@].cost_ft == STEP_FT * k,
        k == 0 ==> pos@ == s0,
    ensures
        level_inv(g, s0, b, k, m0, mb.insert(np@, rc)),
        next_tracks(s0, k, m0, mb.insert(np@, rc), next_b.push(np)),
{
    let mm = mb.insert(np@, rc);
    let nn = next_b.push(np);
    assert forall|p: (int, int)| #[trigger] mm.dom().contains(p) implies rc_ok(
        g,
        s0,
        b,
        mm,
        p,
    ) && mm[p].cost_ft <= STEP_FT * (k + 1) by {
        if p == np@ {
            assert(mm[p] == rc);
            assert(rc.cost_ft % STEP_FT == 0);
            assert((rc.cost_ft / STEP_FT) as nat == (k + 1) as nat);
            if rc.cost_ft > STEP_FT {
                assert(mm.dom().contains(pos@));
                assert(mm[pos@] == mb[pos@]);
            }
        } else {
            assert(mb.dom().contains(p));
            assert(rc_ok(g, s0, b, mb, p));
            assert(mm[p] == mb[p]);
            if mb[p].cost_ft > STEP_FT {
                assert(mb.dom().contains(mb[p].from@));
                assert(mm[mb[p].from@] == mb[mb[p].from@]);
            }
        }
    }
    assert forall|p: (int, int)|
        #[trigger] mm.dom().contains(p) && !m0.dom().contains(p) implies exists|
        i: int,
    | 0 <= i < nn.len() && nn[i]@ == p by {
        if p == np@ {
            assert(nn[nn.len() - 1]@ == p);
        } else {
            let i = choose|i: int| 0 <= i < next_b.len() && next_b[i]@ == p;
            assert(nn[i]@ == p);
        }
    }
    assert forall|i: int, j: int| 0 <= i < j < nn.len() implies nn[i]@
        != nn[j]@ by {
        if j < nn.len() - 1 {
            assert(next_b[i]@ != next_b[j]@);
        } else {
            assert(nn[i]@ == next_b[i]@);
            assert(mb.dom().contains(next_b[i]@));
        }
    }
    assert forall|i: int| 0 <= i < nn.len() implies in_window(
        s0,
        #[trigger] nn[i]@,
        k + 1,
    ) by {
        if i < nn.len() - 1 {
            assert(in_window(s0, next_b[i]@, k + 1));
        }
    }
}

/// Handle one neighbor `np` of the level-`k` cell `pos`: record it at cost
/// `new_cost` unless it is blocked, the start, or already known.
#[verifier::rlimit(100)]
fn visit_neighbor(
    pos: GridPos,
    np: GridPos,
    new_cost: i32,
    start: GridPos,
    budget_ft: i32,
    grid: &Grid,
    m: &mut ReachableMap,
    next: &mut Vec<GridPos>,
    Ghost(k): Ghost<int>,
    Ghost(m0): Ghost<Map<(int, int), ReachableCell>>,
)
    requires
        grid.wf(),
        0 <= k,
        STEP_FT * (k + 1) <= budget_ft,
        new_cost == STEP_FT * (k + 1),
        at_level(grid@, start@, pos@, k as nat),
        adjacent(pos@, np@),
        in_window(start@, np@, k + 1),
        old(m).wf(),
        level_inv(grid@, start@, budget_ft as int, k, m0, old(m)@),
        next_tracks(start@, k, m0, old(m)@, old(next)@),
    ensures
        final(m).wf(),
        level_inv(grid@, start@, budget_ft as int, k, m0, final(m)@),
        next_tracks(start@, k, m0, final(m)@, final(next)@),
        covered(grid@, start@, final(m)@, np@),
        forall|p: (int, int)|
            #[trigger] old(m)@.dom().contains(p) ==> final(m)@.dom().contains(p),
        final(next)@.len() >= old(next)@.len(),
        forall|i: int|
            0 <= i < old(next)@.len() ==> final(next)@[i] == old(next)@[i],
{
    let ghost g = grid@;
    let ghost s0 = start@;
    let ghost b = budget_ft as int;
    if grid.is_blocked(np) {
        return ;
    }
    if np.x == start.x && np.y == start.y {
        return ;
    }
    if m.contains(np) {
        return ;
    }
    // np is a fresh coordinate first reached at level k + 1
    proof {
        assert(reach_in(g, s0, pos@, k as nat));
        assert(step_ok(g, pos@, np@));
        lemma_step_reach(g, s0, pos@, np@, k as nat);
        assert(reach_in(g, s0, np@, (k + 1) as nat));
        // not reachable within k steps: it is neither start nor recorded
        assert(!reach_in(g, s0, np@, k as nat));
        assert(at_level(g, s0, np@, (k + 1) as nat));
    }
    let rc = ReachableCell { to: np, from: pos, cost_ft: new_cost };
    proof {
        // the predecessor is the start (level 0) or recorded at cost 5k
        if k == 0 {
            assert(at_level(g, s0, pos@, 0nat));
            assert(pos@ == s0);
        } else {
            assert(reach_in(g, s0, pos@, k as nat));
            if pos@ == s0 {
                lemma_reach_mono(g, s0, pos@, 0, (k - 1) as nat);
                assert(false);
            }
            assert(m0.dom().contains(pos@));
            assert(rc_ok(g, s0, b, m@, pos@));
            lemma_level_unique(
                g,
                s0,
                pos@,
                (m@[pos@].cost_ft / STEP_FT) as nat,
                k as nat,
            );
            assert(m@[pos@].cost_ft == STEP_FT * k);
        }
        lemma_level_insert(g, s0, b, k, m0, m@, next@, rc, pos, np);
    }
    m.insert_new(rc);
    next.push(np);
}

/// Visit all 8 neighbors of the level-`k` cell `pos`.
fn expand_cell(
    pos: GridPos,
    new_cost: i32,
    start: GridPos,
    budget_ft: i32,
    grid: &Grid,
    m: &mut ReachableMap,
    next: &mut Vec<GridPos>,
    Ghost(k): Ghost<int>,
    Ghost(m0): Ghost<Map<(int, int), ReachableCell>>,
)
    requires
        grid.wf(),
        0 <= k,
        STEP_FT * (k + 1) <= budget_ft,
        budget_ft <= MAX_BUDGET_FT,
        new_cost == STEP_FT * (k + 1),
        -MAX_COORD <= start.x <= MAX_COORD,
        -MAX_COORD <= start.y <= MAX_COORD,
        at_level(grid@, start@, pos@, k as nat),
        in_window(start@, pos@, k),
        old(m).wf(),
        level_inv(grid@, start@, budget_ft as int, k, m0, old(m)@),
        next_tracks(start@, k, m0, old(m)@, old(next)@),
    ensures
        final(m).wf(),
        level_inv(grid@, start@, budget_ft as int, k, m0, final(m)@),
        next_tracks(start@, k, m0, final(m)@, final(next)@),
        forall|j: int|
            0 <= j < 8 ==> covered(grid@, start@, final(m)@, #[trigger] nb(
                pos@,
                j,
            )),
        forall|p: (int, int)|
            #[trigger] old(m)@.dom().contains(p) ==> final(m)@.dom().contains(p),
        final(next)@.len() >= old(next)@.len(),
        forall|i: int|
            0 <= i < old(next)@.len() ==> final(next)@[i] == old(next)@[i],
{
    let ghost g = grid@;
    let ghost s0 = start@;
    proof {
        // k is at most budget_ft / STEP_FT, so coordinates stay in i32 range
        assert(k + 1 <= budget_ft / STEP_FT);
    }
    let mut j: usize = 0;
    while j < 8
        invariant
            grid.wf(),
            g == grid@,
            s0 == start@,
            0 <= k,
            STEP_FT * (k + 1) <= budget_ft,
            budget_ft <= MAX_BUDGET_FT,
            new_cost == STEP_FT * (k + 1),
            -MAX_COORD <= start.x <= MAX_COORD,
            -MAX_COORD <= start.y <= MAX_COORD,
            at_level(g, s0, pos@, k as nat),
            in_window(s0, pos@, k),
            j <= 8,
            m.wf(),
            level_inv(g, s0, budget_ft as int, k, m0, m@),
            next_tracks(s0, k, m0, m@, next@),
            forall|jj: int|
                0 <= jj < j ==> covered(g, s0, m@, #[trigger] nb(pos@, jj)),
            forall|p: (int, int)|
                #[trigger] old(m)@.dom().contains(p) ==> m@.dom().contains(p),
            next@.len() >= old(next)@.len(),
            forall|i: int|
                0 <= i < old(next)@.len() ==> next@[i] == old(next)@[i],
        decreases 8 - j,
    {
        let ghost m_head = m@;
        let np = neighbor(pos, j);
        proof {
            lemma_nb_adjacent(pos@, j as int);
        }
        visit_neighbor(
            pos,
            np,
            new_cost,
            start,
            budget_ft,
            grid,
            m,
            next,
            Ghost(k),
            Ghost(m0),
        );
        proof {
            assert forall|jj: int| 0 <= jj < j + 1 implies covered(
                g,
                s0,
                m@,
                #[trigger] nb(pos@, jj),
            ) by {
                if jj < j {
                    assert(covered(g, s0, m_head, nb(pos@, jj)));
                }
            }
        }
        j += 1;
    }
}

/// After every level-`k` cell's neighbors are covered, every coordinate
/// first reached at level `k + 1` is recorded.
proof fn lemma_level_complete(
    g: Map<(int, int), GridCell>,
    s0: (int, int),
    b: int,
    k: int,
    m0: Map<(int, int), ReachableCell>,
    m: Map<(int, int), ReachableCell>,
    frontier: Seq<GridPos>,
)
    requires
        0 <= k,
        level_inv(g, s0, b, k, m0, m),
        forall|p: (int, int)|
            #[trigger] at_level(g, s0, p, k as nat) ==> exists|i: int|
                0 <= i < frontier.len() && frontier[i]@ == p,
        forall|i: int, j: int|
            0 <= i < frontier.len() && 0 <= j < 8 ==> covered(
                g,
                s0,
                m,
                #[trigger] nb(frontier[i]@, j),
            ),
    ensures
        forall|p: (int, int)|
            #[trigger] at_level(g, s0, p, (k + 1) as nat) ==> m.dom().contains(p),
{
    assert forall|p: (int, int)| #[trigger] at_level(
        g,
        s0,
        p,
        (k + 1) as nat,
    ) implies m.dom().contains(p) by {
        lemma_level_pred(g, s0, p, (k + 1) as nat);
        let q = choose|q: (int, int)|
            #[trigger] at_level(g, s0, q, ((k + 1) as nat - 1) as nat) && step_ok(
                g,
                q,
                p,
            );
        assert(at_level(g, s0, q, k as nat));
        let i = choose|i: int| 0 <= i < frontier.len() && frontier[i]@ == q;
        lemma_adjacent_nb(q, p);
        assert(covered(g, s0, m, p)) by {
            if p == nb(q, 0) {
                assert(covered(g, s0, m, nb(frontier[i]@, 0)));
            } else if p == nb(q, 1) {
                assert(covered(g, s0, m, nb(frontier[i]@, 1)));
            } else if p == nb(q, 2) {
                assert(covered(g, s0, m, nb(frontier[i]@, 2)));
            } else if p == nb(q, 3) {
                assert(covered(g, s0, m, nb(frontier[i]@, 3)));
            } else if p == nb(q, 4) {
                assert(covered(g, s0, m, nb(frontier[i]@, 4)));
            } else if p == nb(q, 5) {
                assert(covered(g, s0, m, nb(frontier[i]@, 5)));
            } else if p == nb(q, 6) {
                assert(covered(g, s0, m, nb(frontier[i]@, 6)));
            } else {
                assert(covered(g, s0, m, nb(frontier[i]@, 7)));
            }
        }
        // p cannot be blocked (a step enters it) nor the start (level >= 1)
        assert(!blocked_at(g, p));
        if p == s0 {
            lemma_reach_mono(g, s0, p, 0, k as nat);
            assert(false);
        }
    }
}

/// Once level `k + 1` is complete, the recorded set matches reachability
/// within `k + 1` steps, and the added coordinates are exactly those first
/// reached at level `k + 1`.
proof fn lemma_advance_level(
    g: Map<(int, int), GridCell>,
    s0: (int, int),
    b: int,
    k: int,
    m0: Map<(int, int), ReachableCell>,
    m: Map<(int, int), ReachableCell>,
    next: Seq<GridPos>,
)
    requires
        0 <= k,
        level_inv(g, s0, b, k, m0, m),
        next_tracks(s0, k, m0, m, next),
        forall|p: (int, int)|
            #[trigger] at_level(g, s0, p, (k + 1) as nat) ==> m.dom().contains(p),
    ensures
        forall|p: (int, int)|
            (p == s0 || m.dom().contains(p)) <==> #[trigger] reach_in(
                g,
                s0,
                p,
                (k + 1) as nat,
            ),
        forall|i: int|
            0 <= i < next.len() ==> at_level(
                g,
                s0,
                #[trigger] next[i]@,
                (k + 1) as nat,
            ),
        forall|p: (int, int)|
            #[trigger] at_level(g, s0, p, (k + 1) as nat) ==> exists|i: int|
                0 <= i < next.len() && next[i]@ == p,
{
    assert forall|p: (int, int)| (p == s0 || m.dom().contains(p)) implies
    #[trigger] reach_in(g, s0, p, (k + 1) as nat) by {
        if p == s0 {
            lemma_reach_mono(g, s0, p, 0, (k + 1) as nat);
        } else if m0.dom().contains(p) {
            assert(reach_in(g, s0, p, k as nat));
            lemma_reach_mono(g, s0, p, k as nat, (k + 1) as nat);
        } else {
            assert(at_level(g, s0, p, (k + 1) as nat));
        }
    }
    assert forall|p: (int, int)| #[trigger] reach_in(
        g,
        s0,
        p,
        (k + 1) as nat,
    ) implies (p == s0 || m.dom().contains(p)) by {
        lemma_has_level(g, s0, p, (k + 1) as nat);
        let l = choose|l: nat|
            l <= (k + 1) as nat && #[trigger] at_level(g, s0, p, l);
        if l <= k as nat {
            lemma_reach_mono(g, s0, p, l, k as nat);
            assert(reach_in(g, s0, p, k as nat));
        } else {
            assert(l == (k + 1) as nat);
            assert(at_level(g, s0, p, (k + 1) as nat));
        }
    }
    assert forall|i: int| 0 <= i < next.len() implies at_level(
        g,
        s0,
        #[trigger] next[i]@,
        (k + 1) as nat,
    ) by {
        assert(m.dom().contains(next[i]@) && !m0.dom().contains(next[i]@));
    }
    assert forall|p: (int, int)| #[trigger] at_level(
        g,
        s0,
        p,
        (k + 1) as nat,
    ) implies exists|i: int| 0 <= i < next.len() && next[i]@ == p by {
        assert(m.dom().contains(p));
        if m0.dom().contains(p) {
            assert(reach_in(g, s0, p, k as nat));
            assert(false);
        }
    }
}

/// All cells reachable from `start_pos` within `budget_ft` of movement:
/// a level-by-level flood fill from `start_pos` over the 8-connected
/// neighborhood, each step costing a flat `STEP_FT` feet.  The start cell
/// itself is excluded from the result.
#[verifier::rlimit(100)]
pub fn get_reachable_cells(start_pos: GridPos, budget_ft: i32, grid: &Grid) -> (m:
    ReachableMap)
    requires
        grid.wf(),
        planner_args_ok(start_pos, budget_ft),
    ensures
        m.wf(),
        reachable_map_ok(grid@, start_pos@, budget_ft as int, m@),
{
    let ghost g = grid@;
    let ghost s0 = start_pos@;
    let ghost b = budget_ft as int;
    let mut m = ReachableMap::new();
    if budget_ft < STEP_FT {
        proof {
            assert forall|p: (int, int)| reachable_within(g, s0, b, p) implies
            #[trigger] m@.dom().contains(p) by {
                let kx = choose|kx: nat|
                    1 <= kx && STEP_FT * kx <= b && #[trigger] reach_in(
                        g,
                        s0,
                        p,
                        kx,
                    );
                assert(STEP_FT * kx >= STEP_FT);
                assert(false);
            }
        }
        return m;
    }
    let mut frontier: Vec<GridPos> = Vec::new();
    frontier.push(start_pos);
    let mut k: i32 = 0;
    proof {
        assert(at_level(g, s0, s0, 0nat));
        assert(frontier@[0]@ == s0);
    }
    while frontier.len() != 0 && (k + 1) * STEP_FT <= budget_ft
        invariant
            grid.wf(),
            g == grid@,
            s0 == start_pos@,
            b == budget_ft as int,
            planner_args_ok(start_pos, budget_ft),
            STEP_FT <= budget_ft,
            0 <= k,
            STEP_FT * k <= budget_ft,
            m.wf(),
            !m@.dom().contains(s0),
            forall|p: (int, int)|
                #[trigger] m@.dom().contains(p) ==> rc_ok(g, s0, b, m@, p)
                    && m@[p].cost_ft <= STEP_FT * k,
            forall|p: (int, int)|
                (p == s0 || m@.dom().contains(p)) <==> #[trigger] reach_in(
                    g,
                    s0,
                    p,
                    k as nat,
                ),
            forall|i: int|
                0 <= i < frontier@.len() ==> at_level(
                    g,
                    s0,
                    #[trigger] frontier@[i]@,
                    k as nat,
                ),
            forall|p: (int, int)|
                #[trigger] at_level(g, s0, p, k as nat) ==> exists|i: int|
                    0 <= i < frontier@.len() && frontier@[i]@ == p,
            forall|i: int|
                0 <= i < frontier@.len() ==> in_window(
                    s0,
                    #[trigger] frontier@[i]@,
                    k as int,
                ),
            k == 0 ==> frontier@.len() > 0,
        decreases budget_ft - STEP_FT * k,
    {
        let new_cost = (k + 1) * STEP_FT;
        let ghost m0 = m@;
        let mut next: Vec<GridPos> = Vec::new();
        let mut fi: usize = 0;
        while fi < frontier.len()
            invariant
                grid.wf(),
                g == grid@,
                s0 == start_pos@,
                b == budget_ft as int,
                planner_args_ok(start_pos, budget_ft),
                0 <= k,
                STEP_FT * (k + 1) <= budget_ft,
                new_cost == STEP_FT * (k + 1),
                fi <= frontier@.len(),
                m.wf(),
                level_inv(g, s0, b, k as int, m0, m@),
                next_tracks(s0, k as int, m0, m@, next@),
                forall|i: int|
                    0 <= i < frontier@.len() ==> at_level(
                        g,
                        s0,
                        #[trigger] frontier@[i]@,
                        k as nat,
                    ),
                forall|p: (int, int)|
                    #[trigger] at_level(g, s0, p, k as nat) ==> exists|i: int|
                        0 <= i < frontier@.len() && frontier@[i]@ == p,
                forall|i: int|
                    0 <= i < frontier@.len() ==> in_window(
                        s0,
                        #[trigger] frontier@[i]@,
                        k as int,
                    ),
                forall|i: int, j: int|
                    0 <= i < fi && 0 <= j < 8 ==> covered(
                        g,
                        s0,
                        m@,
                        #[trigger] nb(frontier@[i]@, j),
                    ),
            decreases frontier@.len() - fi,
        {
            let ghost m_head = m@;
            let pos = frontier[fi];
            expand_cell(
                pos,
                new_cost,
                start_pos,
                budget_ft,
                grid,
                &mut m,
                &mut next,
                Ghost(k as int),
                Ghost(m0),
            );
            proof {
                assert forall|i: int, j: int|
                    0 <= i < fi + 1 && 0 <= j < 8 implies covered(
                    g,
                    s0,
                    m@,
                    #[trigger] nb(frontier@[i]@, j),
                ) by {
                    if i < fi {
                        assert(covered(g, s0, m_head, nb(frontier@[i]@, j)));
                    } else {
                        assert(covered(g, s0, m@, nb(pos@, j)));
                    }
                }
            }
            fi += 1;
        }
        proof {
            lemma_level_complete(g, s0, b, k as int, m0, m@, frontier@);
            lemma_advance_level(g, s0, b, k as int, m0, m@, next@);
        }
        let ghost kprev = k as int;
        let ghost nextg = next@;
        frontier = next;
        k = k + 1;
        proof {
            assert((kprev + 1) as nat == k as nat);
            assert forall|p: (int, int)|
                (p == s0 || m@.dom().contains(p)) <==> #[trigger] reach_in(
                g,
                s0,
                p,
                k as nat,
            ) by {
                assert(reach_in(g, s0, p, (kprev + 1) as nat) == reach_in(
                    g,
                    s0,
                    p,
                    k as nat,
                ));
            }
            assert forall|i: int| 0 <= i < frontier@.len() implies at_level(
                g,
                s0,
                #[trigger] frontier@[i]@,
                k as nat,
            ) by {
                assert(at_level(g, s0, nextg[i]@, (kprev + 1) as nat));
            }
            assert forall|p: (int, int)| #[trigger] at_level(
                g,
                s0,
                p,
                k as nat,
            ) implies exists|i: int|
                0 <= i < frontier@.len() && frontier@[i]@ == p by {
                assert(at_level(g, s0, p, (kprev + 1) as nat) == at_level(
                    g,
                    s0,
                    p,
                    k as nat,
                ));
            }
            assert forall|i: int| 0 <= i < frontier@.len() implies in_window(
                s0,
                #[trigger] frontier@[i]@,
                k as int,
            ) by {
                assert(in_window(s0, nextg[i]@, kprev + 1));
            }
        }
    }
    proof {
        assert forall|p: (int, int)| #[trigger] m@.dom().contains(
            p,
        ) implies rc_ok(g, s0, b, m@, p) by {}
        if frontier@.len() == 0 {
            assert(k >= 1);
            assert forall|q: (int, int)| !(#[trigger] at_level(
                g,
                s0,
                q,
                k as nat,
            )) by {}
            assert forall|p: (int, int)| reachable_within(g, s0, b, p) implies
            #[trigger] m@.dom().contains(p) by {
                let kx = choose|kx: nat|
                    1 <= kx && STEP_FT * kx <= b && #[trigger] reach_in(
                        g,
                        s0,
                        p,
                        kx,
                    );
                lemma_level_fixpoint(g, s0, k as nat, p, kx);
                lemma_reach_mono(
                    g,
                    s0,
                    p,
                    (k as nat - 1) as nat,
                    k as nat,
                );
                assert(reach_in(g, s0, p, k as nat));
            }
        } else {
            assert((k + 1) * STEP_FT > budget_ft);
            assert forall|p: (int, int)| reachable_within(g, s0, b, p) implies
            #[trigger] m@.dom().contains(p) by {
                let kx = choose|kx: nat|
                    1 <= kx && STEP_FT * kx <= b && #[trigger] reach_in(
                        g,
                        s0,
                        p,
                        kx,
                    );
                assert(kx <= k as nat);
                lemma_reach_mono(g, s0, p, kx, k as nat);
                assert(reach_in(g, s0, p, k as nat));
            }
        }
    }
    m
}

/// A reconstructed path: the `i`-th record is the `(i + 1)`-th step of a
/// cheapest route, each step one legal move from the previous, each cost
/// the flat step cost times the number of steps so far, all within budget.
pub open spec fn path_chain(
    g: Map<(int, int), GridCell>,
    start: (int, int),
    budget: int,
    s: Seq<ReachableCell>,
) -> bool {
    &&& forall|i: int|
        0 <= i < s.len() ==> (#[trigger] s[i]).cost_ft == STEP_FT * (i + 1)
    &&& forall|i: int|
        0 <= i < s.len() ==> (#[trigger] s[i]).from@ == if i == 0 {
            start
        } else {
            s[i - 1].to@
        }
    &&& forall|i: int|
        0 <= i < s.len() ==> step_ok(g, (#[trigger] s[i]).from@, s[i].to@)
    &&& forall|i: int|
        0 <= i < s.len() ==> at_level(g, start, (#[trigger] s[i]).to@, (i
            + 1) as nat)
    &&& STEP_FT * s.len() <= budget
}

/// A recorded coordinate is indeed reachable within the budget.
pub proof fn lemma_member_reachable(
    g: Map<(int, int), GridCell>,
    start: (int, int),
    budget: int,
    m: Map<(int, int), ReachableCell>,
    p: (int, int),
)
    requires
        reachable_map_ok(g, start, budget, m),
        m.dom().contains(p),
    ensures
        reachable_within(g, start, budget, p),
{
    let c = m[p].cost_ft;
    assert(rc_ok(g, start, budget, m, p));
    assert(reach_in(g, start, p, (c / STEP_FT) as nat));
    assert(STEP_FT * ((c / STEP_FT) as nat) <= budget);
}

/// Optimality of the cost map: no explicit blocked-free 8-neighbor path
/// from the start to a recorded coordinate costs strictly less than the
/// recorded cost.
pub proof fn lemma_no_cheaper_path(
    g: Map<(int, int), GridCell>,
    start: (int, int),
    budget: int,
    m: Map<(int, int), ReachableCell>,
    path: Seq<(int, int)>,
)
    requires
        reachable_map_ok(g, start, budget, m),
        is_path(g, path),
        path[0] == start,
        m.dom().contains(path.last()),
    ensures
        STEP_FT * (path.len() - 1) >= m[path.last()].cost_ft,
{
    lemma_path_reach(g, start, path);
    let c = m[path.last()].cost_ft;
    assert(rc_ok(g, start, budget, m, path.last()));
    if STEP_FT * (path.len() - 1) < c {
        assert((path.len() - 1) as nat <= ((c / STEP_FT) - 1) as nat);
        lemma_reach_mono(
            g,
            start,
            path.last(),
            (path.len() - 1) as nat,
            ((c / STEP_FT) - 1) as nat,
        );
        assert(!reach_in(g, start, path.last(), ((c / STEP_FT) - 1) as nat));
        assert(false);
    }
}

/// The cheapest route from `start_pos` to `destination` within the budget,
/// as the ordered list of step records (first step first, destination
/// last).  Empty when the destination is the start itself, is blocked, or
/// is unreachable within the budget: a legitimate "no path" outcome, not an
/// error.
#[verifier::rlimit(60)]
pub fn get_path(
    start_pos: GridPos,
    budget_ft: i32,
    destination: GridPos,
    grid: &Grid,
) -> (path: Vec<ReachableCell>)
    requires
        grid.wf(),
        planner_args_ok(start_pos, budget_ft),
    ensures
        (path@.len() == 0) <==> (destination@ == start_pos@ || !reachable_within(
            grid@,
            start_pos@,
            budget_ft as int,
            destination@,
        )),
        path@.len() > 0 ==> path_chain(
            grid@,
            start_pos@,
            budget_ft as int,
            path@,
        ) && path@.last().to@ == destination@,
{
    let ghost g = grid@;
    let ghost s0 = start_pos@;
    let ghost b = budget_ft as int;
    let m = get_reachable_cells(start_pos, budget_ft, grid);
    let found = m.get(destination);
    let mut rev: Vec<ReachableCell> = Vec::new();
    match found {
        None => {
            proof {
                if reachable_within(g, s0, b, destination@) {
                    assert(m@.dom().contains(destination@));
                }
            }
            let path: Vec<ReachableCell> = Vec::new();
            return path;
        },
        Some(rc0) => {
            let mut cur: ReachableCell = *rc0;
            rev.push(cur);
            proof {
                lemma_member_reachable(g, s0, b, m@, destination@);
            }
            while cur.cost_ft > STEP_FT
                invariant
                    m.wf(),
                    reachable_map_ok(g, s0, b, m@),
                    rev@.len() >= 1,
                    cur == rev@.last(),
                    forall|i: int|
                        0 <= i < rev@.len() ==> m@.dom().contains(
                            (#[trigger] rev@[i]).to@,
                        ) && m@[rev@[i].to@] == rev@[i],
                    rev@[0].to@ == destination@,
                    forall|i: int|
                        0 <= i < rev@.len() ==> (#[trigger] rev@[i]).cost_ft
                            == rev@[0].cost_ft - STEP_FT * i,
                    cur.cost_ft >= STEP_FT,
                    forall|i: int|
                        1 <= i < rev@.len() ==> (#[trigger] rev@[i]).to@
                            == rev@[i - 1].from@,
                decreases cur.cost_ft,
            {
                proof {
                    assert(rc_ok(g, s0, b, m@, cur.to@));
                }
                match m.get(cur.from) {
                    Some(pc) => {
                        cur = *pc;
                        rev.push(cur);
                    },
                    None => {
                        proof {
                            assert(false);
                        }
                    },
                }
            }
            proof {
                assert(rc_ok(g, s0, b, m@, cur.to@));
                assert(cur.cost_ft == STEP_FT);
                assert(cur.from@ == s0);
                assert(rev@[0].cost_ft == STEP_FT * rev@.len());
            }
            let n = rev.len();
            let mut path: Vec<ReachableCell> = Vec::new();
            let mut i: usize = 0;
            while i < n
                invariant
                    n == rev@.len(),
                    i <= n,
                    path@.len() == i,
                    forall|j: int|
                        0 <= j < i ==> #[trigger] path@[j] == rev@[n - 1 - j],
                decreases n - i,
            {
                path.push(rev[n - 1 - i]);
                i += 1;
            }
            proof {
                let pv = path@;
                let rv = rev@;
                assert forall|i: int| 0 <= i < pv.len() implies (
                #[trigger] pv[i]).cost_ft == STEP_FT * (i + 1) by {
                    assert(pv[i] == rv[n - 1 - i]);
                    assert(rv[n - 1 - i].cost_ft == rv[0].cost_ft - STEP_FT * (n
                        - 1 - i));
                }
                assert forall|i: int| 0 <= i < pv.len() implies (
                #[trigger] pv[i]).from@ == if i == 0 {
                    s0
                } else {
                    pv[i - 1].to@
                } by {
                    assert(pv[i] == rv[n - 1 - i]);
                    if i == 0 {
                        assert(rv[n - 1].cost_ft == STEP_FT);
                        assert(rc_ok(g, s0, b, m@, rv[n - 1].to@));
                    } else {
                        assert(rv[(n - i) as int].to@ == rv[n - i - 1].from@);
                        assert(pv[i - 1] == rv[n - i]);
                    }
                }
                assert forall|i: int| 0 <= i < pv.len() implies step_ok(
                    g,
                    (#[trigger] pv[i]).from@,
                    pv[i].to@,
                ) by {
                    assert(pv[i] == rv[n - 1 - i]);
                    assert(rc_ok(g, s0, b, m@, rv[n - 1 - i].to@));
                }
                assert forall|i: int| 0 <= i < pv.len() implies at_level(
                    g,
                    s0,
                    (#[trigger] pv[i]).to@,
                    (i + 1) as nat,
                ) by {
                    assert(pv[i] == rv[n - 1 - i]);
                    assert(rc_ok(g, s0, b, m@, rv[n - 1 - i].to@));
                    assert(m@[rv[n - 1 - i].to@].cost_ft == STEP_FT * (i + 1));
                    assert((m@[rv[n - 1 - i].to@].cost_ft / STEP_FT) as nat == (i
                        + 1) as nat);
                }
                assert(STEP_FT * pv.len() <= b) by {
                    assert(rv[0].cost_ft == STEP_FT * n);
                    assert(rc_ok(g, s0, b, m@, rv[0].to@));
                }
                assert(pv.last() == rv[0]);
            }
            return path;
        },
    }
}

} // verus!
