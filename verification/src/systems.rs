//! The command queue executor and turn management.
//!
//! Each tick, the front command's elapsed time advances
//! (`update_round_command_system`); once it has run its full duration it is
//! popped and its terminal effect applied (`finish_round_command_system`),
//! which may consult the movement planner and push further commands onto
//! the front of the queue.  While nothing is executing, initiative and
//! active-turn bookkeeping run (`assign_initiative_system`,
//! `assign_active_entity_system`).
//!
//! A command that references a missing entity is skipped silently: it is
//! still considered finished and removed, never an error.

use vstd::prelude::*;

use crate::grid::{Grid, GridCell};
use crate::planner::{
    get_path, path_chain, reachable_within, ReachableCell,
};
use crate::pos::{adjacent, GridPos, MAX_BUDGET_FT, MAX_COORD, STEP_FT};
use crate::reach::{lemma_step_reach, reach_in, step_ok};
use crate::round::{
    spec_end_round, spec_move_to, spec_recv_turn, Round, RoundCommand,
    RoundView, Variant,
};
use crate::token::{has_id, idx_of, EntityId, Token, Tokens};

verus! {

/// May a finalized move commit this destination?  Destinations outside
/// this box would let coordinates drift beyond the range the planner can
/// safely handle, so such a move degrades to a no-op.
pub open spec fn within_move_bounds(p: GridPos) -> bool {
    &&& -MAX_COORD <= p.x <= MAX_COORD
    &&& -MAX_COORD <= p.y <= MAX_COORD
}

/// What finalizing `MoveTo { who: t, to }` does to the token `t`: when the
/// destination differs from the current cell, is reachable within the
/// token's remaining movement, and lies in bounds, the token moves there
/// and pays one flat step of movement; otherwise nothing changes.
pub open spec fn apply_move_to(
    g: Map<(int, int), GridCell>,
    t: Token,
    to: GridPos,
) -> Token {
    if to@ != t.grid_pos@ && reachable_within(
        g,
        t.grid_pos@,
        t.movement_ft as int,
        to@,
    ) && within_move_bounds(to) {
        Token {
            grid_pos: to,
            movement_ft: (t.movement_ft - STEP_FT) as i32,
            ..t
        }
    } else {
        t
    }
}

/// Finalizing `MoveTo`: the referenced token (if any) moves one step.
pub open spec fn move_to_effect(
    g: Map<(int, int), GridCell>,
    who: EntityId,
    to: GridPos,
    t0: Seq<Token>,
    t1: Seq<Token>,
) -> bool {
    if has_id(t0, who) {
        t1 == t0.update(
            idx_of(t0, who),
            apply_move_to(g, t0[idx_of(t0, who)], to),
        )
    } else {
        t1 == t0
    }
}

/// The `MoveTo` commands for the steps of a path, in path order.
pub open spec fn move_cmds(who: EntityId, steps: Seq<ReachableCell>) -> Seq<
    RoundCommand,
> {
    Seq::new(steps.len(), |i: int| spec_move_to(who, steps[i].to))
}

/// Finalizing `MoveFar`: when the destination is reachable within the
/// token's movement, a cheapest path is expanded into one `MoveTo` per
/// step, pushed onto the front of the queue in path order; otherwise (no
/// path, or missing entity) nothing changes.
pub open spec fn move_far_effect(
    g: Map<(int, int), GridCell>,
    who: EntityId,
    to: GridPos,
    t0: Seq<Token>,
    r0: RoundView,
    r1: RoundView,
) -> bool {
    if has_id(t0, who) {
        let tok = t0[idx_of(t0, who)];
        if to@ == tok.grid_pos@ || !reachable_within(
            g,
            tok.grid_pos@,
            tok.movement_ft as int,
            to@,
        ) {
            r1 == r0
        } else {
            exists|steps: Seq<ReachableCell>|
                #![auto]
                path_chain(g, tok.grid_pos@, tok.movement_ft as int, steps)
                    && steps.len() > 0 && steps.last().to@ == to@ && r1
                    == (RoundView { queue: move_cmds(who, steps) + r0.queue, ..r0 })
        }
    } else {
        r1 == r0
    }
}

/// Finalizing `EndTurn`: only the current turn holder can relinquish the
/// turn; it is recorded as having acted.
pub open spec fn end_turn_effect(
    who: EntityId,
    r0: RoundView,
    r1: RoundView,
) -> bool {
    if r0.active == Some(who) {
        r1 == (RoundView {
            active: None::<EntityId>,
            taken: r0.taken.insert(who),
            ..r0
        })
    } else {
        r1 == r0
    }
}

/// Finalizing `EndRound`: the "has acted" set clears, no one holds the
/// turn, and the round counter increments.
pub open spec fn end_round_effect(r0: RoundView, r1: RoundView) -> bool {
    r1 == (RoundView {
        active: None::<EntityId>,
        taken: Set::<EntityId>::empty(),
        round_num: r0.round_num + 1,
        ..r0
    })
}

/// Finalizing `RecvTurn`: the referenced token (if any) becomes the active
/// entity and its movement budget refills from its speed.
pub open spec fn recv_turn_effect(
    who: EntityId,
    t0: Seq<Token>,
    t1: Seq<Token>,
    r0: RoundView,
    r1: RoundView,
) -> bool {
    if has_id(t0, who) {
        let i = idx_of(t0, who);
        &&& r1 == (RoundView { active: Some(who), ..r0 })
        &&& t1 == t0.update(
            i,
            (Token { movement_ft: t0[i].speed_ft, ..t0[i] }),
        )
    } else {
        r1 == r0 && t1 == t0
    }
}

/// The terminal effect of a popped command on the round state and the
/// token store.
pub open spec fn finish_effect(
    cmd: RoundCommand,
    g: Map<(int, int), GridCell>,
    r0: RoundView,
    t0: Seq<Token>,
    r1: RoundView,
    t1: Seq<Token>,
) -> bool {
    match cmd.variant {
        Variant::Nop => r1 == r0 && t1 == t0,
        Variant::MoveTo { who, to } => r1 == r0 && move_to_effect(
            g,
            who,
            to,
            t0,
            t1,
        ),
        Variant::MoveFar { who, to } => t1 == t0 && move_far_effect(
            g,
            who,
            to,
            t0,
            r0,
            r1,
        ),
        Variant::EndTurn { who } => t1 == t0 && end_turn_effect(who, r0, r1),
        Variant::RecvTurn { who } => recv_turn_effect(who, t0, t1, r0, r1),
        Variant::EndRound => t1 == t0 && end_round_effect(r0, r1),
    }
}

/// Finalize `MoveTo { who, to }`: re-plan from the token's current cell
/// with its remaining movement and, if a path exists and the step is
/// affordable and in bounds, commit the new position and pay one step.
#[verifier::rlimit(60)]
fn finish_move_to(who: EntityId, to: GridPos, tokens: &mut Tokens, grid: &Grid)
    requires
        grid.wf(),
        old(tokens).wf(),
    ensures
        final(tokens).wf(),
        move_to_effect(grid@, who, to, old(tokens)@, final(tokens)@),
{
    let ghost g = grid@;
    let ghost t0 = tokens@;
    match tokens.find(who) {
        None => {},
        Some(i) => {
            let tok = *tokens.at(i);
            proof {
                assert(tok.wf());
                assert(idx_of(t0, who) == i as int);
            }
            let path = get_path(tok.grid_pos, tok.movement_ft, to, grid);
            if path.len() > 0 {
                let rc = path[0];
                proof {
                    assert(rc.cost_ft == STEP_FT);
                }
                if rc.cost_ft <= tok.movement_ft && to.x >= -MAX_COORD && to.x
                    <= MAX_COORD && to.y >= -MAX_COORD && to.y <= MAX_COORD {
                    let moved = Token {
                        grid_pos: to,
                        movement_ft: tok.movement_ft - rc.cost_ft,
                        ..tok
                    };
                    tokens.set_at(i, moved);
                    proof {
                        assert(moved == apply_move_to(g, tok, to));
                        assert forall|j: int|
                            0 <= j < tokens@.len() implies (
                        #[trigger] tokens@[j]).wf() by {
                            if j != i as int {
                                assert(tokens@[j] == t0[j]);
                            }
                        }
                        assert forall|a: int, b: int|
                            0 <= a < b < tokens@.len() implies tokens@[a].id
                            != tokens@[b].id by {
                            assert(tokens@[a].id == t0[a].id);
                            assert(tokens@[b].id == t0[b].id);
                        }
                    }
                } else {
                    proof {
                        assert(!within_move_bounds(to));
                        assert(apply_move_to(g, tok, to) == tok);
                        assert(tokens@ =~= t0.update(i as int, tok));
                    }
                }
            } else {
                proof {
                    assert(to@ == tok.grid_pos@ || !reachable_within(
                        g,
                        tok.grid_pos@,
                        tok.movement_ft as int,
                        to@,
                    ));
                    assert(apply_move_to(g, tok, to) == tok);
                    assert(tokens@ =~= t0.update(i as int, tok));
                }
            }
        },
    }
}

/// Push one `MoveTo` per path step onto the front of the queue, in
/// reverse path order, so that they execute in path order.
fn push_steps(round: &mut Round, who: EntityId, path: &Vec<ReachableCell>)
    ensures
        final(round)@ == (RoundView {
            queue: move_cmds(who, path@) + old(round)@.queue,
            ..old(round)@
        }),
{
    let ghost r0 = round@;
    let n = path.len();
    let mut j: usize = n;
    proof {
        assert(move_cmds(who, path@.subrange(n as int, n as int)) + r0.queue
            =~= r0.queue);
        assert(round@ == (RoundView {
            queue: move_cmds(who, path@.subrange(j as int, n as int)) + r0.queue,
            ..r0
        }));
    }
    while j > 0
        invariant
            j <= n,
            n == path@.len(),
            round@ == (RoundView {
                queue: move_cmds(who, path@.subrange(j as int, n as int))
                    + r0.queue,
                ..r0
            }),
        decreases j,
    {
        j -= 1;
        let cmd = RoundCommand::move_to(who, path[j].to);
        round.push_front(cmd);
        proof {
            assert(seq![cmd] + (move_cmds(who, path@.subrange(j + 1, n as int))
                + r0.queue) =~= move_cmds(who, path@.subrange(j as int, n as int))
                + r0.queue);
        }
    }
    proof {
        assert(path@.subrange(0, n as int) =~= path@);
        assert(move_cmds(who, path@.subrange(0, n as int)) =~= move_cmds(
            who,
            path@,
        ));
        assert(round@ == (RoundView {
            queue: move_cmds(who, path@) + r0.queue,
            ..r0
        }));
    }
}

/// Finalize `MoveFar { who, to }`: expand a cheapest path to `to` into a
/// sequence of single-step `MoveTo` commands pushed onto the front of the
/// queue, to execute immediately next and in path order.
#[verifier::rlimit(60)]
fn finish_move_far(
    who: EntityId,
    to: GridPos,
    round: &mut Round,
    tokens: &Tokens,
    grid: &Grid,
)
    requires
        grid.wf(),
        tokens.wf(),
    ensures
        move_far_effect(grid@, who, to, tokens@, old(round)@, final(round)@),
{
    let ghost g = grid@;
    let ghost t0 = tokens@;
    let ghost r0 = round@;
    match tokens.find(who) {
        None => {},
        Some(i) => {
            let tok = *tokens.at(i);
            proof {
                assert(tok.wf());
                assert(idx_of(t0, who) == i as int);
            }
            let path = get_path(tok.grid_pos, tok.movement_ft, to, grid);
            if path.len() > 0 {
                push_steps(round, who, &path);
                proof {
                    let steps = path@;
                    assert(path_chain(
                        g,
                        tok.grid_pos@,
                        tok.movement_ft as int,
                        steps,
                    ) && steps.len() > 0 && steps.last().to@ == to@ && round@
                        == (RoundView {
                        queue: move_cmds(who, steps) + r0.queue,
                        ..r0
                    }));
                }
            }
        },
    }
}

/// Apply a popped command's terminal effect: commit logical state changes
/// and possibly push new commands onto the front of the queue.  A missing
/// entity makes the effect a silent no-op.
pub fn finish_round_command(
    command: RoundCommand,
    round: &mut Round,
    tokens: &mut Tokens,
    grid: &Grid,
)
    requires
        grid.wf(),
        old(tokens).wf(),
        old(round)@.round_num < u64::MAX,
    ensures
        final(tokens).wf(),
        finish_effect(
            command,
            grid@,
            old(round)@,
            old(tokens)@,
            final(round)@,
            final(tokens)@,
        ),
{
    let ghost g = grid@;
    let ghost t0 = tokens@;
    let ghost r0 = round@;
    match command.variant {
        Variant::Nop => {},
        Variant::MoveTo { who, to } => {
            finish_move_to(who, to, tokens, grid);
        },
        Variant::MoveFar { who, to } => {
            finish_move_far(who, to, round, tokens, grid);
        },
        Variant::EndTurn { who } => {
            let is_active = match round.active() {
                Some(e) => e == who,
                None => false,
            };
            if is_active {
                round.set_active(None);
                round.mark_taken(who);
            }
        },
        Variant::RecvTurn { who } => {
            match tokens.find(who) {
                None => {},
                Some(i) => {
                    proof {
                        assert(idx_of(t0, who) == i as int);
                    }
                    round.set_active(Some(who));
                    let tok = *tokens.at(i);
                    let refreshed = Token { movement_ft: tok.speed_ft, ..tok };
                    tokens.set_at(i, refreshed);
                    proof {
                        assert forall|jj: int|
                            0 <= jj < tokens@.len() implies (
                        #[trigger] tokens@[jj]).wf() by {
                            if jj != i as int {
                                assert(tokens@[jj] == t0[jj]);
                            }
                        }
                        assert forall|a: int, b: int|
                            0 <= a < b < tokens@.len() implies tokens@[a].id
                            != tokens@[b].id by {
                            assert(tokens@[a].id == t0[a].id);
                            assert(tokens@[b].id == t0[b].id);
                        }
                    }
                },
            }
        },
        Variant::EndRound => {
            round.clear_taken();
            round.set_active(None);
            round.bump_round();
        },
    }
}

/// One tick of command execution: add the frame's delta time to the front
/// command's elapsed time, clamped to its total duration.
pub fn update_round_command_system(round: &mut Round, delta_ms: u32)
    ensures
        old(round)@.queue.len() == 0 ==> final(round)@ == old(round)@,
        old(round)@.queue.len() > 0 ==> final(round)@ == (RoundView {
            queue: old(round)@.queue.update(
                0,
                crate::round::advance_cmd(
                    old(round)@.queue[0],
                    delta_ms as int,
                ),
            ),
            ..old(round)@
        }),
{
    round.advance_front(delta_ms);
}

/// One tick of command finalization: if the front command has run its full
/// duration, pop it and apply its terminal effect.
pub fn finish_round_command_system(
    round: &mut Round,
    tokens: &mut Tokens,
    grid: &Grid,
)
    requires
        grid.wf(),
        old(tokens).wf(),
        old(round)@.round_num < u64::MAX,
    ensures
        final(tokens).wf(),
        ({
            let q = old(round)@.queue;
            if q.len() == 0 || q[0].timer_elapsed_ms < q[0].timer_ms {
                final(round)@ == old(round)@ && final(tokens)@ == old(tokens)@
            } else {
                finish_effect(
                    q[0],
                    grid@,
                    (RoundView { queue: q.drop_first(), ..old(round)@ }),
                    old(tokens)@,
                    final(round)@,
                    final(tokens)@,
                )
            }
        }),
{
    let ready = match round.front() {
        None => false,
        Some(c) => c.timer_elapsed_ms >= c.timer_ms,
    };
    if !ready {
        return ;
    }
    match round.pop_front() {
        Some(command) => {
            finish_round_command(command, round, tokens, grid);
        },
        None => {
            proof {
                assert(false);
            }
        },
    }
}

/// Is `id` one of the listed entities?
fn id_in(v: &Vec<EntityId>, id: EntityId) -> (r: bool)
    ensures
        r == v@.contains(id),
{
    let n = v.len();
    let mut i: usize = 0;
    while i < n
        invariant
            n == v@.len(),
            i <= n,
            forall|j: int| 0 <= j < i ==> v@[j] != id,
        decreases n - i,
    {
        if v[i] == id {
            proof {
                assert(v@.contains(id));
            }
            return true;
        }
        i += 1;
    }
    proof {
        assert(!v@.contains(id));
    }
    false
}

/// Concatenation holds an element iff one of the parts does.
proof fn lemma_add_contains(a: Seq<EntityId>, b: Seq<EntityId>, x: EntityId)
    ensures
        (a + b).contains(x) <==> (a.contains(x) || b.contains(x)),
{
    if (a + b).contains(x) {
        let i = choose|i: int| 0 <= i < (a + b).len() && (a + b)[i] == x;
        if i < a.len() {
            assert(a[i] == x);
        } else {
            assert(b[i - a.len()] == x);
        }
    }
    if a.contains(x) {
        let i = choose|i: int| 0 <= i < a.len() && a[i] == x;
        assert((a + b)[i] == x);
    }
    if b.contains(x) {
        let i = choose|i: int| 0 <= i < b.len() && b[i] == x;
        assert((a + b)[a.len() + i] == x);
    }
}

/// A pushed sequence holds an element iff the original does or it is the
/// pushed one.
proof fn lemma_push_contains(s: Seq<EntityId>, x: EntityId, y: EntityId)
    ensures
        s.push(x).contains(y) <==> (s.contains(y) || y == x),
{
    if s.push(x).contains(y) {
        let i = choose|i: int| 0 <= i < s.push(x).len() && s.push(x)[i] == y;
        if i < s.len() {
            assert(s[i] == y);
        }
    }
    if s.contains(y) {
        let i = choose|i: int| 0 <= i < s.len() && s[i] == y;
        assert(s.push(x)[i] == y);
    }
    if y == x {
        assert(s.push(x).last() == y);
    }
}

/// Every element of a filtered sequence comes from the original sequence.
proof fn lemma_filter_elems(s: Seq<EntityId>, pred: spec_fn(EntityId) -> bool)
    ensures
        forall|i: int|
            0 <= i < s.filter(pred).len() ==> s.contains(
                #[trigger] s.filter(pred)[i],
            ),
    decreases s.len(),
{
    reveal(Seq::filter);
    if s.len() > 0 {
        let dl = s.drop_last();
        lemma_filter_elems(dl, pred);
        assert forall|i: int| 0 <= i < s.filter(pred).len() implies s.contains(
            #[trigger] s.filter(pred)[i],
        ) by {
            let x = s.filter(pred)[i];
            if pred(s.last()) && i == s.filter(pred).len() - 1 {
                assert(x == s.last());
                assert(s[s.len() - 1] == x);
            } else {
                assert(dl.filter(pred)[i] == x);
                assert(dl.contains(x));
                let j = choose|j: int| 0 <= j < dl.len() && dl[j] == x;
                assert(s[j] == x);
            }
        }
    }
}

/// Filtering with a predicate that every element satisfies keeps the
/// sequence unchanged.
proof fn lemma_filter_id(s: Seq<EntityId>, pred: spec_fn(EntityId) -> bool)
    requires
        forall|i: int| 0 <= i < s.len() ==> pred(#[trigger] s[i]),
    ensures
        s.filter(pred) == s,
    decreases s.len(),
{
    reveal(Seq::filter);
    if s.len() > 0 {
        let dl = s.drop_last();
        lemma_filter_id(dl, pred);
        assert(pred(s.last()));
        assert(s.filter(pred) =~= s);
    } else {
        assert(s.filter(pred) =~= s);
    }
}

/// The initiative order after pruning: the actors still present, in their
/// existing order.
pub open spec fn pruned_initiative(
    init: Seq<EntityId>,
    present: Seq<EntityId>,
) -> Seq<EntityId> {
    init.filter(|e: EntityId| present.contains(e))
}

/// The actors present in the world but not yet in the initiative order, in
/// world order.
pub open spec fn newly_seen(
    init: Seq<EntityId>,
    present: Seq<EntityId>,
) -> Seq<EntityId> {
    present.filter(|e: EntityId| !init.contains(e))
}

/// While no command is executing: append any actor not yet in the
/// initiative order (newly spawned actors join at the end and are marked
/// as having already acted, so they do not cut into the current round),
/// and prune actors no longer present, preserving the order of survivors.
#[verifier::rlimit(60)]
pub fn assign_initiative_system(round: &mut Round, present: &Vec<EntityId>)
    requires
        forall|i: int, j: int|
            0 <= i < j < present@.len() ==> present@[i] != present@[j],
    ensures
        old(round)@.queue.len() > 0 ==> final(round)@ == old(round)@,
        old(round)@.queue.len() == 0 ==> final(round)@ == (RoundView {
            initiative: pruned_initiative(old(round)@.initiative, present@)
                + newly_seen(old(round)@.initiative, present@),
            taken: old(round)@.taken.union(
                newly_seen(old(round)@.initiative, present@).to_set(),
            ),
            ..old(round)@
        }),
{
    if round.is_executing() {
        return ;
    }
    let ghost r0 = round@;
    let ghost init0 = r0.initiative;
    let ghost pres = present@;
    proof {
        reveal(Seq::filter);
        assert(pres.subrange(0, 0) =~= Seq::<EntityId>::empty());
        assert(newly_seen(init0, pres.subrange(0, 0)) =~= Seq::<
            EntityId,
        >::empty());
        assert(r0.taken.union(
            newly_seen(init0, pres.subrange(0, 0)).to_set(),
        ) =~= r0.taken);
    }
    let n = present.len();
    let mut i: usize = 0;
    while i < n
        invariant
            n == pres.len(),
            i <= n,
            pres == present@,
            forall|a: int, b: int| 0 <= a < b < pres.len() ==> pres[a] != pres[b],
            round@.queue == r0.queue,
            round@.active == r0.active,
            round@.round_num == r0.round_num,
            round@.initiative == init0 + newly_seen(
                init0,
                pres.subrange(0, i as int),
            ),
            round@.taken == r0.taken.union(
                newly_seen(init0, pres.subrange(0, i as int)).to_set(),
            ),
        decreases n - i,
    {
        let e = present[i];
        let ghost prefix = pres.subrange(0, i as int);
        let ghost ns_i = newly_seen(init0, prefix);
        let in_init = id_in(round.initiative(), e);
        proof {
            lemma_add_contains(init0, ns_i, e);
            if ns_i.contains(e) {
                lemma_filter_elems(prefix, |x: EntityId| !init0.contains(x));
                let j = choose|j: int| 0 <= j < ns_i.len() && ns_i[j] == e;
                assert(prefix.contains(ns_i[j]));
                let jj = choose|jj: int|
                    0 <= jj < prefix.len() && prefix[jj] == e;
                assert(pres[jj] == e && pres[i as int] == e && jj < i as int);
                assert(false);
            }
            assert(in_init == init0.contains(e));
            // one more present entity examined
            assert(pres.subrange(0, i + 1).drop_last() =~= prefix);
            assert(pres.subrange(0, i + 1).last() == e);
        }
        if !in_init {
            round.push_initiative(e);
            round.mark_taken(e);
            proof {
                reveal(Seq::filter);
                assert(newly_seen(init0, pres.subrange(0, i + 1)) =~= ns_i.push(
                    e,
                ));
                assert(round@.initiative =~= init0 + newly_seen(
                    init0,
                    pres.subrange(0, i + 1),
                ));
                assert forall|y: EntityId|
                    #[trigger] round@.taken.contains(y) <==> r0.taken.union(
                        newly_seen(init0, pres.subrange(0, i + 1)).to_set(),
                    ).contains(y) by {
                    lemma_push_contains(ns_i, e, y);
                }
                assert(round@.taken =~= r0.taken.union(
                    newly_seen(init0, pres.subrange(0, i + 1)).to_set(),
                ));
            }
        } else {
            proof {
                reveal(Seq::filter);
                assert(newly_seen(init0, pres.subrange(0, i + 1)) =~= ns_i);
                assert(round@.initiative =~= init0 + newly_seen(
                    init0,
                    pres.subrange(0, i + 1),
                ));
                assert(round@.taken =~= r0.taken.union(
                    newly_seen(init0, pres.subrange(0, i + 1)).to_set(),
                ));
            }
        }
        i += 1;
    }
    proof {
        assert(pres.subrange(0, n as int) =~= pres);
    }
    // prune actors that are no longer present, keeping relative order
    let ghost cur = round@.initiative;
    let m = round.initiative().len();
    let mut kept: Vec<EntityId> = Vec::new();
    let mut j: usize = 0;
    proof {
        assert(cur.subrange(0, 0) =~= Seq::<EntityId>::empty());
        assert(kept@ =~= pruned_initiative(cur.subrange(0, 0), pres));
    }
    while j < m
        invariant
            m == cur.len(),
            j <= m,
            pres == present@,
            round@.initiative == cur,
            kept@ == pruned_initiative(cur.subrange(0, j as int), pres),
        decreases m - j,
    {
        let e = round.initiative()[j];
        let keep = id_in(present, e);
        proof {
            reveal(Seq::filter);
            assert(cur.subrange(0, j + 1).drop_last() =~= cur.subrange(
                0,
                j as int,
            ));
            assert(cur.subrange(0, j + 1).last() == e);
        }
        if keep {
            kept.push(e);
        }
        proof {
            assert(kept@ =~= pruned_initiative(cur.subrange(0, j + 1), pres));
        }
        j += 1;
    }
    round.set_initiative(kept);
    proof {
        assert(cur.subrange(0, m as int) =~= cur);
        let ns = newly_seen(init0, pres);
        let pred = |e: EntityId| pres.contains(e);
        Seq::filter_distributes_over_add(init0, ns, pred);
        lemma_filter_elems(pres, |x: EntityId| !init0.contains(x));
        assert forall|ii: int| 0 <= ii < ns.len() implies pred(
            #[trigger] ns[ii],
        ) by {
            assert(pres.contains(ns[ii]));
        }
        lemma_filter_id(ns, pred);
        assert(pruned_initiative(cur, pres) == pruned_initiative(init0, pres)
            + ns);
    }
}

/// While no command is executing and no one holds the turn: hand the turn
/// to the first actor in initiative order that has not yet acted this
/// round (returning it, for the turn notification), or end the round if
/// all have acted.
pub fn assign_active_entity_system(round: &mut Round) -> (next: Option<
    EntityId,
>)
    ensures
        (old(round)@.queue.len() > 0 || old(round)@.active is Some)
            ==> final(round)@ == old(round)@ && next is None,
        (old(round)@.queue.len() == 0 && old(round)@.active is None) ==> ({
            let init = old(round)@.initiative;
            let taken = old(round)@.taken;
            if exists|i: int|
                0 <= i < init.len() && !taken.contains(#[trigger] init[i]) {
                exists|i: int|
                    #![auto]
                    0 <= i < init.len() && !taken.contains(init[i]) && (forall|
                        j: int,
                    | 0 <= j < i ==> taken.contains(init[j])) && next == Some(
                        init[i],
                    ) && final(round)@ == (RoundView {
                        queue: seq![spec_recv_turn(init[i])]
                            + old(round)@.queue,
                        ..old(round)@
                    })
            } else {
                next is None && final(round)@ == (RoundView {
                    queue: old(round)@.queue.push(spec_end_round()),
                    ..old(round)@
                })
            }
        }),
{
    if round.is_executing() {
        return None;
    }
    match round.active() {
        Some(_) => {
            return None;
        },
        None => {},
    }
    let n = round.initiative().len();
    let mut i: usize = 0;
    while i < n
        invariant
            n == round@.initiative.len(),
            i <= n,
            round@ == old(round)@,
            old(round)@.queue.len() == 0,
            old(round)@.active is None,
            forall|j: int|
                0 <= j < i ==> round@.taken.contains(
                    #[trigger] round@.initiative[j],
                ),
        decreases n - i,
    {
        let e = round.initiative()[i];
        if !round.has_taken(e) {
            round.push_front(RoundCommand::recv_turn(e));
            proof {
                let init = old(round)@.initiative;
                let taken = old(round)@.taken;
                assert((i as int) < init.len() && !taken.contains(
                    init[i as int],
                ) && (forall|j: int| 0 <= j < i as int ==> taken.contains(
                    init[j],
                )) && Some(e) == Some(init[i as int]) && round@ == (RoundView {
                    queue: seq![spec_recv_turn(init[i as int])] + old(
                        round,
                    )@.queue,
                    ..old(round)@
                }));
            }
            return Some(e);
        }
        i += 1;
    }
    round.push_back(RoundCommand::end_round());
    None
}

/// The chain shape that `MoveFar` expansion produces: each step's
/// destination is one legal move beyond the previous one (or beyond `p0`
/// for the first step).
pub open spec fn steps_chain(
    g: Map<(int, int), GridCell>,
    p0: (int, int),
    steps: Seq<ReachableCell>,
) -> bool {
    forall|i: int|
        0 <= i < steps.len() ==> step_ok(
            g,
            if i == 0 {
                p0
            } else {
                steps[i - 1].to@
            },
            (#[trigger] steps[i]).to@,
        )
}

/// The token state after finalizing, in order, one `MoveTo` per step of
/// the expansion: the fold of `apply_move_to` over the step destinations.
pub open spec fn exec_move_steps(
    g: Map<(int, int), GridCell>,
    t: Token,
    steps: Seq<ReachableCell>,
) -> Token
    decreases steps.len(),
{
    if steps.len() == 0 {
        t
    } else {
        exec_move_steps(
            g,
            apply_move_to(g, t, steps[0].to),
            steps.drop_first(),
        )
    }
}

proof fn lemma_steps_execute(
    g: Map<(int, int), GridCell>,
    t: Token,
    steps: Seq<ReachableCell>,
)
    requires
        steps_chain(g, t.grid_pos@, steps),
        STEP_FT * steps.len() <= t.movement_ft,
        t.grid_pos.x + steps.len() <= MAX_COORD,
        t.grid_pos.x - steps.len() >= -MAX_COORD,
        t.grid_pos.y + steps.len() <= MAX_COORD,
        t.grid_pos.y - steps.len() >= -MAX_COORD,
    ensures
        steps.len() > 0 ==> exec_move_steps(g, t, steps).grid_pos
            == steps.last().to,
        exec_move_steps(g, t, steps).movement_ft == t.movement_ft - STEP_FT
            * steps.len(),
        exec_move_steps(g, t, steps).id == t.id,
        exec_move_steps(g, t, steps).speed_ft == t.speed_ft,
        exec_move_steps(g, t, steps).player == t.player,
    decreases steps.len(),
{
    if steps.len() > 0 {
        let to = steps[0].to;
        assert(step_ok(g, t.grid_pos@, to@));
        assert(to@ != t.grid_pos@);
        assert(reach_in(g, t.grid_pos@, t.grid_pos@, 0nat));
        lemma_step_reach(g, t.grid_pos@, t.grid_pos@, to@, 0nat);
        assert(reach_in(g, t.grid_pos@, to@, (0 + 1) as nat));
        assert(reach_in(g, t.grid_pos@, to@, 1nat));
        assert(reachable_within(g, t.grid_pos@, t.movement_ft as int, to@));
        assert(-1 <= to@.0 - t.grid_pos@.0 <= 1 && -1 <= to@.1 - t.grid_pos@.1
            <= 1);
        assert(within_move_bounds(to));
        let t1 = apply_move_to(g, t, to);
        assert(t1.grid_pos == to);
        assert(t1.movement_ft == t.movement_ft - STEP_FT);
        let tail = steps.drop_first();
        assert(steps_chain(g, t1.grid_pos@, tail)) by {
            assert forall|i: int| 0 <= i < tail.len() implies step_ok(
                g,
                if i == 0 {
                    t1.grid_pos@
                } else {
                    tail[i - 1].to@
                },
                (#[trigger] tail[i]).to@,
            ) by {
                assert(tail[i] == steps[i + 1]);
                if i > 0 {
                    assert(tail[i - 1] == steps[i]);
                }
                assert(step_ok(
                    g,
                    if i + 1 == 0 {
                        t.grid_pos@
                    } else {
                        steps[i].to@
                    },
                    steps[i + 1].to@,
                ));
            }
        }
        lemma_steps_execute(g, t1, tail);
        if tail.len() > 0 {
            assert(tail.last() == steps.last());
        }
    }
}

/// The round trip of a long move: a `MoveFar` whose destination is
/// reachable expands into exactly the `MoveTo` steps of a cheapest path
/// (see `move_far_effect`), and finalizing those steps in order leaves the
/// actor at the destination, having paid the path's full cost.  The
/// position bound keeps every intermediate cell inside the movable box;
/// without it a path could cross the box edge and a step would degrade to
/// a no-op.
pub proof fn lemma_move_far_round_trip(
    g: Map<(int, int), GridCell>,
    t: Token,
    steps: Seq<ReachableCell>,
)
    requires
        steps.len() > 0,
        path_chain(g, t.grid_pos@, t.movement_ft as int, steps),
        -MAX_BUDGET_FT <= t.grid_pos.x <= MAX_BUDGET_FT,
        -MAX_BUDGET_FT <= t.grid_pos.y <= MAX_BUDGET_FT,
        t.movement_ft <= MAX_BUDGET_FT,
    ensures
        exec_move_steps(g, t, steps).grid_pos == steps.last().to,
        exec_move_steps(g, t, steps).movement_ft == t.movement_ft - STEP_FT
            * steps.len(),
        exec_move_steps(g, t, steps).id == t.id,
{
    assert(steps_chain(g, t.grid_pos@, steps)) by {
        assert forall|i: int| 0 <= i < steps.len() implies step_ok(
            g,
            if i == 0 {
                t.grid_pos@
            } else {
                steps[i - 1].to@
            },
            (#[trigger] steps[i]).to@,
        ) by {
            assert(steps[i].from@ == if i == 0 {
                t.grid_pos@
            } else {
                steps[i - 1].to@
            });
            assert(step_ok(g, steps[i].from@, steps[i].to@));
        }
    }
    assert(STEP_FT * steps.len() <= t.movement_ft);
    assert(steps.len() <= MAX_BUDGET_FT / STEP_FT);
    lemma_steps_execute(g, t, steps);
}

} // verus!
