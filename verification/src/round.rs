//! Round state and timed commands.
//!
//! A round holds an ordered queue of pending commands (front = currently
//! executing), the active-turn holder, the initiative order, and per-round
//! "has acted" bookkeeping.  Each command is a tagged variant with a total
//! duration and the time elapsed so far; only the front command ever ticks.

use vstd::prelude::*;

use std::collections::VecDeque;

use crate::pos::GridPos;
use crate::token::EntityId;

verus! {

/// Duration of a `Nop` command, in milliseconds.
pub const NOP_MS: u32 = 500;

/// Duration of a single-step `MoveTo` command, in milliseconds.
pub const MOVE_TO_MS: u32 = 200;

/// Duration of a `RecvTurn` command, in milliseconds.
pub const RECV_TURN_MS: u32 = 250;

/// Duration of an `EndRound` command, in milliseconds.
pub const END_ROUND_MS: u32 = 250;

/// The closed set of command kinds the scheduler executes.
#[derive(Clone, Copy, PartialEq, Eq, Structural, Debug)]
pub enum Variant {
    Nop,
    MoveTo { who: EntityId, to: GridPos },
    MoveFar { who: EntityId, to: GridPos },
    EndTurn { who: EntityId },
    RecvTurn { who: EntityId },
    EndRound,
}

/// A queued, timed action: interpolated over its duration each tick and
/// finalized once its elapsed time reaches its total duration.
#[derive(Clone, Copy, PartialEq, Eq, Structural, Debug)]
pub struct RoundCommand {
    /// Total duration, in milliseconds.
    pub timer_ms: u32,
    /// Time elapsed so far, monotonically increased and clamped to
    /// `timer_ms`.
    pub timer_elapsed_ms: u32,
    /// Reserved; does not affect ordering.
    pub parallel: bool,
    pub variant: Variant,
}

impl Default for Variant {
    fn default() -> (v: Variant)
        ensures
            v == Variant::Nop,
    {
        Variant::Nop
    }
}

impl Default for RoundCommand {
    fn default() -> (c: RoundCommand)
        ensures
            c == (RoundCommand {
                timer_ms: 0,
                timer_elapsed_ms: 0,
                parallel: false,
                variant: Variant::Nop,
            }),
    {
        RoundCommand {
            timer_ms: 0,
            timer_elapsed_ms: 0,
            parallel: false,
            variant: Variant::Nop,
        }
    }
}

impl RoundCommand {
    pub fn nop() -> (c: RoundCommand)
        ensures
            c == (RoundCommand {
                timer_ms: NOP_MS,
                timer_elapsed_ms: 0,
                parallel: false,
                variant: Variant::Nop,
            }),
    {
        RoundCommand {
            timer_ms: NOP_MS,
            timer_elapsed_ms: 0,
            parallel: false,
            variant: Variant::Nop,
        }
    }

    pub fn move_to(who: EntityId, to: GridPos) -> (c: RoundCommand)
        ensures
            c == spec_move_to(who, to),
    {
        RoundCommand {
            timer_ms: MOVE_TO_MS,
            timer_elapsed_ms: 0,
            parallel: false,
            variant: Variant::MoveTo { who, to },
        }
    }

    pub fn move_far(who: EntityId, to: GridPos) -> (c: RoundCommand)
        ensures
            c == (RoundCommand {
                timer_ms: 0,
                timer_elapsed_ms: 0,
                parallel: false,
                variant: Variant::MoveFar { who, to },
            }),
    {
        RoundCommand {
            timer_ms: 0,
            timer_elapsed_ms: 0,
            parallel: false,
            variant: Variant::MoveFar { who, to },
        }
    }

    pub fn end_turn(who: EntityId) -> (c: RoundCommand)
        ensures
            c == (RoundCommand {
                timer_ms: 0,
                timer_elapsed_ms: 0,
                parallel: false,
                variant: Variant::EndTurn { who },
            }),
    {
        RoundCommand {
            timer_ms: 0,
            timer_elapsed_ms: 0,
            parallel: false,
            variant: Variant::EndTurn { who },
        }
    }

    pub fn recv_turn(who: EntityId) -> (c: RoundCommand)
        ensures
            c == spec_recv_turn(who),
    {
        RoundCommand {
            timer_ms: RECV_TURN_MS,
            timer_elapsed_ms: 0,
            parallel: false,
            variant: Variant::RecvTurn { who },
        }
    }

    pub fn end_round() -> (c: RoundCommand)
        ensures
            c == spec_end_round(),
    {
        RoundCommand {
            timer_ms: END_ROUND_MS,
            timer_elapsed_ms: 0,
            parallel: false,
            variant: Variant::EndRound,
        }
    }

    /// Progress through the command's duration, in thousandths, clamped
    /// symmetrically into [0, 1000].  A zero-duration command is complete
    /// at once.
    pub fn alpha_permille(&self) -> (a: u32)
        ensures
            a == spec_alpha_permille(*self),
            a <= 1000,
    {
        if self.timer_ms == 0 {
            return 1000;
        }
        let e: u64 = if self.timer_elapsed_ms < self.timer_ms {
            self.timer_elapsed_ms as u64
        } else {
            self.timer_ms as u64
        };
        let t: u64 = self.timer_ms as u64;
        proof {
            assert(e * 1000 <= t * 1000);
            vstd::arithmetic::div_mod::lemma_div_is_ordered(
                e as int * 1000,
                t as int * 1000,
                t as int,
            );
            vstd::arithmetic::div_mod::lemma_div_multiples_vanish(
                1000,
                t as int,
            );
            assert((t as int * 1000) / (t as int) == 1000);
        }
        ((e * 1000) / t) as u32
    }
}

/// The `MoveTo` command the scheduler enqueues for one path step.
pub open spec fn spec_move_to(who: EntityId, to: GridPos) -> RoundCommand {
    RoundCommand {
        timer_ms: MOVE_TO_MS,
        timer_elapsed_ms: 0,
        parallel: false,
        variant: Variant::MoveTo { who, to },
    }
}

/// The `RecvTurn` command the scheduler enqueues for the next actor.
pub open spec fn spec_recv_turn(who: EntityId) -> RoundCommand {
    RoundCommand {
        timer_ms: RECV_TURN_MS,
        timer_elapsed_ms: 0,
        parallel: false,
        variant: Variant::RecvTurn { who },
    }
}

/// The `EndRound` command the scheduler enqueues when all actors acted.
pub open spec fn spec_end_round() -> RoundCommand {
    RoundCommand {
        timer_ms: END_ROUND_MS,
        timer_elapsed_ms: 0,
        parallel: false,
        variant: Variant::EndRound,
    }
}

/// Progress in thousandths: elapsed over total, clamped into [0, 1000].
pub open spec fn spec_alpha_permille(c: RoundCommand) -> int {
    if c.timer_ms == 0 {
        1000
    } else {
        (min_int(c.timer_elapsed_ms as int, c.timer_ms as int) * 1000)
            / c.timer_ms as int
    }
}

/// The smaller of two integers.
pub open spec fn min_int(a: int, b: int) -> int {
    if a < b {
        a
    } else {
        b
    }
}

/// The ghost value of a `Round`: its queue, turn ownership, initiative
/// order, the set of actors that already acted this round, and the round
/// counter.
pub ghost struct RoundView {
    pub queue: Seq<RoundCommand>,
    pub active: Option<EntityId>,
    pub initiative: Seq<EntityId>,
    pub taken: Set<EntityId>,
    pub round_num: int,
}

/// The round state: the pending command queue (front = currently
/// executing), the active-turn holder, the initiative order, the per-round
/// "has acted" set, and the round counter.
pub struct Round {
    commands: VecDeque<RoundCommand>,
    pub active_entity: Option<EntityId>,
    pub initiative_order: Vec<EntityId>,
    pub has_taken_turn: Vec<EntityId>,
    pub round_num: u64,
}

impl View for Round {
    type V = RoundView;

    closed spec fn view(&self) -> RoundView {
        RoundView {
            queue: self.commands@,
            active: self.active_entity,
            initiative: self.initiative_order@,
            taken: self.has_taken_turn@.to_set(),
            round_num: self.round_num as int,
        }
    }
}

impl Round {
    pub fn new() -> (r: Round)
        ensures
            r@.queue =~= Seq::<RoundCommand>::empty(),
            r@.active is None,
            r@.initiative =~= Seq::<EntityId>::empty(),
            r@.taken =~= Set::<EntityId>::empty(),
            r@.round_num == 0,
    {
        let r = Round {
            commands: VecDeque::new(),
            active_entity: None,
            initiative_order: Vec::new(),
            has_taken_turn: Vec::new(),
            round_num: 0,
        };
        proof {
            assert forall|e: EntityId| !(#[trigger] r@.taken.contains(e)) by {
                assert(!r.has_taken_turn@.contains(e));
            }
        }
        r
    }

    /// Enqueue a command to execute next, before everything already queued.
    pub fn push_front(&mut self, command: RoundCommand)
        ensures
            final(self)@ == (RoundView {
                queue: seq![command] + old(self)@.queue,
                ..old(self)@
            }),
    {
        self.commands.push_front(command);
    }

    /// Enqueue a command after everything already queued.
    pub fn push_back(&mut self, command: RoundCommand)
        ensures
            final(self)@ == (RoundView {
                queue: old(self)@.queue.push(command),
                ..old(self)@
            }),
    {
        self.commands.push_back(command);
    }

    /// Remove and return the front (currently executing) command.
    pub fn pop_front(&mut self) -> (c: Option<RoundCommand>)
        ensures
            old(self)@.queue.len() == 0 ==> c is None && final(self)@ == old(
                self,
            )@,
            old(self)@.queue.len() > 0 ==> c == Some(old(self)@.queue[0])
                && final(self)@ == (RoundView {
                queue: old(self)@.queue.drop_first(),
                ..old(self)@
            }),
    {
        let c = self.commands.pop_front();
        proof {
            if old(self).commands@.len() > 0 {
                assert(self.commands@ =~= old(self).commands@.drop_first());
            }
        }
        c
    }

    /// The front (currently executing) command, if any.
    pub fn front(&self) -> (c: Option<&RoundCommand>)
        ensures
            self@.queue.len() == 0 ==> c is None,
            self@.queue.len() > 0 ==> match c {
                Some(cmd) => *cmd == self@.queue[0],
                None => false,
            },
    {
        if self.commands.len() == 0 {
            None
        } else {
            Some(&self.commands[0])
        }
    }

    /// Advance the front command's elapsed time by `delta_ms`, clamped to
    /// its total duration.  A no-op on an empty queue.
    pub fn advance_front(&mut self, delta_ms: u32)
        ensures
            old(self)@.queue.len() == 0 ==> final(self)@ == old(self)@,
            old(self)@.queue.len() > 0 ==> final(self)@ == (RoundView {
                queue: old(self)@.queue.update(
                    0,
                    advance_cmd(old(self)@.queue[0], delta_ms as int),
                ),
                ..old(self)@
            }),
    {
        match self.commands.pop_front() {
            None => {},
            Some(mut c) => {
                c.timer_elapsed_ms = match c.timer_elapsed_ms.checked_add(
                    delta_ms,
                ) {
                    Some(sum) => if sum < c.timer_ms {
                        sum
                    } else {
                        c.timer_ms
                    },
                    None => c.timer_ms,
                };
                self.commands.push_front(c);
                proof {
                    assert(self.commands@ =~= old(self).commands@.update(
                        0,
                        c,
                    ));
                }
            },
        }
    }

    /// How many commands are pending (including the executing one).
    pub fn queue_len(&self) -> (n: usize)
        ensures
            n == self@.queue.len(),
    {
        self.commands.len()
    }

    /// Is some command pending or executing?
    pub fn is_executing(&self) -> (r: bool)
        ensures
            r == (self@.queue.len() > 0),
    {
        self.commands.len() != 0
    }

    /// Record that `who` has acted this round.
    pub fn mark_taken(&mut self, who: EntityId)
        ensures
            final(self)@ == (RoundView {
                taken: old(self)@.taken.insert(who),
                ..old(self)@
            }),
    {
        let ghost v0 = self.has_taken_turn@;
        let mut i: usize = 0;
        let n = self.has_taken_turn.len();
        while i < n
            invariant
                n == self.has_taken_turn@.len(),
                i <= n,
                self.has_taken_turn@ == v0,
                forall|j: int| 0 <= j < i ==> v0[j] != who,
            decreases n - i,
        {
            if self.has_taken_turn[i] == who {
                proof {
                    assert(v0.contains(who));
                    assert(self@.taken =~= old(self)@.taken.insert(who));
                }
                return ;
            }
            i += 1;
        }
        self.has_taken_turn.push(who);
        proof {
            let v1 = self.has_taken_turn@;
            assert forall|e: EntityId| #[trigger] v1.contains(
                e,
            ) implies v0.contains(e) || e == who by {
                let j = choose|j: int| 0 <= j < v1.len() && v1[j] == e;
                if j < v0.len() {
                    assert(v0[j] == e);
                }
            }
            assert forall|e: EntityId|
                v0.contains(e) || e == who implies #[trigger] v1.contains(
                e,
            ) by {
                if e == who {
                    assert(v1.last() == e);
                } else {
                    let j = choose|j: int| 0 <= j < v0.len() && v0[j] == e;
                    assert(v1[j] == e);
                }
            }
            assert(self@.taken =~= old(self)@.taken.insert(who));
        }
    }

    /// Has `who` acted this round?
    pub fn has_taken(&self, who: EntityId) -> (r: bool)
        ensures
            r == self@.taken.contains(who),
    {
        let n = self.has_taken_turn.len();
        let mut i: usize = 0;
        while i < n
            invariant
                n == self.has_taken_turn@.len(),
                i <= n,
                forall|j: int| 0 <= j < i ==> self.has_taken_turn@[j] != who,
            decreases n - i,
        {
            if self.has_taken_turn[i] == who {
                proof {
                    assert(self.has_taken_turn@.contains(who));
                }
                return true;
            }
            i += 1;
        }
        proof {
            assert(!self.has_taken_turn@.contains(who));
        }
        false
    }

    /// The entity whose turn it currently is, if any.
    pub fn active(&self) -> (r: Option<EntityId>)
        ensures
            r == self@.active,
    {
        self.active_entity
    }

    /// Hand the turn to `a` (or to no one).
    pub fn set_active(&mut self, a: Option<EntityId>)
        ensures
            final(self)@ == (RoundView { active: a, ..old(self)@ }),
    {
        self.active_entity = a;
    }

    /// The monotonically increasing round counter.
    pub fn round_number(&self) -> (r: u64)
        ensures
            r == self@.round_num,
    {
        self.round_num
    }

    /// Count a finished round.
    pub fn bump_round(&mut self)
        requires
            old(self)@.round_num < u64::MAX,
        ensures
            final(self)@ == (RoundView {
                round_num: old(self)@.round_num + 1,
                ..old(self)@
            }),
    {
        self.round_num = self.round_num + 1;
    }

    /// The initiative order: insertion order is turn order.
    pub fn initiative(&self) -> (r: &Vec<EntityId>)
        ensures
            r@ == self@.initiative,
    {
        &self.initiative_order
    }

    /// Append a newly seen actor at the end of the initiative order.
    pub fn push_initiative(&mut self, e: EntityId)
        ensures
            final(self)@ == (RoundView {
                initiative: old(self)@.initiative.push(e),
                ..old(self)@
            }),
    {
        self.initiative_order.push(e);
    }

    /// Replace the initiative order (pruning removed actors).
    pub fn set_initiative(&mut self, v: Vec<EntityId>)
        ensures
            final(self)@ == (RoundView { initiative: v@, ..old(self)@ }),
    {
        self.initiative_order = v;
    }

    /// Forget who has acted (the round is over).
    pub fn clear_taken(&mut self)
        ensures
            final(self)@ == (RoundView {
                taken: Set::<EntityId>::empty(),
                ..old(self)@
            }),
    {
        self.has_taken_turn.clear();
        proof {
            assert(self@.taken =~= Set::<EntityId>::empty());
        }
    }
}

/// The front command after a tick of `delta_ms`: elapsed time grows and is
/// clamped to the total duration.
pub open spec fn advance_cmd(c: RoundCommand, delta_ms: int) -> RoundCommand {
    RoundCommand {
        timer_elapsed_ms: min_int(
            c.timer_elapsed_ms + delta_ms,
            c.timer_ms as int,
        ) as u32,
        ..c
    }
}

} // verus!
