//! Actors (tokens) and the store that owns them.
//!
//! Entities are referred to by opaque identifiers, never owned pointers: the
//! scheduler must tolerate a referenced entity disappearing between enqueue
//! and finalize, so every dereference is an existence check against this
//! store.

use vstd::prelude::*;

use crate::pos::{GridPos, MAX_BUDGET_FT, MAX_COORD};

verus! {

/// Opaque handle for a world entity.
#[derive(Clone, Copy, PartialEq, Eq, Structural, Debug, Hash)]
pub struct EntityId(pub u64);

/// An actor on the grid: a logical position, a movement budget consumed by
/// resolved moves, and the speed that refills that budget when the actor
/// receives a turn.
#[derive(Clone, Copy, PartialEq, Eq, Structural, Debug)]
pub struct Token {
    pub id: EntityId,
    pub grid_pos: GridPos,
    pub movement_ft: i32,
    pub speed_ft: i32,
    pub player: Option<EntityId>,
}

impl Token {
    /// Machine-limit bounds: coordinates and budgets stay small enough that
    /// planning and moving can never overflow an `i32`.
    pub open spec fn wf(self) -> bool {
        &&& -MAX_COORD <= self.grid_pos.x <= MAX_COORD
        &&& -MAX_COORD <= self.grid_pos.y <= MAX_COORD
        &&& 0 <= self.movement_ft <= MAX_BUDGET_FT
        &&& 0 <= self.speed_ft <= MAX_BUDGET_FT
    }
}

/// Is some token with this id present?
pub open spec fn has_id(s: Seq<Token>, id: EntityId) -> bool {
    exists|i: int| 0 <= i < s.len() && s[i].id == id
}

/// The index of the token with this id (meaningful only when `has_id`).
pub open spec fn idx_of(s: Seq<Token>, id: EntityId) -> int {
    choose|i: int| 0 <= i < s.len() && s[i].id == id
}

/// The store of live actors, keyed by id.
pub struct Tokens {
    items: Vec<Token>,
}

impl View for Tokens {
    type V = Seq<Token>;

    closed spec fn view(&self) -> Seq<Token> {
        self.items@
    }
}

impl Tokens {
    /// Ids are unique and every token obeys its machine-limit bounds.
    pub open spec fn wf(self) -> bool {
        &&& forall|i: int, j: int|
            0 <= i < j < self@.len() ==> self@[i].id != self@[j].id
        &&& forall|i: int| 0 <= i < self@.len() ==> (#[trigger] self@[i]).wf()
    }

    pub fn new() -> (r: Tokens)
        ensures
            r@ =~= Seq::<Token>::empty(),
            r.wf(),
    {
        Tokens { items: Vec::new() }
    }

    pub fn len(&self) -> (n: usize)
        ensures
            n == self@.len(),
    {
        self.items.len()
    }

    pub fn at(&self, i: usize) -> (t: &Token)
        requires
            i < self@.len(),
        ensures
            *t == self@[i as int],
    {
        &self.items[i]
    }

    /// Replace the token at `i`, keeping its id (so ids stay unique).
    pub fn set_at(&mut self, i: usize, t: Token)
        requires
            i < old(self)@.len(),
            t.id == old(self)@[i as int].id,
        ensures
            final(self)@ == old(self)@.update(i as int, t),
    {
        self.items.set(i, t);
    }

    /// Add a new actor; the id must not already be present.
    pub fn spawn(&mut self, t: Token)
        requires
            old(self).wf(),
            t.wf(),
            !has_id(old(self)@, t.id),
        ensures
            final(self)@ == old(self)@.push(t),
            final(self).wf(),
    {
        self.items.push(t);
    }

    /// Remove the actor with this id, if present, preserving the order of
    /// the survivors.
    pub fn despawn(&mut self, id: EntityId)
        requires
            old(self).wf(),
        ensures
            final(self).wf(),
            !has_id(final(self)@, id),
            final(self)@ == if has_id(old(self)@, id) {
                old(self)@.remove(idx_of(old(self)@, id))
            } else {
                old(self)@
            },
    {
        let ghost s0 = self@;
        match self.find(id) {
            Some(i) => {
                proof {
                    let k = idx_of(s0, id);
                    assert(0 <= k < s0.len() && s0[k].id == id);
                    // ids are unique, so the found index is the chosen one
                    assert(k == i as int);
                }
                self.items.remove(i);
                proof {
                    let s1 = self@;
                    assert forall|a: int, b: int|
                        0 <= a < b < s1.len() implies s1[a].id != s1[b].id by {
                        assert(s1[a] == if a < i as int {
                            s0[a]
                        } else {
                            s0[a + 1]
                        });
                        assert(s1[b] == if b < i as int {
                            s0[b]
                        } else {
                            s0[b + 1]
                        });
                    }
                    assert forall|a: int| 0 <= a < s1.len() implies (
                    #[trigger] s1[a]).wf() by {
                        assert(s1[a] == if a < i as int {
                            s0[a]
                        } else {
                            s0[a + 1]
                        });
                    }
                    assert forall|a: int|
                        0 <= a < s1.len() implies (#[trigger] s1[a]).id != id by {
                        assert(s1[a] == if a < i as int {
                            s0[a]
                        } else {
                            s0[a + 1]
                        });
                    }
                }
            },
            None => {},
        }
    }

    /// Find the index of the token with this id.
    pub fn find(&self, id: EntityId) -> (r: Option<usize>)
        ensures
            match r {
                Some(i) => i < self@.len() && self@[i as int].id == id && has_id(
                    self@,
                    id,
                ),
                None => !has_id(self@, id),
            },
    {
        let mut i: usize = 0;
        while i < self.items.len()
            invariant
                i <= self@.len(),
                forall|j: int| 0 <= j < i ==> self@[j].id != id,
            decreases self@.len() - i,
        {
            if self.items[i].id == id {
                return Some(i);
            }
            i += 1;
        }
        None
    }

    /// The ids of all live actors, in store order.
    pub fn ids(&self) -> (r: Vec<EntityId>)
        ensures
            r@.len() == self@.len(),
            forall|i: int| 0 <= i < self@.len() ==> r@[i] == self@[i].id,
    {
        let mut out: Vec<EntityId> = Vec::new();
        let mut i: usize = 0;
        while i < self.items.len()
            invariant
                i <= self@.len(),
                out@.len() == i,
                forall|j: int| 0 <= j < i ==> out@[j] == self@[j].id,
            decreases self@.len() - i,
        {
            out.push(self.items[i].id);
            i += 1;
        }
        out
    }
}

} // verus!
