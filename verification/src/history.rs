//! A bounded append/pop log of auxiliary-state snapshots, used to restore
//! a position after a trial mutation is undone.

use vstd::prelude::*;
use crate::state::GameState;
use crate::types::MAX_GAME_MOVES;

verus! {

/// The history stack of auxiliary-state snapshots, capped at
/// `MAX_GAME_MOVES` entries.
pub struct GameHistory {
    moves: Vec<GameState>,
}

impl GameHistory {
    /// The snapshots pushed so far, oldest first.
    pub closed spec fn snapshots(self) -> Seq<GameState> {
        self.moves@
    }

    /// An empty history.
    pub fn new() -> (h: GameHistory)
        ensures
            h.snapshots() == Seq::<GameState>::empty(),
    {
        GameHistory { moves: Vec::new() }
    }

    /// Pop the newest snapshot; `None` exactly when the history is empty.
    pub fn pop(&mut self) -> (r: Option<GameState>)
        ensures
            old(self).snapshots().len() == 0 ==> r is None && final(self).snapshots() == old(
                self,
            ).snapshots(),
            old(self).snapshots().len() > 0 ==> r == Some(old(self).snapshots().last())
                && final(self).snapshots() == old(self).snapshots().drop_last(),
    {
        self.moves.pop()
    }

    /// Append a snapshot.  Pushing beyond the capacity is a caller error,
    /// ruled out here rather than handled at run time.
    pub fn push(&mut self, game_state: GameState)
        requires
            old(self).snapshots().len() < MAX_GAME_MOVES,
        ensures
            final(self).snapshots() == old(self).snapshots().push(game_state),
    {
        self.moves.push(game_state);
    }

    /// Read the snapshot at `index` without removing it.
    pub fn get(&self, index: usize) -> (s: &GameState)
        requires
            index < self.snapshots().len(),
        ensures
            *s == self.snapshots()[index as int],
    {
        &self.moves[index]
    }

    /// How many snapshots the history holds.
    pub fn len(&self) -> (n: usize)
        ensures
            n == self.snapshots().len(),
    {
        self.moves.len()
    }

    /// Drop every snapshot.
    pub fn clear(&mut self)
        ensures
            final(self).snapshots() == Seq::<GameState>::empty(),
    {
        self.moves.clear();
        proof {
            assert(self.snapshots() =~= Seq::<GameState>::empty());
        }
    }
}

/// The history round trip: a pop straight after a push hands back exactly
/// the pushed snapshot and leaves the history as it was before the push,
/// whatever was done to the position's own auxiliary fields in between.
pub proof fn lemma_push_pop_round_trip(h: Seq<GameState>, s: GameState)
    ensures
        h.push(s).len() > 0,
        h.push(s).last() == s,
        h.push(s).drop_last() == h,
{
    assert(h.push(s).drop_last() =~= h);
}

} // verus!
