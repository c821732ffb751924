//! The treasure clock: a deterministic schedule that decays the shared prize
//! pool once the game passes its halfway turn. Amounts are fixed-point with
//! one decimal place (a value of 10 stands for one whole unit).

use vstd::prelude::*;

verus! {

/// The prize pool at a given turn, in tenths of a unit: the initial pool up
/// to the halfway turn, then one tenth less per further turn, clamped at zero
/// (the pool never goes negative).
pub open spec fn treasure_at(initial: u64, max_turns: u64, turn: u64) -> u64 {
    let half = max_turns / 2;
    if turn > half {
        if turn - half >= initial {
            0u64
        } else {
            (initial - (turn - half)) as u64
        }
    } else {
        initial
    }
}

/// The shared turn and prize-pool clock, owned by the session server, the
/// single writer.
pub struct TreasureClock {
    /// The pool the game starts with, in tenths of a unit.
    pub initial_treasure: u64,
    /// The turn at which the game ends.
    pub max_turns: u64,
    /// The current global turn.
    pub current_turn: u64,
    /// The current pool, in tenths of a unit.
    pub treasure: u64,
}

impl TreasureClock {
    /// The pool always equals the schedule at the current turn, and the clock
    /// never runs past the final turn.
    pub open spec fn wf(&self) -> bool {
        &&& self.treasure == treasure_at(self.initial_treasure, self.max_turns, self.current_turn)
        &&& self.current_turn <= self.max_turns
    }

    pub fn new(initial_treasure: u64, max_turns: u64) -> (c: TreasureClock)
        ensures
            c.initial_treasure == initial_treasure,
            c.max_turns == max_turns,
            c.current_turn == 0,
            c.wf(),
    {
        TreasureClock { initial_treasure, max_turns, current_turn: 0, treasure: initial_treasure }
    }

    /// Recompute the pool from the schedule at the current turn.
    pub fn update_treasure(&mut self)
        ensures
            final (self).initial_treasure == old(self).initial_treasure,
            final (self).max_turns == old(self).max_turns,
            final (self).current_turn == old(self).current_turn,
            final (self).treasure == treasure_at(
                old(self).initial_treasure,
                old(self).max_turns,
                old(self).current_turn,
            ),
    {
        let half = self.max_turns / 2;
        if self.current_turn > half {
            let decay = self.current_turn - half;
            if decay >= self.initial_treasure {
                self.treasure = 0;
            } else {
                self.treasure = self.initial_treasure - decay;
            }
        } else {
            self.treasure = self.initial_treasure;
        }
    }

    /// Advance the clock by exactly one accepted turn and recompute the pool.
    pub fn advance_turn(&mut self)
        requires
            old(self).current_turn < old(self).max_turns,
        ensures
            final (self).initial_treasure == old(self).initial_treasure,
            final (self).max_turns == old(self).max_turns,
            final (self).current_turn == old(self).current_turn + 1,
            final (self).wf(),
    {
        self.current_turn = self.current_turn + 1;
        self.update_treasure();
    }

    /// The current pool, in tenths of a unit.
    pub fn treasure(&self) -> (r: u64)
        ensures
            r == self.treasure,
    {
        self.treasure
    }
}

} // verus!
