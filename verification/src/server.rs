//! The session server core: the shared maze, the player roster, the
//! per-player state channels, and the global turn/treasure clock. One
//! instance exists per game; the surrounding process serializes calls into it
//! (one mutex around the whole core), so the turn counter is advanced by a
//! single writer and no update is lost.

use std::collections::HashMap;

use vstd::prelude::*;

use crate::errors::GameError;
use crate::maze::{mask_dims_ok, mask_view, masked_from, Maze};
use crate::state_channel::StateChannel;
use crate::treasure::{treasure_at, TreasureClock};

verus! {

broadcast use vstd::std_specs::hash::group_hash_axioms;

/// One player's server-side record: the identifier, the visibility mask the
/// player has earned, and the commitment binding the player's claimed
/// exploration state.
pub struct PlayerData {
    /// The player's identifier.
    pub id: usize,
    /// The player's visibility mask, maze-sized; true marks a revealed cell.
    pub exploration_mask: Vec<Vec<bool>>,
    /// A 32-byte hash binding the player's claimed exploration state.
    pub commitment: Vec<u8>,
}

/// The server core. All shared game state lives here exactly once.
pub struct Server {
    /// The shared maze, generated once and read-only afterwards.
    pub maze: Maze,
    /// The player roster.
    pub players: Vec<PlayerData>,
    /// The per-player state channels, keyed by player identifier.
    pub state_channels: HashMap<usize, StateChannel>,
    /// The single turn and treasure clock, shared by all sessions.
    pub clock: TreasureClock,
}

impl Server {
    /// The roster holds at most one record per identifier.
    pub open spec fn ids_unique(&self) -> bool {
        forall|i: int, j: int|
            0 <= i < self.players@.len() && 0 <= j < self.players@.len() && i != j ==> (
            #[trigger] self.players@[i]).id != (#[trigger] self.players@[j]).id
    }

    /// Some roster entry carries this identifier.
    pub open spec fn has_player(&self, id: usize) -> bool {
        exists|i: int| 0 <= i < self.players@.len() && (#[trigger] self.players@[i]).id == id
    }

    /// The roster index of the entry with this identifier.
    pub open spec fn player_index(&self, id: usize) -> int {
        choose|i: int| 0 <= i < self.players@.len() && (#[trigger] self.players@[i]).id == id
    }

    /// Structural well-formedness: a well-formed maze, a consistent clock,
    /// unique identifiers, and every stored mask maze-sized.
    pub open spec fn wf(&self) -> bool {
        &&& self.maze.wf()
        &&& self.maze.width >= 1
        &&& self.maze.height >= 1
        &&& self.clock.wf()
        &&& self.ids_unique()
        &&& forall|i: int|
            0 <= i < self.players@.len() ==> mask_dims_ok(
                mask_view((#[trigger] self.players@[i]).exploration_mask@),
                self.maze.width as int,
                self.maze.height as int,
            )
    }

    /// Start a game: generate the maze once, start the clock, no players yet.
    pub fn new(maze_width: usize, maze_height: usize, max_turns: u64, initial_treasure: u64) -> (s:
        Server)
        requires
            maze_width >= 1,
            maze_height >= 1,
        ensures
            s.wf(),
            s.maze.width == maze_width,
            s.maze.height == maze_height,
            forall|x: int, y: int| s.maze.in_grid(x, y) ==> (#[trigger] s.maze.cell(x, y)).visited,
            forall|x1: int, y1: int, x2: int, y2: int|
                s.maze.in_grid(x1, y1) && s.maze.in_grid(x2, y2) ==> s.maze.reaches(
                    x1,
                    y1,
                    x2,
                    y2,
                ),
            s.maze.open_pair_count() + 1 == maze_width * maze_height,
            s.players@.len() == 0,
            s.state_channels@ == Map::<usize, StateChannel>::empty(),
            s.clock.initial_treasure == initial_treasure,
            s.clock.max_turns == max_turns,
            s.clock.current_turn == 0,
    {
        let mut maze = Maze::new(maze_width, maze_height);
        maze.generate();
        Server {
            maze,
            players: Vec::new(),
            state_channels: HashMap::new(),
            clock: TreasureClock::new(initial_treasure, max_turns),
        }
    }

    /// Register a player: an all-hidden mask, an empty commitment, and a
    /// fresh state channel. Rejected with `ProtocolError` when the identifier
    /// is already taken.
    pub fn add_player(&mut self, player_id: usize, player_address: &str, server_address: &str) -> (r:
        Result<(), GameError>)
        requires
            old(self).wf(),
        ensures
            final (self).wf(),
            r is Ok <==> !old(self).has_player(player_id),
            r matches Err(e) ==> e == GameError::ProtocolError && *final (self) == *old(self),
            r is Ok ==> {
                &&& final (self).players@.len() == old(self).players@.len() + 1
                &&& forall|i: int|
                    0 <= i < old(self).players@.len() ==> #[trigger] final (self).players@[i]
                        == old(self).players@[i]
                &&& final (self).players@.last().id == player_id
                &&& final (self).players@.last().commitment@ == Seq::<u8>::empty()
                &&& forall|x: int, y: int|
                    0 <= x < old(self).maze.width && 0 <= y < old(self).maze.height ==> !mask_view(
                        (#[trigger] final (self).players@.last().exploration_mask)@,
                    )[x][y]
                &&& final (self).state_channels@ == old(self).state_channels@.insert(
                    player_id,
                    final (self).state_channels@[player_id],
                )
                &&& final (self).state_channels@[player_id].player_address@ == player_address@
                &&& final (self).state_channels@[player_id].server_address@ == server_address@
                &&& final (self).state_channels@[player_id].current_state.turn_number == 0
                &&& final (self).maze == old(self).maze
                &&& final (self).clock == old(self).clock
            },
    {
        let mut i: usize = 0;
        let n = self.players.len();
        while i < n
            invariant
                i <= n,
                n == self.players@.len(),
                *self == *old(self),
                self.wf(),
                forall|j: int| 0 <= j < i ==> (#[trigger] self.players@[j]).id != player_id,
            decreases n - i,
        {
            if self.players[i].id == player_id {
                return Err(GameError::ProtocolError);
            }
            i = i + 1;
        }
        let w = self.maze.width;
        let h = self.maze.height;
        let mut exploration_mask: Vec<Vec<bool>> = Vec::new();
        let mut x: usize = 0;
        while x < w
            invariant
                x <= w,
                exploration_mask@.len() == x,
                forall|i2: int| 0 <= i2 < x ==> (#[trigger] exploration_mask@[i2])@.len() == h,
                forall|i2: int, j2: int|
                    0 <= i2 < x && 0 <= j2 < h ==> !(#[trigger] exploration_mask@[i2]@[j2]),
            decreases w - x,
        {
            let mut row: Vec<bool> = Vec::new();
            let mut y: usize = 0;
            while y < h
                invariant
                    y <= h,
                    row@.len() == y,
                    forall|j2: int| 0 <= j2 < y ==> !(#[trigger] row@[j2]),
                decreases h - y,
            {
                row.push(false);
                y = y + 1;
            }
            exploration_mask.push(row);
            x = x + 1;
        }
        proof {
            assert forall|x2: int, y2: int|
                0 <= x2 < w as int && 0 <= y2 < h as int implies !mask_view(
                exploration_mask@,
            )[x2][y2] by {
                assert(mask_view(exploration_mask@)[x2] == exploration_mask@[x2]@);
            }
            assert(mask_dims_ok(mask_view(exploration_mask@), w as int, h as int)) by {
                assert forall|i2: int| 0 <= i2 < w as int implies (#[trigger] mask_view(
                    exploration_mask@,
                )[i2]).len() == h as int by {
                    assert(mask_view(exploration_mask@)[i2] == exploration_mask@[i2]@);
                }
            }
        }
        let player_data = PlayerData { id: player_id, exploration_mask, commitment: Vec::new() };
        self.players.push(player_data);
        self.state_channels.insert(player_id, StateChannel::new(player_address, server_address));
        Ok(())
    }

    /// The index of the roster entry with this identifier, if present.
    fn find_player(&self, id: usize) -> (r: Option<usize>)
        requires
            self.ids_unique(),
        ensures
            r matches Some(i) ==> i < self.players@.len() && self.players@[i as int].id == id
                && i as int == self.player_index(id),
            r is Some <==> self.has_player(id),
    {
        let mut i: usize = 0;
        let n = self.players.len();
        while i < n
            invariant
                i <= n,
                n == self.players@.len(),
                self.ids_unique(),
                forall|j: int| 0 <= j < i ==> (#[trigger] self.players@[j]).id != id,
            decreases n - i,
        {
            if self.players[i].id == id {
                proof {
                    let k = self.player_index(id);
                    assert(0 <= k < self.players@.len() && self.players@[k].id == id);
                }
                return Some(i);
            }
            i = i + 1;
        }
        None
    }

    /// Merge an inbound visibility mask into the player's stored one (turns
    /// may only add visibility, never remove it) and replace the commitment.
    /// Rejected with `ProtocolError` for an unknown identifier and with
    /// `DimensionMismatch` for a mask whose dimensions differ from the
    /// maze's; a rejected request changes nothing.
    pub fn update_player_exploration(&mut self, request: &PlayerData) -> (r: Result<
        (),
        GameError,
    >)
        requires
            old(self).wf(),
        ensures
            final (self).wf(),
            r is Ok <==> (old(self).has_player(request.id) && mask_dims_ok(
                mask_view(request.exploration_mask@),
                old(self).maze.width as int,
                old(self).maze.height as int,
            )),
            r matches Err(e) ==> {
                &&& *final (self) == *old(self)
                &&& (e == GameError::ProtocolError <==> !old(self).has_player(request.id))
                &&& (e == GameError::ProtocolError || e == GameError::DimensionMismatch)
            },
            r is Ok ==> {
                let i = old(self).player_index(request.id);
                &&& final (self).players@.len() == old(self).players@.len()
                &&& forall|j: int|
                    0 <= j < old(self).players@.len() && j != i
                        ==> #[trigger] final (self).players@[j] == old(self).players@[j]
                &&& final (self).players@[i].id == request.id
                &&& final (self).players@[i].commitment@ == request.commitment@
                &&& mask_merged(
                    mask_view(final (self).players@[i].exploration_mask@),
                    mask_view(old(self).players@[i].exploration_mask@),
                    mask_view(request.exploration_mask@),
                    old(self).maze.width as int,
                    old(self).maze.height as int,
                )
                &&& final (self).maze == old(self).maze
                &&& final (self).state_channels == old(self).state_channels
                &&& final (self).clock == old(self).clock
            },
    {
        let idx = match self.find_player(request.id) {
            None => {
                return Err(GameError::ProtocolError);
            },
            Some(i) => i,
        };
        let w = self.maze.width;
        let h = self.maze.height;
        if request.exploration_mask.len() != w {
            assert(mask_view(request.exploration_mask@).len() != w);
            return Err(GameError::DimensionMismatch);
        }
        let mut x: usize = 0;
        while x < w
            invariant
                x <= w,
                *self == *old(self),
                self.wf(),
                self.has_player(request.id),
                w == self.maze.width,
                h == self.maze.height,
                request.exploration_mask@.len() == w,
                forall|i2: int|
                    0 <= i2 < x ==> (#[trigger] request.exploration_mask@[i2])@.len() == h,
            decreases w - x,
        {
            if request.exploration_mask[x].len() != h {
                assert(mask_view(request.exploration_mask@)[x as int].len() != h);
                return Err(GameError::DimensionMismatch);
            }
            x = x + 1;
        }
        proof {
            assert forall|i2: int| 0 <= i2 < w as int implies (#[trigger] mask_view(
                request.exploration_mask@,
            )[i2]).len() == h as int by {
                assert(mask_view(request.exploration_mask@)[i2] == request.exploration_mask@[i2]@);
            }
        }
        let mut merged: Vec<Vec<bool>> = Vec::new();
        let mut x: usize = 0;
        while x < w
            invariant
                x <= w,
                idx < self.players@.len(),
                self.wf(),
                w == self.maze.width,
                h == self.maze.height,
                request.exploration_mask@.len() == w,
                forall|i2: int|
                    0 <= i2 < w as int ==> (#[trigger] request.exploration_mask@[i2])@.len() == h,
                merged@.len() == x,
                forall|i2: int| 0 <= i2 < x ==> (#[trigger] merged@[i2])@.len() == h,
                forall|i2: int, j2: int|
                    0 <= i2 < x && 0 <= j2 < h ==> #[trigger] merged@[i2]@[j2] == (self.players@[
                        idx as int
                    ].exploration_mask@[i2]@[j2] || request.exploration_mask@[i2]@[j2]),
            decreases w - x,
        {
            let mut row: Vec<bool> = Vec::new();
            let mut y: usize = 0;
            proof {
                assert(mask_view(self.players@[idx as int].exploration_mask@)[x as int]
                    == self.players@[idx as int].exploration_mask@[x as int]@);
            }
            while y < h
                invariant
                    y <= h,
                    x < w,
                    idx < self.players@.len(),
                    self.wf(),
                    w == self.maze.width,
                    h == self.maze.height,
                    request.exploration_mask@.len() == w,
                    forall|i2: int|
                        0 <= i2 < w as int ==> (#[trigger] request.exploration_mask@[i2])@.len()
                            == h,
                    self.players@[idx as int].exploration_mask@[x as int]@.len() == h,
                    row@.len() == y,
                    forall|j2: int|
                        0 <= j2 < y ==> #[trigger] row@[j2] == (self.players@[
                            idx as int
                        ].exploration_mask@[x as int]@[j2] || request.exploration_mask@[x as int]@[j2]),
                decreases h - y,
            {
                let v = self.players[idx].exploration_mask[x][y] || request.exploration_mask[x][y];
                row.push(v);
                y = y + 1;
            }
            merged.push(row);
            x = x + 1;
        }
        let ghost old_self = *self;
        let commitment_copy = vstd::slice::slice_to_vec(request.commitment.as_slice());
        self.players[idx].exploration_mask = merged;
        self.players[idx].commitment = commitment_copy;
        proof {
            let i = old_self.player_index(request.id);
            assert(old_self.players@[i].id == request.id);
            assert(i == idx as int);
            assert forall|x2: int, y2: int|
                0 <= x2 < w as int && 0 <= y2 < h as int implies #[trigger] mask_view(
                self.players@[i].exploration_mask@,
            )[x2][y2] == (mask_view(old_self.players@[i].exploration_mask@)[x2][y2] || mask_view(
                request.exploration_mask@,
            )[x2][y2]) by {
                assert(mask_view(self.players@[i].exploration_mask@)[x2]
                    == self.players@[i].exploration_mask@[x2]@);
                assert(mask_view(old_self.players@[i].exploration_mask@)[x2]
                    == old_self.players@[i].exploration_mask@[x2]@);
                assert(mask_view(request.exploration_mask@)[x2]
                    == request.exploration_mask@[x2]@);
            }
            assert forall|i2: int| 0 <= i2 < w as int implies (#[trigger] mask_view(
                self.players@[i].exploration_mask@,
            )[i2]).len() == h as int by {
                assert(mask_view(self.players@[i].exploration_mask@)[i2]
                    == self.players@[i].exploration_mask@[i2]@);
            }
            assert(self.wf());
        }
        Ok(())
    }

    /// The maze as this player may see it: the true cells where the stored
    /// mask is revealed, pristine cells elsewhere. Rejected with
    /// `ProtocolError` for an unknown identifier.
    pub fn get_player_view(&self, player_id: usize) -> (r: Result<Maze, GameError>)
        requires
            self.wf(),
        ensures
            r is Ok <==> self.has_player(player_id),
            r matches Ok(out) ==> masked_from(
                out,
                self.maze,
                mask_view(self.players@[self.player_index(player_id)].exploration_mask@),
            ),
            r matches Err(e) ==> e == GameError::ProtocolError,
    {
        let idx = match self.find_player(player_id) {
            None => {
                return Err(GameError::ProtocolError);
            },
            Some(i) => i,
        };
        match self.maze.get_masked_maze(&self.players[idx].exploration_mask) {
            Ok(out) => Ok(out),
            Err(_) => {
                proof {
                    assert(false);
                }
                Err(GameError::ProtocolError)
            },
        }
    }

    /// Recompute the treasure pool from the schedule at the current turn.
    pub fn update_treasure(&mut self)
        ensures
            final (self).maze == old(self).maze,
            final (self).players == old(self).players,
            final (self).state_channels == old(self).state_channels,
            final (self).clock.current_turn == old(self).clock.current_turn,
            final (self).clock.max_turns == old(self).clock.max_turns,
            final (self).clock.initial_treasure == old(self).clock.initial_treasure,
            final (self).clock.treasure == treasure_at(
                old(self).clock.initial_treasure,
                old(self).clock.max_turns,
                old(self).clock.current_turn,
            ),
    {
        self.clock.update_treasure();
    }

    /// One processing step of a session: merge the inbound mask and
    /// commitment, derive the player's masked view, advance the shared turn
    /// clock, and recompute the treasure. The second component of the result
    /// reports whether the game just reached its final turn. A rejected
    /// request changes nothing.
    pub fn process_request(&mut self, request: &PlayerData) -> (r: Result<(Maze, bool), GameError>)
        requires
            old(self).wf(),
            old(self).clock.current_turn < old(self).clock.max_turns,
        ensures
            final (self).wf(),
            r is Ok <==> (old(self).has_player(request.id) && mask_dims_ok(
                mask_view(request.exploration_mask@),
                old(self).maze.width as int,
                old(self).maze.height as int,
            )),
            r matches Err(e) ==> {
                &&& *final (self) == *old(self)
                &&& (e == GameError::ProtocolError || e == GameError::DimensionMismatch)
            },
            r matches Ok(out) ==> {
                let i = old(self).player_index(request.id);
                &&& final (self).maze == old(self).maze
                &&& final (self).state_channels == old(self).state_channels
                &&& final (self).players@.len() == old(self).players@.len()
                &&& final (self).players@[i].id == request.id
                &&& forall|j: int|
                    0 <= j < old(self).players@.len() && j != i
                        ==> #[trigger] final (self).players@[j] == old(self).players@[j]
                &&& final (self).players@[i].commitment@ == request.commitment@
                &&& mask_merged(
                    mask_view(final (self).players@[i].exploration_mask@),
                    mask_view(old(self).players@[i].exploration_mask@),
                    mask_view(request.exploration_mask@),
                    old(self).maze.width as int,
                    old(self).maze.height as int,
                )
                &&& masked_from(
                    out.0,
                    old(self).maze,
                    mask_view(final (self).players@[i].exploration_mask@),
                )
                &&& final (self).clock.current_turn == old(self).clock.current_turn + 1
                &&& final (self).clock.max_turns == old(self).clock.max_turns
                &&& final (self).clock.initial_treasure == old(self).clock.initial_treasure
                &&& final (self).clock.treasure == treasure_at(
                    old(self).clock.initial_treasure,
                    old(self).clock.max_turns,
                    (old(self).clock.current_turn + 1) as u64,
                )
                &&& out.1 == (old(self).clock.current_turn + 1 >= old(self).clock.max_turns)
            },
    {
        match self.update_player_exploration(request) {
            Err(e) => {
                return Err(e);
            },
            Ok(()) => {},
        }
        let ghost mid = *self;
        let view = match self.get_player_view(request.id) {
            Ok(v) => v,
            Err(_) => {
                proof {
                    assert(false);
                }
                return Err(GameError::ProtocolError);
            },
        };
        proof {
            let i_old = old(self).player_index(request.id);
            let i_mid = mid.player_index(request.id);
            assert(mid.players@[i_old].id == request.id);
            assert(i_mid == i_old);
        }
        self.clock.advance_turn();
        let over = self.clock.current_turn >= self.clock.max_turns;
        Ok((view, over))
    }
}

/// `new` is the pointwise disjunction of the stored mask and the inbound one.
pub open spec fn mask_merged(
    new: Seq<Seq<bool>>,
    stored: Seq<Seq<bool>>,
    inbound: Seq<Seq<bool>>,
    w: int,
    h: int,
) -> bool {
    &&& mask_dims_ok(new, w, h)
    &&& forall|x: int, y: int|
        0 <= x < w && 0 <= y < h ==> #[trigger] new[x][y] == (stored[x][y] || inbound[x][y])
}

/// Merging never removes visibility: a cell once revealed stays revealed.
pub proof fn lemma_reveal_monotonic(
    new: Seq<Seq<bool>>,
    stored: Seq<Seq<bool>>,
    inbound: Seq<Seq<bool>>,
    w: int,
    h: int,
)
    requires
        mask_merged(new, stored, inbound, w, h),
    ensures
        forall|x: int, y: int| 0 <= x < w && 0 <= y < h && stored[x][y] ==> #[trigger] new[x][y],
{
}

} // verus!
