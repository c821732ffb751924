//! The player-side client core: the exploration mask a player grows, the
//! commitment over it, and the randomized exploration demo. Transport
//! (connecting, sending, receiving, rendering) stays with the caller.

use std::collections::VecDeque;

use vstd::prelude::*;
use vstd::slice::slice_to_vec;

use crate::commitment::{commit_mask, mask_preimage};
use crate::crypto::sha256_of;
use crate::maze::{mask_view, spec_adjacent};
use crate::rng::random_below;
use crate::server::PlayerData;

verus! {

/// How many cells of the first j of one mask row are revealed.
pub open spec fn row_revealed_count(row: Seq<bool>, j: int) -> nat
    decreases j,
{
    if j <= 0 {
        0
    } else {
        row_revealed_count(row, j - 1) + (if row[j - 1] {
            1nat
        } else {
            0nat
        })
    }
}

/// How many cells of the first i rows of a mask are revealed.
pub open spec fn grid_revealed_count(mask: Seq<Seq<bool>>, i: int) -> nat
    decreases i,
{
    if i <= 0 {
        0
    } else {
        grid_revealed_count(mask, i - 1) + row_revealed_count(
            mask[i - 1],
            mask[i - 1].len() as int,
        )
    }
}

/// How many cells of a mask are revealed.
pub open spec fn revealed_count(mask: Seq<Seq<bool>>) -> nat {
    grid_revealed_count(mask, mask.len() as int)
}

proof fn lemma_row_revealed_update(r: Seq<bool>, j0: int, v: bool, j: int)
    requires
        0 <= j0 < r.len(),
        0 <= j <= r.len(),
    ensures
        j <= j0 ==> row_revealed_count(r.update(j0, v), j) == row_revealed_count(r, j),
        j > j0 ==> row_revealed_count(r.update(j0, v), j) + (if r[j0] {
            1nat
        } else {
            0nat
        }) == row_revealed_count(r, j) + (if v {
            1nat
        } else {
            0nat
        }),
    decreases j,
{
    if j > 0 {
        lemma_row_revealed_update(r, j0, v, j - 1);
    }
}

proof fn lemma_grid_revealed_update(mask: Seq<Seq<bool>>, x0: int, y0: int, v: bool, i: int)
    requires
        0 <= x0 < mask.len(),
        0 <= y0 < mask[x0].len(),
        0 <= i <= mask.len(),
    ensures
        i <= x0 ==> grid_revealed_count(mask.update(x0, mask[x0].update(y0, v)), i)
            == grid_revealed_count(mask, i),
        i > x0 ==> grid_revealed_count(mask.update(x0, mask[x0].update(y0, v)), i) + (if
        mask[x0][y0] {
            1nat
        } else {
            0nat
        }) == grid_revealed_count(mask, i) + (if v {
            1nat
        } else {
            0nat
        }),
    decreases i,
{
    let m2 = mask.update(x0, mask[x0].update(y0, v));
    if i > 0 {
        lemma_grid_revealed_update(mask, x0, y0, v, i - 1);
        if i - 1 == x0 {
            lemma_row_revealed_update(mask[x0], y0, v, mask[x0].len() as int);
            assert(m2[i - 1] == mask[x0].update(y0, v));
        } else {
            assert(m2[i - 1] == mask[i - 1]);
        }
    }
}

proof fn lemma_row_revealed_bound(row: Seq<bool>, j: int)
    requires
        0 <= j <= row.len(),
    ensures
        row_revealed_count(row, j) <= j,
    decreases j,
{
    if j > 0 {
        lemma_row_revealed_bound(row, j - 1);
    }
}

proof fn lemma_grid_revealed_bound(mask: Seq<Seq<bool>>, h: nat, i: int)
    requires
        0 <= i <= mask.len(),
        forall|x: int| 0 <= x < i ==> (#[trigger] mask[x]).len() == h,
    ensures
        grid_revealed_count(mask, i) <= i * h,
    decreases i,
{
    if i > 0 {
        lemma_grid_revealed_bound(mask, h, i - 1);
        lemma_row_revealed_bound(mask[i - 1], h as int);
        assert(i * h == (i - 1) * h + h) by (nonlinear_arith);
    } else {
        assert(i * h == 0) by (nonlinear_arith)
            requires
                i == 0,
        ;
    }
}

/// Once no revealed cell has a hidden in-grid neighbor, a single revealed
/// cell spreads to the whole mask.
proof fn lemma_revealed_spreads(mask: Seq<Seq<bool>>, w: int, h: int, sx: int, sy: int, x: int, y: int)
    requires
        mask.len() == w,
        forall|i: int| 0 <= i < w ==> (#[trigger] mask[i]).len() == h,
        0 <= sx < w,
        0 <= sy < h,
        0 <= x < w,
        0 <= y < h,
        mask[sx][sy],
        forall|a: int, b: int, na: int, nb: int|
            0 <= a < w && 0 <= b < h && 0 <= na < w && 0 <= nb < h && spec_adjacent(a, b, na, nb)
                && #[trigger] mask[a][b] ==> #[trigger] mask[na][nb],
    ensures
        mask[x][y],
    decreases (if x >= sx { x - sx } else { sx - x }) + (if y >= sy { y - sy } else { sy - y }),
{
    if x == sx && y == sy {
    } else if x > sx {
        lemma_revealed_spreads(mask, w, h, sx, sy, x - 1, y);
        assert(spec_adjacent(x - 1, y, x, y));
    } else if x < sx {
        lemma_revealed_spreads(mask, w, h, sx, sy, x + 1, y);
        assert(spec_adjacent(x + 1, y, x, y));
    } else if y > sy {
        lemma_revealed_spreads(mask, w, h, sx, sy, x, y - 1);
        assert(spec_adjacent(x, y - 1, x, y));
    } else {
        lemma_revealed_spreads(mask, w, h, sx, sy, x, y + 1);
        assert(spec_adjacent(x, y + 1, x, y));
    }
}

/// A deep copy of a boolean grid.
pub fn copy_mask(mask: &Vec<Vec<bool>>) -> (r: Vec<Vec<bool>>)
    ensures
        mask_view(r@) == mask_view(mask@),
{
    let mut out: Vec<Vec<bool>> = Vec::new();
    let mut i: usize = 0;
    while i < mask.len()
        invariant
            i <= mask@.len(),
            out@.len() == i,
            forall|j: int| 0 <= j < i ==> (#[trigger] out@[j])@ == mask@[j]@,
        decreases mask@.len() - i,
    {
        out.push(slice_to_vec(mask[i].as_slice()));
        i = i + 1;
    }
    proof {
        assert forall|j: int| 0 <= j < mask@.len() implies mask_view(out@)[j] == mask_view(
            mask@,
        )[j] by {
            assert(mask_view(out@)[j] == out@[j]@);
            assert(mask_view(mask@)[j] == mask@[j]@);
        }
        assert(mask_view(out@) =~= mask_view(mask@));
    }
    out
}

/// The player-side state: an identifier, the exploration mask grown so far,
/// and the commitment to the current exploration state.
pub struct Player {
    /// The player's identifier.
    pub id: usize,
    /// The visibility mask the player claims; true marks an explored cell.
    pub exploration_mask: Vec<Vec<bool>>,
    /// The 32-byte commitment to the current exploration state.
    pub commitment: Vec<u8>,
}

impl Player {
    /// The mask width (the mask is indexed mask[x][y]).
    pub open spec fn mask_width(&self) -> int {
        self.exploration_mask@.len() as int
    }

    /// The mask height.
    pub open spec fn mask_height(&self) -> int {
        self.exploration_mask@[0]@.len() as int
    }

    /// A rectangular, nonempty mask.
    pub open spec fn mask_wf(&self) -> bool {
        &&& self.mask_width() >= 1
        &&& self.mask_height() >= 1
        &&& forall|i: int|
            0 <= i < self.mask_width() ==> (#[trigger] self.exploration_mask@[i])@.len()
                == self.mask_height()
    }

    /// A fresh player: an all-hidden maze-sized mask and a 32-byte
    /// placeholder commitment of zeros.
    pub fn new(id: usize, maze_width: usize, maze_height: usize) -> (p: Player)
        requires
            maze_width >= 1,
            maze_height >= 1,
        ensures
            p.id == id,
            p.mask_wf(),
            p.mask_width() == maze_width,
            p.mask_height() == maze_height,
            forall|x: int, y: int|
                0 <= x < maze_width && 0 <= y < maze_height ==> !mask_view(
                    p.exploration_mask@,
                )[x][y],
            p.commitment@ == Seq::new(32, |i: int| 0u8),
    {
        let mut exploration_mask: Vec<Vec<bool>> = Vec::new();
        let mut x: usize = 0;
        while x < maze_width
            invariant
                x <= maze_width,
                exploration_mask@.len() == x,
                forall|i: int|
                    0 <= i < x ==> (#[trigger] exploration_mask@[i])@.len() == maze_height,
                forall|i: int, j: int|
                    0 <= i < x && 0 <= j < maze_height ==> !(#[trigger] exploration_mask@[i]@[j]),
            decreases maze_width - x,
        {
            let mut row: Vec<bool> = Vec::new();
            let mut y: usize = 0;
            while y < maze_height
                invariant
                    y <= maze_height,
                    row@.len() == y,
                    forall|j: int| 0 <= j < y ==> !(#[trigger] row@[j]),
                decreases maze_height - y,
            {
                row.push(false);
                y = y + 1;
            }
            exploration_mask.push(row);
            x = x + 1;
        }
        let commitment: Vec<u8> = vec![0u8; 32];
        proof {
            assert forall|x2: int, y2: int|
                0 <= x2 < maze_width && 0 <= y2 < maze_height implies !mask_view(
                exploration_mask@,
            )[x2][y2] by {
                assert(mask_view(exploration_mask@)[x2] == exploration_mask@[x2]@);
            }
            assert(commitment@ =~= Seq::new(32, |i: int| 0u8));
        }
        Player { id, exploration_mask, commitment }
    }

    /// Commit the current exploration state: SHA-256 over the mask's
    /// canonical preimage.
    pub fn commit_current_state(&mut self)
        ensures
            final (self).id == old(self).id,
            final (self).exploration_mask == old(self).exploration_mask,
            final (self).commitment@ == sha256_of(
                mask_preimage(mask_view(old(self).exploration_mask@)),
            ),
            final (self).commitment@.len() == 32,
    {
        self.commitment = commit_mask(&self.exploration_mask);
    }

    /// Commit the current exploration state and package the request a session
    /// sends to the server; writing it out and reading the masked maze back
    /// stays with the caller.
    pub fn explore_request(&mut self) -> (r: PlayerData)
        ensures
            final (self).id == old(self).id,
            final (self).exploration_mask == old(self).exploration_mask,
            final (self).commitment@ == sha256_of(
                mask_preimage(mask_view(old(self).exploration_mask@)),
            ),
            r.id == old(self).id,
            mask_view(r.exploration_mask@) == mask_view(old(self).exploration_mask@),
            r.commitment@ == final (self).commitment@,
    {
        self.commit_current_state();
        PlayerData {
            id: self.id,
            exploration_mask: copy_mask(&self.exploration_mask),
            commitment: slice_to_vec(self.commitment.as_slice()),
        }
    }

    /// Reveal one cell of the mask; everything else is untouched.
    fn set_explored(&mut self, x: usize, y: usize)
        requires
            old(self).mask_wf(),
            x < old(self).mask_width(),
            y < old(self).mask_height(),
        ensures
            final (self).id == old(self).id,
            final (self).commitment == old(self).commitment,
            final (self).mask_wf(),
            final (self).mask_width() == old(self).mask_width(),
            final (self).mask_height() == old(self).mask_height(),
            mask_view(final (self).exploration_mask@) == mask_view(
                old(self).exploration_mask@,
            ).update(
                x as int,
                mask_view(old(self).exploration_mask@)[x as int].update(y as int, true),
            ),
    {
        self.exploration_mask[x][y] = true;
        proof {
            let mv_old = mask_view(old(self).exploration_mask@);
            let mv_new = mask_view(self.exploration_mask@);
            assert forall|i: int| 0 <= i < mv_new.len() implies mv_new[i] == mv_old.update(
                x as int,
                mv_old[x as int].update(y as int, true),
            )[i] by {
                assert(mv_new[i] == self.exploration_mask@[i]@);
                assert(mv_old[i] == old(self).exploration_mask@[i]@);
                if i == x as int {
                    assert(self.exploration_mask@[i]@ =~= old(self).exploration_mask@[i]@.update(
                        y as int,
                        true,
                    ));
                    assert(mv_old[x as int] == old(self).exploration_mask@[x as int]@);
                }
            }
            assert(mv_new =~= mv_old.update(
                x as int,
                mv_old[x as int].update(y as int, true),
            ));
        }
    }

    /// The hidden grid neighbors of (x, y) in the exploration mask: sound,
    /// complete, and free of duplicates.
    pub fn get_unvisited_neighbors(&self, x: usize, y: usize) -> (r: Vec<(usize, usize)>)
        requires
            self.mask_wf(),
            x < self.mask_width(),
            y < self.mask_height(),
        ensures
            forall|i: int|
                0 <= i < r@.len() ==> {
                    &&& (#[trigger] r@[i]).0 < self.mask_width()
                    &&& r@[i].1 < self.mask_height()
                    &&& spec_adjacent(x as int, y as int, r@[i].0 as int, r@[i].1 as int)
                    &&& !self.exploration_mask@[r@[i].0 as int]@[r@[i].1 as int]
                },
            forall|nx: int, ny: int|
                0 <= nx < self.mask_width() && 0 <= ny < self.mask_height() && spec_adjacent(
                    x as int,
                    y as int,
                    nx,
                    ny,
                ) && !self.exploration_mask@[nx]@[ny] ==> r@.contains((nx as usize, ny as usize)),
            r@.no_duplicates(),
    {
        let w = self.exploration_mask.len();
        let h = self.exploration_mask[0].len();
        let mut neighbors: Vec<(usize, usize)> = Vec::new();
        let ghost mut i_west: int = -1;
        let ghost mut i_east: int = -1;
        let ghost mut i_north: int = -1;
        let ghost mut i_south: int = -1;
        if x > 0 && !self.exploration_mask[x - 1][y] {
            neighbors.push((x - 1, y));
            proof {
                i_west = neighbors@.len() - 1;
            }
        }
        if x < w - 1 && !self.exploration_mask[x + 1][y] {
            neighbors.push((x + 1, y));
            proof {
                i_east = neighbors@.len() - 1;
            }
        }
        if y > 0 && !self.exploration_mask[x][y - 1] {
            neighbors.push((x, y - 1));
            proof {
                i_north = neighbors@.len() - 1;
            }
        }
        if y < h - 1 && !self.exploration_mask[x][y + 1] {
            neighbors.push((x, y + 1));
            proof {
                i_south = neighbors@.len() - 1;
            }
        }
        proof {
            assert forall|nx: int, ny: int|
                0 <= nx < self.mask_width() && 0 <= ny < self.mask_height() && spec_adjacent(
                    x as int,
                    y as int,
                    nx,
                    ny,
                ) && !self.exploration_mask@[nx]@[ny] implies neighbors@.contains(
                (nx as usize, ny as usize),
            ) by {
                let p = (nx as usize, ny as usize);
                if nx == x - 1 {
                    assert(neighbors@[i_west] == p);
                } else if nx == x + 1 {
                    assert(neighbors@[i_east] == p);
                } else if ny == y - 1 {
                    assert(neighbors@[i_north] == p);
                } else {
                    assert(neighbors@[i_south] == p);
                }
            }
        }
        neighbors
    }

    /// Explore the grid with a randomized growing walk (a stand-in for real
    /// player movement): afterwards the whole mask is revealed.
    pub fn simulate_exploration(&mut self)
        requires
            old(self).mask_wf(),
            forall|x: int, y: int|
                0 <= x < old(self).mask_width() && 0 <= y < old(self).mask_height()
                    ==> !old(self).exploration_mask@[x]@[y],
        ensures
            final (self).id == old(self).id,
            final (self).commitment == old(self).commitment,
            final (self).mask_wf(),
            final (self).mask_width() == old(self).mask_width(),
            final (self).mask_height() == old(self).mask_height(),
            forall|x: int, y: int|
                0 <= x < old(self).mask_width() && 0 <= y < old(self).mask_height()
                    ==> final (self).exploration_mask@[x]@[y],
    {
        let w = self.exploration_mask.len();
        let h = self.exploration_mask[0].len();
        let start_x = random_below(w);
        let start_y = random_below(h);
        let ghost m_first = *self;
        self.set_explored(start_x, start_y);
        proof {
            let mv0 = mask_view(m_first.exploration_mask@);
            lemma_grid_revealed_update(mv0, start_x as int, start_y as int, true, w as int);
            lemma_grid_revealed_bound(
                mask_view(self.exploration_mask@),
                h as nat,
                w as int,
            );
            assert(mask_view(self.exploration_mask@)[start_x as int][start_y as int]);
            assert(self.exploration_mask@[start_x as int]@[start_y as int]);
        }
        let mut frontier: VecDeque<(usize, usize)> = VecDeque::new();
        frontier.push_back((start_x, start_y));
        proof {
            assert(frontier@[0] == (start_x, start_y));
            let mv0 = mask_view(m_first.exploration_mask@);
            let mv1 = mask_view(self.exploration_mask@);
            assert forall|x: int, y: int, nx: int, ny: int|
                #![trigger self.exploration_mask@[x]@[y], self.exploration_mask@[nx]@[ny]]
                0 <= x < w && 0 <= y < h && 0 <= nx < w && 0 <= ny < h && spec_adjacent(
                    x,
                    y,
                    nx,
                    ny,
                ) && self.exploration_mask@[x]@[y] && !self.exploration_mask@[nx]@[ny] implies
            frontier@.contains((x as usize, y as usize)) by {
                assert(mv1[x] == self.exploration_mask@[x]@);
                assert(mv0[x] == m_first.exploration_mask@[x]@);
                if !(x == start_x as int && y == start_y as int) {
                    assert(!m_first.exploration_mask@[x]@[y]);
                    assert(false);
                }
                assert(frontier@[0] == (x as usize, y as usize));
            }
        }
        loop
            invariant
                self.id == m_first.id,
                self.commitment == m_first.commitment,
                self.mask_wf(),
                self.mask_width() == w,
                self.mask_height() == h,
                w >= 1,
                h >= 1,
                start_x < w,
                start_y < h,
                self.exploration_mask@[start_x as int]@[start_y as int],
                forall|i: int|
                    0 <= i < frontier@.len() ==> {
                        &&& (#[trigger] frontier@[i]).0 < w
                        &&& frontier@[i].1 < h
                        &&& self.exploration_mask@[frontier@[i].0 as int]@[frontier@[i].1 as int]
                    },
                forall|x: int, y: int, nx: int, ny: int|
                    #![trigger self.exploration_mask@[x]@[y], self.exploration_mask@[nx]@[ny]]
                    0 <= x < w && 0 <= y < h && 0 <= nx < w && 0 <= ny < h && spec_adjacent(
                        x,
                        y,
                        nx,
                        ny,
                    ) && self.exploration_mask@[x]@[y] && !self.exploration_mask@[nx]@[ny]
                        ==> frontier@.contains((x as usize, y as usize)),
                revealed_count(mask_view(self.exploration_mask@)) <= (w as int) * (h as int),
            ensures
                frontier@.len() == 0,
                self.id == m_first.id,
                self.commitment == m_first.commitment,
                self.mask_wf(),
                self.mask_width() == w,
                self.mask_height() == h,
                self.exploration_mask@[start_x as int]@[start_y as int],
                forall|x: int, y: int, nx: int, ny: int|
                    #![trigger self.exploration_mask@[x]@[y], self.exploration_mask@[nx]@[ny]]
                    0 <= x < w && 0 <= y < h && 0 <= nx < w && 0 <= ny < h && spec_adjacent(
                        x,
                        y,
                        nx,
                        ny,
                    ) && self.exploration_mask@[x]@[y] && !self.exploration_mask@[nx]@[ny]
                        ==> frontier@.contains((x as usize, y as usize)),
            decreases (w as int) * (h as int) - revealed_count(mask_view(self.exploration_mask@)), frontier@.len(),
        {
            let ghost frontier_start = frontier@;
            let front = frontier.pop_front();
            let (cx, cy) = match front {
                Some(c) => c,
                None => {
                    break ;
                },
            };
            let ghost frontier_rest = frontier@;
            let neighbors = self.get_unvisited_neighbors(cx, cy);
            if neighbors.len() > 0 {
                frontier.push_back((cx, cy));
                let idx = random_below(neighbors.len());
                let (nx, ny) = neighbors[idx];
                let ghost m0 = *self;
                self.set_explored(nx, ny);
                frontier.push_back((nx, ny));
                proof {
                    let mv0 = mask_view(m0.exploration_mask@);
                    let mv1 = mask_view(self.exploration_mask@);
                    assert forall|a: int, c: int|
                        0 <= a < w && 0 <= c < h && !(a == nx as int && c == ny as int) implies
                    #[trigger] self.exploration_mask@[a]@[c] == m0.exploration_mask@[a]@[c] by {
                        assert(mv1[a] == self.exploration_mask@[a]@);
                        assert(mv0[a] == m0.exploration_mask@[a]@);
                    }
                    assert(self.exploration_mask@[nx as int]@[ny as int]) by {
                        assert(mv1[nx as int] == self.exploration_mask@[nx as int]@);
                        assert(mv0[nx as int] == m0.exploration_mask@[nx as int]@);
                    }
                    lemma_grid_revealed_update(mv0, nx as int, ny as int, true, w as int);
                    lemma_grid_revealed_bound(mv1, h as nat, w as int);
                    assert((w as int) * (h as nat) == (w as int) * (h as int))
                        by (nonlinear_arith);
                    assert(revealed_count(mv1) == revealed_count(mv0) + 1);
                    assert forall|x: int, y: int, nx2: int, ny2: int|
                        #![trigger self.exploration_mask@[x]@[y], self.exploration_mask@[nx2]@[ny2]]
                        0 <= x < w && 0 <= y < h && 0 <= nx2 < w && 0 <= ny2 < h && spec_adjacent(
                            x,
                            y,
                            nx2,
                            ny2,
                        ) && self.exploration_mask@[x]@[y] && !self.exploration_mask@[nx2]@[ny2] implies
                    frontier@.contains((x as usize, y as usize)) by {
                        if x == cx as int && y == cy as int {
                            assert(frontier@[frontier@.len() - 2] == (cx, cy));
                        } else if x == nx as int && y == ny as int {
                            assert(frontier@[frontier@.len() - 1] == (nx, ny));
                        } else {
                            assert(mask_view(self.exploration_mask@)[x]
                                == self.exploration_mask@[x]@);
                            assert(mask_view(self.exploration_mask@)[nx2]
                                == self.exploration_mask@[nx2]@);
                            assert(mask_view(m0.exploration_mask@)[x]
                                == m0.exploration_mask@[x]@);
                            assert(mask_view(m0.exploration_mask@)[nx2]
                                == m0.exploration_mask@[nx2]@);
                            assert(m0.exploration_mask@[x]@[y]);
                            assert(!m0.exploration_mask@[nx2]@[ny2]);
                            let p = (x as usize, y as usize);
                            assert(frontier_start.contains(p));
                            let i = choose|i: int|
                                0 <= i < frontier_start.len() && frontier_start[i] == p;
                            assert(i != 0);
                            assert(frontier_rest[i - 1] == p);
                            assert(frontier@[i - 1] == p);
                        }
                    }
                }
            } else {
                proof {
                    assert forall|x: int, y: int, nx2: int, ny2: int|
                        #![trigger self.exploration_mask@[x]@[y], self.exploration_mask@[nx2]@[ny2]]
                        0 <= x < w && 0 <= y < h && 0 <= nx2 < w && 0 <= ny2 < h && spec_adjacent(
                            x,
                            y,
                            nx2,
                            ny2,
                        ) && self.exploration_mask@[x]@[y] && !self.exploration_mask@[nx2]@[ny2] implies
                    frontier@.contains((x as usize, y as usize)) by {
                        let p = (x as usize, y as usize);
                        if x == cx as int && y == cy as int {
                            assert(neighbors@.contains((nx2 as usize, ny2 as usize)));
                            assert(false);
                        } else {
                            assert(frontier_start.contains(p));
                            let i = choose|i: int|
                                0 <= i < frontier_start.len() && frontier_start[i] == p;
                            assert(i != 0);
                            assert(frontier@[i - 1] == p);
                        }
                    }
                }
            }
        }
        proof {
            let mv = mask_view(self.exploration_mask@);
            assert forall|x: int, y: int|
                0 <= x < w && 0 <= y < h implies self.exploration_mask@[x]@[y] by {
                assert forall|i: int| 0 <= i < w as int implies (#[trigger] mv[i]).len()
                    == h as int by {
                    assert(mv[i] == self.exploration_mask@[i]@);
                }
                assert forall|a: int, b: int, na: int, nb: int|
                    0 <= a < w && 0 <= b < h && 0 <= na < w && 0 <= nb < h && spec_adjacent(
                        a,
                        b,
                        na,
                        nb,
                    ) && #[trigger] mv[a][b] implies #[trigger] mv[na][nb] by {
                    assert(mv[a] == self.exploration_mask@[a]@);
                    assert(mv[na] == self.exploration_mask@[na]@);
                    if !self.exploration_mask@[na]@[nb] {
                        assert(self.exploration_mask@[a]@[b]);
                        assert(frontier@.contains((a as usize, b as usize)));
                        assert(false);
                    }
                }
                assert(mv[start_x as int] == self.exploration_mask@[start_x as int]@);
                lemma_revealed_spreads(
                    mv,
                    w as int,
                    h as int,
                    start_x as int,
                    start_y as int,
                    x,
                    y,
                );
                assert(mv[x] == self.exploration_mask@[x]@);
            }
        }
    }
}

} // verus!
