//! The shared maze: a grid of cells whose generation carves a random spanning
//! tree, and the fog-of-war masking that derives a player's partial view.

use vstd::prelude::*;

use crate::errors::GameError;

verus! {

/// Wall slots in the order [north, east, south, west]: north faces (x, y-1),
/// east faces (x+1, y), south faces (x, y+1), west faces (x-1, y).
pub const NORTH: usize = 0;

pub const EAST: usize = 1;

pub const SOUTH: usize = 2;

pub const WEST: usize = 3;

/// A single cell of the maze grid.
#[derive(Clone, Copy, Debug)]
pub struct Cell {
    /// X coordinate of the cell in the grid.
    pub x: usize,
    /// Y coordinate of the cell in the grid.
    pub y: usize,
    /// Whether the cell has been reached (during generation: by the carving
    /// walk; in a masked view: copied from the source).
    pub visited: bool,
    /// Walls of the cell in the order [north, east, south, west].
    pub walls: [bool; 4],
}

impl Cell {
    /// A cell that shows nothing: the right coordinates, unvisited, all four
    /// walls present.
    pub open spec fn is_pristine_at(self, x: int, y: int) -> bool {
        &&& self.x == x
        &&& self.y == y
        &&& !self.visited
        &&& self.walls[0] && self.walls[1] && self.walls[2] && self.walls[3]
    }

    pub fn new(x: usize, y: usize) -> (c: Cell)
        ensures
            c.is_pristine_at(x as int, y as int),
    {
        Cell { x, y, visited: false, walls: [true, true, true, true] }
    }
}

/// Two coordinates at Manhattan distance one.
pub open spec fn spec_adjacent(x: int, y: int, nx: int, ny: int) -> bool {
    ||| (nx == x - 1 && ny == y)
    ||| (nx == x + 1 && ny == y)
    ||| (nx == x && ny == y - 1)
    ||| (nx == x && ny == y + 1)
}

/// The wall slot of the cell at (x, y) that faces the adjacent cell (nx, ny).
pub open spec fn dir_of(x: int, y: int, nx: int, ny: int) -> int {
    if ny == y - 1 {
        0
    } else if nx == x + 1 {
        1
    } else if ny == y + 1 {
        2
    } else {
        3
    }
}

/// The two cells differ only in that the wall in slot `d` is now open.
pub open spec fn cell_wall_opened(before: Cell, after: Cell, d: int) -> bool {
    &&& after.x == before.x
    &&& after.y == before.y
    &&& after.visited == before.visited
    &&& after.walls@ == before.walls@.update(d, false)
}

/// The maze: a width x height grid of cells, addressed as grid[x][y].
pub struct Maze {
    /// Width of the maze.
    pub width: usize,
    /// Height of the maze.
    pub height: usize,
    /// Grid of cells, indexed first by x, then by y.
    pub grid: Vec<Vec<Cell>>,
}

/// The mathematical value of a boolean grid such as a visibility mask.
pub open spec fn mask_view(mask: Seq<Vec<bool>>) -> Seq<Seq<bool>> {
    Seq::new(mask.len(), |i: int| mask[i]@)
}

/// A boolean grid has exactly the dimensions w x h.
pub open spec fn mask_dims_ok(mask: Seq<Seq<bool>>, w: int, h: int) -> bool {
    &&& mask.len() == w
    &&& forall|i: int| 0 <= i < w ==> (#[trigger] mask[i]).len() == h
}

impl Maze {
    /// The mathematical value of the grid.
    pub open spec fn grid_seq(&self) -> Seq<Seq<Cell>> {
        Seq::new(self.grid@.len(), |i: int| self.grid@[i]@)
    }

    /// The cell at (x, y).
    pub open spec fn cell(&self, x: int, y: int) -> Cell {
        self.grid@[x]@[y]
    }

    /// (x, y) lies inside the grid.
    pub open spec fn in_grid(&self, x: int, y: int) -> bool {
        0 <= x < self.width && 0 <= y < self.height
    }

    /// The grid has exactly width columns of exactly height cells.
    pub open spec fn dims_ok(&self) -> bool {
        &&& self.grid@.len() == self.width
        &&& forall|x: int| 0 <= x < self.width ==> (#[trigger] self.grid@[x])@.len() == self.height
    }

    /// Every cell carries its own grid coordinates.
    pub open spec fn coords_ok(&self) -> bool {
        forall|x: int, y: int|
            self.in_grid(x, y) ==> (#[trigger] self.cell(x, y)).x == x && self.cell(x, y).y == y
    }

    /// Walls between adjacent cells agree: a wall is either present on both
    /// sides or absent on both sides.
    pub open spec fn walls_symmetric(&self) -> bool {
        forall|x: int, y: int|
            self.in_grid(x, y) ==> {
                &&& (x + 1 < self.width ==> (#[trigger] self.cell(x, y)).walls[1] == self.cell(
                    x + 1,
                    y,
                ).walls[3])
                &&& (y + 1 < self.height ==> self.cell(x, y).walls[2] == self.cell(
                    x,
                    y + 1,
                ).walls[0])
            }
    }

    /// The outer border is closed: no cell on the edge of the grid has its
    /// outward-facing wall removed.
    pub open spec fn border_walls_present(&self) -> bool {
        forall|x: int, y: int|
            self.in_grid(x, y) ==> {
                &&& (y == 0 ==> (#[trigger] self.cell(x, y)).walls[0])
                &&& (x == self.width - 1 ==> self.cell(x, y).walls[1])
                &&& (y == self.height - 1 ==> self.cell(x, y).walls[2])
                &&& (x == 0 ==> self.cell(x, y).walls[3])
            }
    }

    /// Structural well-formedness: dimensions, coordinates, wall symmetry.
    pub open spec fn wf(&self) -> bool {
        &&& self.dims_ok()
        &&& self.coords_ok()
        &&& self.walls_symmetric()
    }

    /// A maze fresh out of `new`: well-formed, nothing visited, every wall
    /// present.
    pub open spec fn is_pristine(&self) -> bool {
        &&& self.dims_ok()
        &&& self.coords_ok()
        &&& forall|x: int, y: int|
            self.in_grid(x, y) ==> (#[trigger] self.cell(x, y)).is_pristine_at(x, y)
    }

    pub fn new(width: usize, height: usize) -> (m: Maze)
        ensures
            m.width == width,
            m.height == height,
            m.is_pristine(),
            m.wf(),
    {
        let mut grid: Vec<Vec<Cell>> = Vec::new();
        let mut x: usize = 0;
        while x < width
            invariant
                x <= width,
                grid@.len() == x,
                forall|i: int| 0 <= i < x ==> (#[trigger] grid@[i])@.len() == height,
                forall|i: int, j: int|
                    0 <= i < x && 0 <= j < height ==> (#[trigger] grid@[i]@[j]).is_pristine_at(
                        i,
                        j,
                    ),
            decreases width - x,
        {
            let mut row: Vec<Cell> = Vec::new();
            let mut y: usize = 0;
            while y < height
                invariant
                    y <= height,
                    row@.len() == y,
                    forall|j: int| 0 <= j < y ==> (#[trigger] row@[j]).is_pristine_at(x as int, j),
                decreases height - y,
            {
                row.push(Cell::new(x, y));
                y = y + 1;
            }
            grid.push(row);
            x = x + 1;
        }
        Maze { width, height, grid }
    }

    /// The unvisited grid neighbors of (x, y): sound (every entry is adjacent,
    /// in the grid and unvisited), complete (every such neighbor appears), and
    /// free of duplicates (each neighbor appears once, so a uniform pick over
    /// the result is a uniform pick over the neighbors).
    pub fn get_unvisited_neighbors(&self, x: usize, y: usize) -> (r: Vec<(usize, usize)>)
        requires
            self.dims_ok(),
            self.in_grid(x as int, y as int),
        ensures
            forall|i: int|
                0 <= i < r@.len() ==> {
                    &&& self.in_grid((#[trigger] r@[i]).0 as int, r@[i].1 as int)
                    &&& spec_adjacent(x as int, y as int, r@[i].0 as int, r@[i].1 as int)
                    &&& !self.cell(r@[i].0 as int, r@[i].1 as int).visited
                },
            forall|nx: int, ny: int|
                self.in_grid(nx, ny) && spec_adjacent(x as int, y as int, nx, ny) && !self.cell(
                    nx,
                    ny,
                ).visited ==> r@.contains((nx as usize, ny as usize)),
            r@.no_duplicates(),
    {
        let mut neighbors: Vec<(usize, usize)> = Vec::new();
        let ghost mut i_west: int = -1;
        let ghost mut i_east: int = -1;
        let ghost mut i_north: int = -1;
        let ghost mut i_south: int = -1;
        if x > 0 && !self.grid[x - 1][y].visited {
            neighbors.push((x - 1, y));
            proof {
                i_west = neighbors@.len() - 1;
            }
        }
        if x < self.width - 1 && !self.grid[x + 1][y].visited {
            neighbors.push((x + 1, y));
            proof {
                i_east = neighbors@.len() - 1;
            }
        }
        if y > 0 && !self.grid[x][y - 1].visited {
            neighbors.push((x, y - 1));
            proof {
                i_north = neighbors@.len() - 1;
            }
        }
        if y < self.height - 1 && !self.grid[x][y + 1].visited {
            neighbors.push((x, y + 1));
            proof {
                i_south = neighbors@.len() - 1;
            }
        }
        proof {
            assert forall|nx: int, ny: int|
                self.in_grid(nx, ny) && spec_adjacent(x as int, y as int, nx, ny) && !self.cell(
                    nx,
                    ny,
                ).visited implies neighbors@.contains((nx as usize, ny as usize)) by {
                let p = (nx as usize, ny as usize);
                if nx == x - 1 {
                    assert(neighbors@[i_west] == p);
                } else if nx == x + 1 {
                    assert(neighbors@[i_east] == p);
                } else if ny == y - 1 {
                    assert(neighbors@[i_north] == p);
                } else {
                    assert(neighbors@[i_south] == p);
                }
            }
        }
        neighbors
    }

    /// Remove the wall pair between two adjacent cells; everything else is
    /// untouched.
    pub fn remove_wall(&mut self, x1: usize, y1: usize, x2: usize, y2: usize)
        requires
            old(self).dims_ok(),
            old(self).in_grid(x1 as int, y1 as int),
            old(self).in_grid(x2 as int, y2 as int),
            spec_adjacent(x1 as int, y1 as int, x2 as int, y2 as int),
        ensures
            final(self).width == old(self).width,
            final(self).height == old(self).height,
            final(self).dims_ok(),
            forall|x: int, y: int|
                old(self).in_grid(x, y) && !(x == x1 as int && y == y1 as int) && !(x == x2 as int
                    && y == y2 as int) ==> #[trigger] final(self).cell(x, y) == old(self).cell(
                    x,
                    y,
                ),
            cell_wall_opened(
                old(self).cell(x1 as int, y1 as int),
                final(self).cell(x1 as int, y1 as int),
                dir_of(x1 as int, y1 as int, x2 as int, y2 as int),
            ),
            cell_wall_opened(
                old(self).cell(x2 as int, y2 as int),
                final(self).cell(x2 as int, y2 as int),
                dir_of(x2 as int, y2 as int, x1 as int, y1 as int),
            ),
    {
        if x1 == x2 {
            if y1 > y2 {
                let mut a = self.grid[x1][y1];
                a.walls[0] = false;
                self.grid[x1][y1] = a;
                let mut b = self.grid[x2][y2];
                b.walls[2] = false;
                self.grid[x2][y2] = b;
            } else {
                let mut a = self.grid[x1][y1];
                a.walls[2] = false;
                self.grid[x1][y1] = a;
                let mut b = self.grid[x2][y2];
                b.walls[0] = false;
                self.grid[x2][y2] = b;
            }
        } else {
            if x1 > x2 {
                let mut a = self.grid[x1][y1];
                a.walls[3] = false;
                self.grid[x1][y1] = a;
                let mut b = self.grid[x2][y2];
                b.walls[1] = false;
                self.grid[x2][y2] = b;
            } else {
                let mut a = self.grid[x1][y1];
                a.walls[1] = false;
                self.grid[x1][y1] = a;
                let mut b = self.grid[x2][y2];
                b.walls[3] = false;
                self.grid[x2][y2] = b;
            }
        }
    }
}

/// `out` is the fog-of-war view of `src` under `mask`: visible cells copied
/// verbatim, hidden cells pristine.
pub open spec fn masked_from(out: Maze, src: Maze, mask: Seq<Seq<bool>>) -> bool {
    &&& out.width == src.width
    &&& out.height == src.height
    &&& out.dims_ok()
    &&& forall|x: int, y: int|
        src.in_grid(x, y) ==> {
            &&& (mask[x][y] ==> #[trigger] out.cell(x, y) == src.cell(x, y))
            &&& (!mask[x][y] ==> out.cell(x, y).is_pristine_at(x, y))
        }
}

impl Maze {
    /// Derive the partial view of the maze a player with visibility `mask` may
    /// see. Fails with `DimensionMismatch` exactly when the mask's dimensions
    /// differ from the maze's.
    pub fn get_masked_maze(&self, mask: &Vec<Vec<bool>>) -> (r: Result<Maze, GameError>)
        requires
            self.dims_ok(),
        ensures
            r is Ok <==> mask_dims_ok(mask_view(mask@), self.width as int, self.height as int),
            r matches Ok(out) ==> masked_from(out, *self, mask_view(mask@)),
            r matches Err(e) ==> e == GameError::DimensionMismatch,
    {
        if mask.len() != self.width {
            assert(mask_view(mask@).len() != self.width);
            return Err(GameError::DimensionMismatch);
        }
        let mut x: usize = 0;
        while x < self.width
            invariant
                x <= self.width,
                self.dims_ok(),
                mask@.len() == self.width,
                forall|i: int| 0 <= i < x ==> (#[trigger] mask@[i])@.len() == self.height,
            decreases self.width - x,
        {
            if mask[x].len() != self.height {
                assert(mask_view(mask@)[x as int].len() != self.height);
                return Err(GameError::DimensionMismatch);
            }
            x = x + 1;
        }
        proof {
            assert forall|i: int| 0 <= i < self.width implies (#[trigger] mask_view(
                mask@,
            )[i]).len() == self.height by {
                assert(mask_view(mask@)[i] == mask@[i]@);
            }
        }
        let mut grid: Vec<Vec<Cell>> = Vec::new();
        let mut x: usize = 0;
        while x < self.width
            invariant
                x <= self.width,
                self.dims_ok(),
                mask@.len() == self.width,
                forall|i: int| 0 <= i < self.width ==> (#[trigger] mask@[i])@.len() == self.height,
                grid@.len() == x,
                forall|i: int| 0 <= i < x ==> (#[trigger] grid@[i])@.len() == self.height,
                forall|i: int, j: int|
                    0 <= i < x && 0 <= j < self.height ==> {
                        &&& (mask@[i]@[j] ==> #[trigger] grid@[i]@[j] == self.cell(i, j))
                        &&& (!mask@[i]@[j] ==> grid@[i]@[j].is_pristine_at(i, j))
                    },
            decreases self.width - x,
        {
            let mut row: Vec<Cell> = Vec::new();
            let mut y: usize = 0;
            while y < self.height
                invariant
                    y <= self.height,
                    x < self.width,
                    self.dims_ok(),
                    mask@.len() == self.width,
                    forall|i: int|
                        0 <= i < self.width ==> (#[trigger] mask@[i])@.len() == self.height,
                    row@.len() == y,
                    forall|j: int|
                        0 <= j < y ==> {
                            &&& (mask@[x as int]@[j] ==> #[trigger] row@[j] == self.cell(
                                x as int,
                                j,
                            ))
                            &&& (!mask@[x as int]@[j] ==> row@[j].is_pristine_at(x as int, j))
                        },
                decreases self.height - y,
            {
                if mask[x][y] {
                    row.push(self.grid[x][y]);
                } else {
                    row.push(Cell::new(x, y));
                }
                y = y + 1;
            }
            grid.push(row);
            x = x + 1;
        }
        let m = Maze { width: self.width, height: self.height, grid };
        proof {
            assert forall|i: int, j: int| m.in_grid(i, j) implies {
                &&& (mask_view(mask@)[i][j] ==> #[trigger] m.cell(i, j) == self.cell(i, j))
                &&& (!mask_view(mask@)[i][j] ==> m.cell(i, j).is_pristine_at(i, j))
            } by {
                assert(mask_view(mask@)[i] == mask@[i]@);
                assert(m.cell(i, j) == m.grid@[i]@[j]);
            }
            assert(mask_dims_ok(mask_view(mask@), self.width as int, self.height as int)) by {
                assert forall|i: int| 0 <= i < self.width implies (#[trigger] mask_view(
                    mask@,
                )[i]).len() == self.height by {
                    assert(mask_view(mask@)[i] == mask@[i]@);
                }
            }
        }
        Ok(m)
    }
}

/// Masking with an all-true visibility mask yields a maze identical to the
/// source.
pub proof fn lemma_mask_all_visible(out: Maze, src: Maze, mask: Seq<Seq<bool>>)
    requires
        src.dims_ok(),
        masked_from(out, src, mask),
        forall|x: int, y: int| src.in_grid(x, y) ==> #[trigger] mask[x][y],
    ensures
        out.grid_seq() == src.grid_seq(),
        out.width == src.width,
        out.height == src.height,
{
    assert(out.grid_seq().len() == src.grid_seq().len());
    assert forall|x: int| 0 <= x < out.grid_seq().len() implies out.grid_seq()[x]
        =~= src.grid_seq()[x] by {
        assert(out.grid_seq()[x] == out.grid@[x]@);
        assert(src.grid_seq()[x] == src.grid@[x]@);
        assert(out.grid@[x]@.len() == out.height);
        assert(src.grid@[x]@.len() == src.height);
        assert forall|y: int| 0 <= y < out.grid_seq()[x].len() implies out.grid_seq()[x][y]
            == src.grid_seq()[x][y] by {
            assert(src.in_grid(x, y));
            assert(mask[x][y]);
            assert(out.cell(x, y) == src.cell(x, y));
        }
    }
    assert(out.grid_seq() =~~= src.grid_seq());
}

/// Masking with an all-false visibility mask yields a maze in which every cell
/// is pristine: unvisited, all four walls present.
pub proof fn lemma_mask_none_visible(out: Maze, src: Maze, mask: Seq<Seq<bool>>)
    requires
        src.dims_ok(),
        masked_from(out, src, mask),
        forall|x: int, y: int| src.in_grid(x, y) ==> !(#[trigger] mask[x][y]),
    ensures
        out.is_pristine(),
{
    assert forall|x: int, y: int| out.in_grid(x, y) implies (#[trigger] out.cell(
        x,
        y,
    )).is_pristine_at(x, y) by {
        assert(src.in_grid(x, y));
    }
}

} // verus!
