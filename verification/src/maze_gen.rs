//! Maze generation: a randomized growing-tree walk that carves a spanning
//! tree over the grid, together with the counting and reachability arguments
//! that make its contract precise: afterwards every cell is visited, every
//! cell reaches every other cell through open walls, and exactly
//! width * height - 1 wall pairs are open.

use std::collections::VecDeque;

use vstd::prelude::*;

use crate::maze::{dir_of, spec_adjacent, Cell, Maze};
use crate::rng::random_below;

verus! {

/// Weight one for a visited cell, zero otherwise.
pub open spec fn visited_fn() -> spec_fn(Cell) -> nat {
    |c: Cell| if c.visited { 1nat } else { 0nat }
}

/// Weight of a cell counting its open east and south walls toward in-grid
/// neighbors. Under wall symmetry every open wall pair is counted exactly
/// once, at the member nearer the origin.
pub open spec fn open_end_fn(w: int, h: int) -> spec_fn(Cell) -> nat {
    |c: Cell|
        (if c.x + 1 < w && !c.walls[1] {
            1nat
        } else {
            0nat
        }) + (if c.y + 1 < h && !c.walls[2] {
            1nat
        } else {
            0nat
        })
}

/// Sum of the weight over the first j cells of one row.
pub open spec fn row_weight(row: Seq<Cell>, f: spec_fn(Cell) -> nat, j: int) -> nat
    decreases j,
{
    if j <= 0 {
        0
    } else {
        row_weight(row, f, j - 1) + f(row[j - 1])
    }
}

/// Sum of the weight over the first i whole rows of a grid.
pub open spec fn grid_weight(g: Seq<Seq<Cell>>, f: spec_fn(Cell) -> nat, i: int) -> nat
    decreases i,
{
    if i <= 0 {
        0
    } else {
        grid_weight(g, f, i - 1) + row_weight(g[i - 1], f, g[i - 1].len() as int)
    }
}

impl Maze {
    /// How many cells the carving walk has visited.
    pub open spec fn visited_count(&self) -> nat {
        grid_weight(self.grid_seq(), visited_fn(), self.grid_seq().len() as int)
    }

    /// How many wall pairs between adjacent cells are open.
    pub open spec fn open_pair_count(&self) -> nat {
        grid_weight(
            self.grid_seq(),
            open_end_fn(self.width as int, self.height as int),
            self.grid_seq().len() as int,
        )
    }
}

proof fn lemma_row_weight_update(r: Seq<Cell>, f: spec_fn(Cell) -> nat, j0: int, c: Cell, j: int)
    requires
        0 <= j0 < r.len(),
        0 <= j <= r.len(),
    ensures
        j <= j0 ==> row_weight(r.update(j0, c), f, j) == row_weight(r, f, j),
        j > j0 ==> row_weight(r.update(j0, c), f, j) + f(r[j0]) == row_weight(r, f, j) + f(c),
    decreases j,
{
    if j > 0 {
        lemma_row_weight_update(r, f, j0, c, j - 1);
    }
}

proof fn lemma_grid_weight_update(
    g: Seq<Seq<Cell>>,
    f: spec_fn(Cell) -> nat,
    x0: int,
    y0: int,
    c: Cell,
    i: int,
)
    requires
        0 <= x0 < g.len(),
        0 <= y0 < g[x0].len(),
        0 <= i <= g.len(),
    ensures
        i <= x0 ==> grid_weight(g.update(x0, g[x0].update(y0, c)), f, i) == grid_weight(g, f, i),
        i > x0 ==> grid_weight(g.update(x0, g[x0].update(y0, c)), f, i) + f(g[x0][y0])
            == grid_weight(g, f, i) + f(c),
    decreases i,
{
    let g2 = g.update(x0, g[x0].update(y0, c));
    if i > 0 {
        lemma_grid_weight_update(g, f, x0, y0, c, i - 1);
        if i - 1 == x0 {
            lemma_row_weight_update(g[x0], f, y0, c, g[x0].len() as int);
            assert(g2[i - 1] == g[x0].update(y0, c));
        } else {
            assert(g2[i - 1] == g[i - 1]);
        }
    }
}

proof fn lemma_row_weight_all(row: Seq<Cell>, f: spec_fn(Cell) -> nat, c: nat, j: int)
    requires
        0 <= j <= row.len(),
        forall|k: int| 0 <= k < j ==> f(#[trigger] row[k]) == c,
    ensures
        row_weight(row, f, j) == j * c,
    decreases j,
{
    if j > 0 {
        lemma_row_weight_all(row, f, c, j - 1);
        assert(f(row[j - 1]) == c);
        assert(row_weight(row, f, j) == row_weight(row, f, j - 1) + f(row[j - 1]));
        assert(j * c == (j - 1) * c + c) by (nonlinear_arith);
        assert(row_weight(row, f, j) == j * c);
    } else {
        assert(j == 0);
        assert(row_weight(row, f, j) == 0);
        assert(j * c == 0) by (nonlinear_arith)
            requires
                j == 0,
        ;
    }
}

proof fn lemma_grid_weight_all(
    g: Seq<Seq<Cell>>,
    f: spec_fn(Cell) -> nat,
    c: nat,
    h: nat,
    i: int,
)
    requires
        0 <= i <= g.len(),
        forall|x: int| 0 <= x < i ==> (#[trigger] g[x]).len() == h,
        forall|x: int, y: int| 0 <= x < i && 0 <= y < h ==> f(#[trigger] g[x][y]) == c,
    ensures
        grid_weight(g, f, i) == i * h * c,
    decreases i,
{
    if i > 0 {
        lemma_grid_weight_all(g, f, c, h, i - 1);
        assert forall|k: int| 0 <= k < h implies f(#[trigger] g[i - 1][k]) == c by {
            assert(f(g[i - 1][k]) == c);
        }
        lemma_row_weight_all(g[i - 1], f, c, h as int);
        assert(grid_weight(g, f, i) == grid_weight(g, f, i - 1) + row_weight(
            g[i - 1],
            f,
            g[i - 1].len() as int,
        ));
        assert(i * h * c == (i - 1) * h * c + h * c) by (nonlinear_arith);
        assert(grid_weight(g, f, i) == i * h * c);
    } else {
        assert(grid_weight(g, f, i) == 0);
        assert(i * h * c == 0) by (nonlinear_arith)
            requires
                i == 0,
        ;
    }
}

proof fn lemma_row_weight_bound(row: Seq<Cell>, f: spec_fn(Cell) -> nat, c: nat, j: int)
    requires
        0 <= j <= row.len(),
        forall|k: int| 0 <= k < j ==> f(#[trigger] row[k]) <= c,
    ensures
        row_weight(row, f, j) <= j * c,
    decreases j,
{
    if j > 0 {
        lemma_row_weight_bound(row, f, c, j - 1);
        assert(f(row[j - 1]) <= c);
        assert(row_weight(row, f, j) == row_weight(row, f, j - 1) + f(row[j - 1]));
        assert(j * c == (j - 1) * c + c) by (nonlinear_arith);
        assert(row_weight(row, f, j) <= j * c);
    } else {
        assert(row_weight(row, f, j) == 0);
        assert(j * c == 0) by (nonlinear_arith)
            requires
                j == 0,
        ;
    }
}

proof fn lemma_grid_weight_bound(
    g: Seq<Seq<Cell>>,
    f: spec_fn(Cell) -> nat,
    c: nat,
    h: nat,
    i: int,
)
    requires
        0 <= i <= g.len(),
        forall|x: int| 0 <= x < i ==> (#[trigger] g[x]).len() == h,
        forall|x: int, y: int| 0 <= x < i && 0 <= y < h ==> f(#[trigger] g[x][y]) <= c,
    ensures
        grid_weight(g, f, i) <= i * h * c,
    decreases i,
{
    if i > 0 {
        lemma_grid_weight_bound(g, f, c, h, i - 1);
        assert forall|k: int| 0 <= k < h implies f(#[trigger] g[i - 1][k]) <= c by {
            assert(f(g[i - 1][k]) <= c);
        }
        lemma_row_weight_bound(g[i - 1], f, c, h as int);
        assert(grid_weight(g, f, i) == grid_weight(g, f, i - 1) + row_weight(
            g[i - 1],
            f,
            g[i - 1].len() as int,
        ));
        assert(i * h * c == (i - 1) * h * c + h * c) by (nonlinear_arith);
        assert(grid_weight(g, f, i) <= i * h * c);
    } else {
        assert(grid_weight(g, f, i) == 0);
        assert(i * h * c == 0) by (nonlinear_arith)
            requires
                i == 0,
        ;
    }
}

impl Maze {
    /// An open passage from (x1, y1) to the adjacent (x2, y2): the wall on
    /// the first cell's facing side is absent.
    pub open spec fn open_between(&self, x1: int, y1: int, x2: int, y2: int) -> bool {
        &&& self.in_grid(x1, y1)
        &&& self.in_grid(x2, y2)
        &&& spec_adjacent(x1, y1, x2, y2)
        &&& !self.cell(x1, y1).walls[dir_of(x1, y1, x2, y2)]
    }

    /// A walk through the maze along open walls.
    pub open spec fn is_open_path(&self, path: Seq<(int, int)>) -> bool {
        &&& path.len() >= 1
        &&& forall|i: int| 0 <= i < path.len() ==> self.in_grid((#[trigger] path[i]).0, path[i].1)
        &&& forall|i: int|
            0 <= i < path.len() - 1 ==> self.open_between(
                (#[trigger] path[i]).0,
                path[i].1,
                path[i + 1].0,
                path[i + 1].1,
            )
    }

    /// (x2, y2) can be reached from (x1, y1) along open walls.
    pub open spec fn reaches(&self, x1: int, y1: int, x2: int, y2: int) -> bool {
        exists|path: Seq<(int, int)>|
            {
                &&& self.is_open_path(path)
                &&& path[0] == (x1, y1)
                &&& path[path.len() - 1] == (x2, y2)
            }
    }
}

proof fn lemma_reaches_refl(m: Maze, x: int, y: int)
    requires
        m.in_grid(x, y),
    ensures
        m.reaches(x, y, x, y),
{
    let path = seq![(x, y)];
    assert(m.is_open_path(path));
    assert(path[0] == (x, y) && path[path.len() - 1] == (x, y));
}

proof fn lemma_reaches_step(m: Maze, x1: int, y1: int, x2: int, y2: int, x3: int, y3: int)
    requires
        m.reaches(x1, y1, x2, y2),
        m.open_between(x2, y2, x3, y3),
    ensures
        m.reaches(x1, y1, x3, y3),
{
    let path = choose|path: Seq<(int, int)>|
        {
            &&& m.is_open_path(path)
            &&& path[0] == (x1, y1)
            &&& path[path.len() - 1] == (x2, y2)
        };
    let q = path.push((x3, y3));
    assert forall|i: int| 0 <= i < q.len() - 1 implies m.open_between(
        (#[trigger] q[i]).0,
        q[i].1,
        q[i + 1].0,
        q[i + 1].1,
    ) by {
        if i < path.len() - 1 {
            assert(q[i] == path[i]);
            assert(q[i + 1] == path[i + 1]);
        } else {
            assert(q[i] == path[path.len() - 1]);
            assert(q[i + 1] == (x3, y3));
        }
    }
    assert(m.is_open_path(q));
    assert(q[0] == (x1, y1) && q[q.len() - 1] == (x3, y3));
}

proof fn lemma_open_between_sym(m: Maze, x1: int, y1: int, x2: int, y2: int)
    requires
        m.wf(),
        m.open_between(x1, y1, x2, y2),
    ensures
        m.open_between(x2, y2, x1, y1),
{
    assert(m.walls_symmetric());
    if x2 == x1 + 1 {
        assert(m.cell(x1, y1).walls[1] == m.cell(x2, y2).walls[3]);
    } else if x2 == x1 - 1 {
        assert(m.cell(x2, y2).walls[1] == m.cell(x1, y1).walls[3]);
    } else if y2 == y1 + 1 {
        assert(m.cell(x1, y1).walls[2] == m.cell(x2, y2).walls[0]);
    } else {
        assert(m.cell(x2, y2).walls[2] == m.cell(x1, y1).walls[0]);
    }
}

proof fn lemma_reaches_sym(m: Maze, x1: int, y1: int, x2: int, y2: int)
    requires
        m.wf(),
        m.reaches(x1, y1, x2, y2),
    ensures
        m.reaches(x2, y2, x1, y1),
{
    let path = choose|path: Seq<(int, int)>|
        {
            &&& m.is_open_path(path)
            &&& path[0] == (x1, y1)
            &&& path[path.len() - 1] == (x2, y2)
        };
    let n = path.len() as int;
    let q = Seq::new(path.len(), |i: int| path[n - 1 - i]);
    assert forall|i: int| 0 <= i < q.len() - 1 implies m.open_between(
        (#[trigger] q[i]).0,
        q[i].1,
        q[i + 1].0,
        q[i + 1].1,
    ) by {
        let j = n - 2 - i;
        assert(q[i] == path[j + 1]);
        assert(q[i + 1] == path[j]);
        assert(m.open_between(path[j].0, path[j].1, path[j + 1].0, path[j + 1].1));
        lemma_open_between_sym(m, path[j].0, path[j].1, path[j + 1].0, path[j + 1].1);
    }
    assert(m.is_open_path(q));
    assert(q[0] == (x2, y2) && q[q.len() - 1] == (x1, y1));
}

proof fn lemma_reaches_trans(
    m: Maze,
    x1: int,
    y1: int,
    x2: int,
    y2: int,
    x3: int,
    y3: int,
)
    requires
        m.reaches(x1, y1, x2, y2),
        m.reaches(x2, y2, x3, y3),
    ensures
        m.reaches(x1, y1, x3, y3),
{
    let p1 = choose|path: Seq<(int, int)>|
        {
            &&& m.is_open_path(path)
            &&& path[0] == (x1, y1)
            &&& path[path.len() - 1] == (x2, y2)
        };
    let p2 = choose|path: Seq<(int, int)>|
        {
            &&& m.is_open_path(path)
            &&& path[0] == (x2, y2)
            &&& path[path.len() - 1] == (x3, y3)
        };
    let q = p1 + p2.skip(1);
    let n1 = p1.len() as int;
    assert forall|i: int| 0 <= i < q.len() implies m.in_grid((#[trigger] q[i]).0, q[i].1) by {
        if i < n1 {
            assert(q[i] == p1[i]);
        } else {
            assert(q[i] == p2[i - n1 + 1]);
        }
    }
    assert forall|i: int| 0 <= i < q.len() - 1 implies m.open_between(
        (#[trigger] q[i]).0,
        q[i].1,
        q[i + 1].0,
        q[i + 1].1,
    ) by {
        if i < n1 - 1 {
            assert(q[i] == p1[i]);
            assert(q[i + 1] == p1[i + 1]);
        } else if i == n1 - 1 {
            assert(q[i] == p1[n1 - 1]);
            assert(p1[n1 - 1] == p2[0]);
            assert(q[i + 1] == p2[1]);
            assert(m.open_between(p2[0].0, p2[0].1, p2[1].0, p2[1].1));
        } else {
            assert(q[i] == p2[i - n1 + 1]);
            assert(q[i + 1] == p2[i - n1 + 2]);
            assert(m.open_between(
                p2[i - n1 + 1].0,
                p2[i - n1 + 1].1,
                p2[i - n1 + 2].0,
                p2[i - n1 + 2].1,
            ));
        }
    }
    assert(m.is_open_path(q));
    assert(q[0] == (x1, y1));
    assert(q[q.len() - 1] == p2[p2.len() - 1]);
}

proof fn lemma_reaches_monotone(m1: Maze, m2: Maze, x1: int, y1: int, x2: int, y2: int)
    requires
        m1.width == m2.width,
        m1.height == m2.height,
        forall|a: int, b: int, c: int, d: int|
            #[trigger] m1.open_between(a, b, c, d) ==> m2.open_between(a, b, c, d),
        m1.reaches(x1, y1, x2, y2),
    ensures
        m2.reaches(x1, y1, x2, y2),
{
    let path = choose|path: Seq<(int, int)>|
        {
            &&& m1.is_open_path(path)
            &&& path[0] == (x1, y1)
            &&& path[path.len() - 1] == (x2, y2)
        };
    assert forall|i: int| 0 <= i < path.len() implies m2.in_grid(
        (#[trigger] path[i]).0,
        path[i].1,
    ) by {
        assert(m1.in_grid(path[i].0, path[i].1));
    }
    assert forall|i: int| 0 <= i < path.len() - 1 implies m2.open_between(
        (#[trigger] path[i]).0,
        path[i].1,
        path[i + 1].0,
        path[i + 1].1,
    ) by {
        assert(m1.open_between(path[i].0, path[i].1, path[i + 1].0, path[i + 1].1));
    }
    assert(m2.is_open_path(path));
}

/// The per-cell weight behind `visited_fn`.
pub open spec fn cell_visited_weight(c: Cell) -> nat {
    if c.visited {
        1nat
    } else {
        0nat
    }
}

/// The per-cell weight behind `open_end_fn`.
pub open spec fn cell_open_weight(c: Cell, w: int, h: int) -> nat {
    (if c.x + 1 < w && !c.walls[1] {
        1nat
    } else {
        0nat
    }) + (if c.y + 1 < h && !c.walls[2] {
        1nat
    } else {
        0nat
    })
}

/// Both counts, after a change to a single cell.
proof fn lemma_counts_one_cell(m1: Maze, m2: Maze, x0: int, y0: int)
    requires
        m1.dims_ok(),
        m2.dims_ok(),
        m1.width == m2.width,
        m1.height == m2.height,
        m1.in_grid(x0, y0),
        forall|x: int, y: int|
            m1.in_grid(x, y) && !(x == x0 && y == y0) ==> #[trigger] m2.cell(x, y) == m1.cell(
                x,
                y,
            ),
    ensures
        m2.visited_count() + cell_visited_weight(m1.cell(x0, y0)) == m1.visited_count()
            + cell_visited_weight(m2.cell(x0, y0)),
        m2.open_pair_count() + cell_open_weight(m1.cell(x0, y0), m1.width as int, m1.height as int)
            == m1.open_pair_count() + cell_open_weight(
            m2.cell(x0, y0),
            m1.width as int,
            m1.height as int,
        ),
{
    let g1 = m1.grid_seq();
    let g2 = m2.grid_seq();
    let c = m2.cell(x0, y0);
    assert forall|x: int| 0 <= x < g2.len() implies g2[x] =~= g1.update(
        x0,
        g1[x0].update(y0, c),
    )[x] by {
        assert forall|y: int| 0 <= y < g2[x].len() implies g2[x][y] == g1.update(
            x0,
            g1[x0].update(y0, c),
        )[x][y] by {
            if !(x == x0 && y == y0) {
                assert(m2.cell(x, y) == m1.cell(x, y));
            }
        }
    }
    assert(g2 =~~= g1.update(x0, g1[x0].update(y0, c)));
    let vf = visited_fn();
    let of = open_end_fn(m1.width as int, m1.height as int);
    lemma_grid_weight_update(g1, vf, x0, y0, c, g1.len() as int);
    lemma_grid_weight_update(g1, of, x0, y0, c, g1.len() as int);
    assert(vf(g1[x0][y0]) == cell_visited_weight(m1.cell(x0, y0)));
    assert(vf(c) == cell_visited_weight(c));
    assert(of(g1[x0][y0]) == cell_open_weight(m1.cell(x0, y0), m1.width as int, m1.height as int));
    assert(of(c) == cell_open_weight(c, m1.width as int, m1.height as int));
}

/// Both counts, after a change to exactly two distinct cells.
proof fn lemma_counts_two_cells(m1: Maze, m2: Maze, x1: int, y1: int, x2: int, y2: int)
    requires
        m1.dims_ok(),
        m2.dims_ok(),
        m1.width == m2.width,
        m1.height == m2.height,
        m1.in_grid(x1, y1),
        m1.in_grid(x2, y2),
        !(x1 == x2 && y1 == y2),
        forall|x: int, y: int|
            m1.in_grid(x, y) && !(x == x1 && y == y1) && !(x == x2 && y == y2)
                ==> #[trigger] m2.cell(x, y) == m1.cell(x, y),
    ensures
        m2.visited_count() + cell_visited_weight(m1.cell(x1, y1)) + cell_visited_weight(
            m1.cell(x2, y2),
        ) == m1.visited_count() + cell_visited_weight(m2.cell(x1, y1)) + cell_visited_weight(
            m2.cell(x2, y2),
        ),
        m2.open_pair_count() + cell_open_weight(m1.cell(x1, y1), m1.width as int, m1.height as int)
            + cell_open_weight(m1.cell(x2, y2), m1.width as int, m1.height as int)
            == m1.open_pair_count() + cell_open_weight(
            m2.cell(x1, y1),
            m1.width as int,
            m1.height as int,
        ) + cell_open_weight(m2.cell(x2, y2), m1.width as int, m1.height as int),
{
    let g1 = m1.grid_seq();
    let g2 = m2.grid_seq();
    let ca = m2.cell(x1, y1);
    let cb = m2.cell(x2, y2);
    let gmid = g1.update(x1, g1[x1].update(y1, ca));
    assert(gmid.len() == g1.len());
    assert(gmid[x2].len() == g1[x2].len());
    assert(gmid[x2][y2] == g1[x2][y2]);
    assert forall|x: int| 0 <= x < g2.len() implies g2[x] =~= gmid.update(
        x2,
        gmid[x2].update(y2, cb),
    )[x] by {
        assert forall|y: int| 0 <= y < g2[x].len() implies g2[x][y] == gmid.update(
            x2,
            gmid[x2].update(y2, cb),
        )[x][y] by {
            if !(x == x1 && y == y1) && !(x == x2 && y == y2) {
                assert(m2.cell(x, y) == m1.cell(x, y));
            }
        }
    }
    assert(g2 =~~= gmid.update(x2, gmid[x2].update(y2, cb)));
    let vf = visited_fn();
    let of = open_end_fn(m1.width as int, m1.height as int);
    lemma_grid_weight_update(g1, vf, x1, y1, ca, g1.len() as int);
    lemma_grid_weight_update(g1, of, x1, y1, ca, g1.len() as int);
    lemma_grid_weight_update(gmid, vf, x2, y2, cb, gmid.len() as int);
    lemma_grid_weight_update(gmid, of, x2, y2, cb, gmid.len() as int);
    assert(vf(g1[x1][y1]) == cell_visited_weight(m1.cell(x1, y1)));
    assert(vf(gmid[x2][y2]) == cell_visited_weight(m1.cell(x2, y2)));
    assert(of(g1[x1][y1]) == cell_open_weight(m1.cell(x1, y1), m1.width as int, m1.height as int));
    assert(of(gmid[x2][y2]) == cell_open_weight(
        m1.cell(x2, y2),
        m1.width as int,
        m1.height as int,
    ));
}

/// The distance |a - b|.
pub open spec fn dist1(a: int, b: int) -> int {
    if a >= b {
        a - b
    } else {
        b - a
    }
}

/// Once no visited cell has an unvisited in-grid neighbor, visitedness
/// spreads from any visited cell to the whole grid.
proof fn lemma_visited_spreads(m: Maze, sx: int, sy: int, x: int, y: int)
    requires
        m.dims_ok(),
        m.in_grid(sx, sy),
        m.in_grid(x, y),
        m.cell(sx, sy).visited,
        forall|a: int, b: int, na: int, nb: int|
            m.in_grid(a, b) && m.in_grid(na, nb) && spec_adjacent(a, b, na, nb) && (
            #[trigger] m.cell(a, b)).visited ==> (#[trigger] m.cell(na, nb)).visited,
    ensures
        m.cell(x, y).visited,
    decreases dist1(x, sx) + dist1(y, sy),
{
    if x == sx && y == sy {
    } else if x > sx {
        lemma_visited_spreads(m, sx, sy, x - 1, y);
        assert(spec_adjacent(x - 1, y, x, y));
    } else if x < sx {
        lemma_visited_spreads(m, sx, sy, x + 1, y);
        assert(spec_adjacent(x + 1, y, x, y));
    } else if y > sy {
        lemma_visited_spreads(m, sx, sy, x, y - 1);
        assert(spec_adjacent(x, y - 1, x, y));
    } else {
        lemma_visited_spreads(m, sx, sy, x, y + 1);
        assert(spec_adjacent(x, y + 1, x, y));
    }
}

/// A pristine maze is well-formed, with a closed border, nothing visited and
/// no open wall pair.
proof fn lemma_pristine_setup(m: Maze)
    requires
        m.is_pristine(),
    ensures
        m.wf(),
        m.border_walls_present(),
        m.visited_count() == 0,
        m.open_pair_count() == 0,
{
    assert forall|x: int, y: int|
        m.in_grid(x, y) implies {
        &&& (y == 0 ==> (#[trigger] m.cell(x, y)).walls[0])
        &&& (x == m.width - 1 ==> m.cell(x, y).walls[1])
        &&& (y == m.height - 1 ==> m.cell(x, y).walls[2])
        &&& (x == 0 ==> m.cell(x, y).walls[3])
    } by {
        assert(m.cell(x, y).is_pristine_at(x, y));
    }
    let w = m.width as int;
    let h = m.height as int;
    assert forall|x: int, y: int|
        m.in_grid(x, y) implies {
        &&& (x + 1 < m.width ==> (#[trigger] m.cell(x, y)).walls[1] == m.cell(x + 1, y).walls[3])
        &&& (y + 1 < m.height ==> m.cell(x, y).walls[2] == m.cell(x, y + 1).walls[0])
    } by {
        assert(m.cell(x, y).is_pristine_at(x, y));
        if x + 1 < m.width {
            assert(m.cell(x + 1, y).is_pristine_at(x + 1, y));
        }
        if y + 1 < m.height {
            assert(m.cell(x, y + 1).is_pristine_at(x, y + 1));
        }
    }
    let vf = visited_fn();
    let of = open_end_fn(w, h);
    assert forall|x: int, y: int|
        0 <= x < w && 0 <= y < h implies vf(#[trigger] m.grid_seq()[x][y]) == 0 && of(
        m.grid_seq()[x][y],
    ) == 0 by {
        assert(m.grid_seq()[x][y] == m.cell(x, y));
        assert(m.cell(x, y).is_pristine_at(x, y));
    }
    lemma_grid_weight_all(m.grid_seq(), vf, 0, m.height as nat, w);
    lemma_grid_weight_all(m.grid_seq(), of, 0, m.height as nat, w);
    assert(w * (m.height as nat) * 0 == 0) by (nonlinear_arith);
}

/// No maze has more visited cells than cells.
proof fn lemma_visited_bound(m: Maze)
    requires
        m.dims_ok(),
    ensures
        m.visited_count() <= (m.width as int) * (m.height as int),
{
    let w = m.width as int;
    let h = m.height as int;
    let vf = visited_fn();
    assert forall|x: int, y: int|
        0 <= x < w && 0 <= y < h implies vf(#[trigger] m.grid_seq()[x][y]) <= 1 by {}
    lemma_grid_weight_bound(m.grid_seq(), vf, 1, m.height as nat, w);
    assert(w * (m.height as nat) * 1 == w * h) by (nonlinear_arith)
        requires
            h == m.height as nat,
    ;
}

/// After carving one wall pair between two adjacent in-grid cells (and
/// whatever visited flags changed), wall symmetry still holds and the border
/// stays closed: the two opened slots face each other, never outward.
proof fn lemma_walls_after_carve(m0: Maze, m2: Maze, cx: int, cy: int, nx: int, ny: int)
    requires
        m0.dims_ok(),
        m2.dims_ok(),
        m0.width == m2.width,
        m0.height == m2.height,
        m0.walls_symmetric(),
        m0.border_walls_present(),
        m0.in_grid(cx, cy),
        m0.in_grid(nx, ny),
        spec_adjacent(cx, cy, nx, ny),
        m2.cell(cx, cy).walls@ == m0.cell(cx, cy).walls@.update(dir_of(cx, cy, nx, ny), false),
        m2.cell(nx, ny).walls@ == m0.cell(nx, ny).walls@.update(dir_of(nx, ny, cx, cy), false),
        forall|x: int, y: int|
            m0.in_grid(x, y) && !(x == cx && y == cy) && !(x == nx && y == ny) ==> (
            #[trigger] m2.cell(x, y)).walls == m0.cell(x, y).walls,
    ensures
        m2.walls_symmetric(),
        m2.border_walls_present(),
{
    assert forall|x: int, y: int|
        m2.in_grid(x, y) implies {
        &&& (x + 1 < m2.width ==> (#[trigger] m2.cell(x, y)).walls[1] == m2.cell(
            x + 1,
            y,
        ).walls[3])
        &&& (y + 1 < m2.height ==> m2.cell(x, y).walls[2] == m2.cell(x, y + 1).walls[0])
    } by {
        if x + 1 < m2.width {
            assert(m0.cell(x, y).walls[1] == m0.cell(x + 1, y).walls[3]);
        }
        if y + 1 < m2.height {
            assert(m0.cell(x, y).walls[2] == m0.cell(x, y + 1).walls[0]);
        }
    }
    assert forall|x: int, y: int|
        m2.in_grid(x, y) implies {
        &&& (y == 0 ==> (#[trigger] m2.cell(x, y)).walls[0])
        &&& (x == m2.width - 1 ==> m2.cell(x, y).walls[1])
        &&& (y == m2.height - 1 ==> m2.cell(x, y).walls[2])
        &&& (x == 0 ==> m2.cell(x, y).walls[3])
    } by {
        assert(m0.in_grid(x, y));
    }
}

/// One carving step, seen from the state before it (m0) to the state after
/// it (m2): the wall pair between the current cell and its chosen unvisited
/// neighbor is opened and the neighbor marked visited, nothing else changes.
/// Well-formedness, the closed border, the count relation and reachability
/// from the start all carry over.
#[verifier::rlimit(100)]
proof fn lemma_carve_step(m0: Maze, m2: Maze, sx: int, sy: int, cx: int, cy: int, nx: int, ny: int)
    requires
        m0.wf(),
        m0.border_walls_present(),
        m2.dims_ok(),
        m0.width == m2.width,
        m0.height == m2.height,
        m0.in_grid(sx, sy),
        m0.in_grid(cx, cy),
        m0.in_grid(nx, ny),
        spec_adjacent(cx, cy, nx, ny),
        m0.cell(cx, cy).visited,
        !m0.cell(nx, ny).visited,
        m0.cell(nx, ny).walls[0] && m0.cell(nx, ny).walls[1] && m0.cell(nx, ny).walls[2]
            && m0.cell(nx, ny).walls[3],
        forall|x: int, y: int|
            m0.in_grid(x, y) && (#[trigger] m0.cell(x, y)).visited ==> m0.reaches(sx, sy, x, y),
        m0.open_pair_count() + 1 == m0.visited_count(),
        m2.cell(cx, cy).walls@ == m0.cell(cx, cy).walls@.update(dir_of(cx, cy, nx, ny), false),
        m2.cell(cx, cy).visited == m0.cell(cx, cy).visited,
        m2.cell(cx, cy).x == m0.cell(cx, cy).x,
        m2.cell(cx, cy).y == m0.cell(cx, cy).y,
        m2.cell(nx, ny).walls@ == m0.cell(nx, ny).walls@.update(dir_of(nx, ny, cx, cy), false),
        m2.cell(nx, ny).visited,
        m2.cell(nx, ny).x == m0.cell(nx, ny).x,
        m2.cell(nx, ny).y == m0.cell(nx, ny).y,
        forall|x: int, y: int|
            m0.in_grid(x, y) && !(x == cx && y == cy) && !(x == nx && y == ny)
                ==> #[trigger] m2.cell(x, y) == m0.cell(x, y),
    ensures
        m2.wf(),
        m2.border_walls_present(),
        m2.open_pair_count() + 1 == m2.visited_count(),
        m2.visited_count() == m0.visited_count() + 1,
        forall|x: int, y: int|
            m2.in_grid(x, y) && (#[trigger] m2.cell(x, y)).visited ==> m2.reaches(sx, sy, x, y),
{
    let w = m0.width as int;
    let h = m0.height as int;
    lemma_walls_after_carve(m0, m2, cx, cy, nx, ny);
    assert forall|x: int, y: int|
        m2.in_grid(x, y) implies (#[trigger] m2.cell(x, y)).x == x && m2.cell(x, y).y == y by {
        assert(m0.cell(x, y).x == x && m0.cell(x, y).y == y);
    }
    assert(m2.wf());
    // counts: exactly one counted open end appears (at the member of the
    // carved pair nearer the origin) and exactly one cell turns visited
    lemma_counts_two_cells(m0, m2, cx, cy, nx, ny);
    assert(cell_visited_weight(m2.cell(cx, cy)) == cell_visited_weight(m0.cell(cx, cy)));
    assert(cell_visited_weight(m0.cell(nx, ny)) == 0);
    assert(cell_visited_weight(m2.cell(nx, ny)) == 1);
    assert(m2.visited_count() == m0.visited_count() + 1);
    assert(cell_open_weight(m2.cell(cx, cy), w, h) + cell_open_weight(m2.cell(nx, ny), w, h)
        == cell_open_weight(m0.cell(cx, cy), w, h) + cell_open_weight(m0.cell(nx, ny), w, h) + 1);
    assert(m2.open_pair_count() == m0.open_pair_count() + 1);
    // walls were only opened, so every old passage survives
    assert forall|a: int, b: int, c: int, d: int|
        #[trigger] m0.open_between(a, b, c, d) implies m2.open_between(a, b, c, d) by {
        assert(m2.cell(a, b).walls@.len() == 4);
    }
    assert forall|x: int, y: int|
        m2.in_grid(x, y) && (#[trigger] m2.cell(x, y)).visited implies m2.reaches(
        sx,
        sy,
        x,
        y,
    ) by {
        if x == nx && y == ny {
            assert(m0.reaches(sx, sy, cx, cy));
            lemma_reaches_monotone(m0, m2, sx, sy, cx, cy);
            assert(!m2.cell(cx, cy).walls[dir_of(cx, cy, nx, ny)]);
            assert(m2.open_between(cx, cy, nx, ny));
            lemma_reaches_step(m2, sx, sy, cx, cy, nx, ny);
        } else {
            assert(m0.cell(x, y).visited);
            assert(m0.reaches(sx, sy, x, y));
            lemma_reaches_monotone(m0, m2, sx, sy, x, y);
        }
    }
}

/// When the walk is done, the whole grid is visited and fully connected.
proof fn lemma_generate_finish(m: Maze, sx: int, sy: int)
    requires
        m.wf(),
        m.width >= 1,
        m.height >= 1,
        m.in_grid(sx, sy),
        m.cell(sx, sy).visited,
        forall|x: int, y: int|
            m.in_grid(x, y) && (#[trigger] m.cell(x, y)).visited ==> m.reaches(sx, sy, x, y),
        forall|a: int, b: int, na: int, nb: int|
            m.in_grid(a, b) && m.in_grid(na, nb) && spec_adjacent(a, b, na, nb) && (
            #[trigger] m.cell(a, b)).visited ==> (#[trigger] m.cell(na, nb)).visited,
    ensures
        forall|x: int, y: int| m.in_grid(x, y) ==> (#[trigger] m.cell(x, y)).visited,
        forall|x1: int, y1: int, x2: int, y2: int|
            m.in_grid(x1, y1) && m.in_grid(x2, y2) ==> m.reaches(x1, y1, x2, y2),
        m.visited_count() == (m.width as int) * (m.height as int),
{
    let w = m.width as int;
    let h = m.height as int;
    assert forall|x: int, y: int| m.in_grid(x, y) implies (#[trigger] m.cell(x, y)).visited by {
        lemma_visited_spreads(m, sx, sy, x, y);
    }
    let vf = visited_fn();
    assert forall|x: int, y: int|
        0 <= x < w && 0 <= y < h implies vf(#[trigger] m.grid_seq()[x][y]) == 1 by {
        assert(m.grid_seq()[x][y] == m.cell(x, y));
        assert(m.cell(x, y).visited);
    }
    lemma_grid_weight_all(m.grid_seq(), vf, 1, m.height as nat, w);
    assert(w * (m.height as nat) * 1 == w * h) by (nonlinear_arith)
        requires
            h == m.height as nat,
    ;
    assert forall|x1: int, y1: int, x2: int, y2: int|
        m.in_grid(x1, y1) && m.in_grid(x2, y2) implies m.reaches(x1, y1, x2, y2) by {
        assert(m.cell(x1, y1).visited);
        assert(m.cell(x2, y2).visited);
        assert(m.reaches(sx, sy, x1, y1));
        assert(m.reaches(sx, sy, x2, y2));
        lemma_reaches_sym(m, sx, sy, x1, y1);
        lemma_reaches_trans(m, x1, y1, sx, sy, x2, y2);
    }
}

impl Maze {
    /// Mark one cell visited; everything else is untouched.
    fn set_visited(&mut self, x: usize, y: usize)
        requires
            old(self).dims_ok(),
            old(self).in_grid(x as int, y as int),
        ensures
            final (self).width == old(self).width,
            final (self).height == old(self).height,
            final (self).dims_ok(),
            forall|a: int, b: int|
                old(self).in_grid(a, b) && !(a == x as int && b == y as int)
                    ==> #[trigger] final (self).cell(a, b) == old(self).cell(a, b),
            final (self).cell(x as int, y as int).x == old(self).cell(x as int, y as int).x,
            final (self).cell(x as int, y as int).y == old(self).cell(x as int, y as int).y,
            final (self).cell(x as int, y as int).visited,
            final (self).cell(x as int, y as int).walls == old(self).cell(x as int, y as int).walls,
    {
        let mut c = self.grid[x][y];
        c.visited = true;
        self.grid[x][y] = c;
    }

    /// Carve the maze: a randomized growing-tree walk over a pristine grid.
    /// Afterwards the maze is a spanning tree: every cell is visited, every
    /// cell reaches every other cell through open walls, exactly
    /// width * height - 1 wall pairs are open, and the outer border stays
    /// closed.
    #[verifier::rlimit(100)]
    pub fn generate(&mut self)
        requires
            old(self).is_pristine(),
            old(self).width >= 1,
            old(self).height >= 1,
        ensures
            final (self).width == old(self).width,
            final (self).height == old(self).height,
            final (self).wf(),
            final (self).border_walls_present(),
            forall|x: int, y: int|
                final (self).in_grid(x, y) ==> (#[trigger] final (self).cell(x, y)).visited,
            forall|x1: int, y1: int, x2: int, y2: int|
                final (self).in_grid(x1, y1) && final (self).in_grid(x2, y2)
                    ==> final (self).reaches(x1, y1, x2, y2),
            final (self).open_pair_count() + 1 == old(self).width * old(self).height,
    {
        let w = self.width;
        let h = self.height;
        proof {
            lemma_pristine_setup(*self);
        }
        let start_x = random_below(w);
        let start_y = random_below(h);
        let ghost m_first = *self;
        self.set_visited(start_x, start_y);
        proof {
            lemma_counts_one_cell(m_first, *self, start_x as int, start_y as int);
            assert(self.visited_count() == 1);
            assert(self.open_pair_count() == 0);
            lemma_visited_bound(*self);
            lemma_reaches_refl(*self, start_x as int, start_y as int);
            assert forall|x: int, y: int|
                self.in_grid(x, y) implies {
                &&& (y == 0 ==> (#[trigger] self.cell(x, y)).walls[0])
                &&& (x == self.width - 1 ==> self.cell(x, y).walls[1])
                &&& (y == self.height - 1 ==> self.cell(x, y).walls[2])
                &&& (x == 0 ==> self.cell(x, y).walls[3])
            } by {
                assert(m_first.in_grid(x, y));
                if !(x == start_x as int && y == start_y as int) {
                    assert(self.cell(x, y) == m_first.cell(x, y));
                }
            }
            assert(self.border_walls_present());
        }
        let mut frontier: VecDeque<(usize, usize)> = VecDeque::new();
        frontier.push_back((start_x, start_y));
        proof {
            assert(frontier@[0] == (start_x, start_y));
            assert forall|x: int, y: int, nx: int, ny: int|
                #![trigger self.cell(x, y), self.cell(nx, ny)]
                self.in_grid(x, y) && self.in_grid(nx, ny) && spec_adjacent(x, y, nx, ny)
                    && self.cell(x, y).visited && !self.cell(nx, ny).visited implies
            frontier@.contains((x as usize, y as usize)) by {
                if !(x == start_x as int && y == start_y as int) {
                    assert(m_first.cell(x, y).is_pristine_at(x, y));
                    assert(self.cell(x, y) == m_first.cell(x, y));
                    assert(false);
                }
                assert(frontier@[0] == (x as usize, y as usize));
            }
        }
        loop
            invariant
                self.width == w,
                self.height == h,
                w >= 1,
                h >= 1,
                start_x < w,
                start_y < h,
                self.wf(),
                self.border_walls_present(),
                self.cell(start_x as int, start_y as int).visited,
                forall|i: int|
                    0 <= i < frontier@.len() ==> {
                        &&& (#[trigger] frontier@[i]).0 < w
                        &&& frontier@[i].1 < h
                        &&& self.cell(frontier@[i].0 as int, frontier@[i].1 as int).visited
                    },
                forall|x: int, y: int|
                    self.in_grid(x, y) && (#[trigger] self.cell(x, y)).visited ==> self.reaches(
                        start_x as int,
                        start_y as int,
                        x,
                        y,
                    ),
                forall|x: int, y: int, nx: int, ny: int|
                    #![trigger self.cell(x, y), self.cell(nx, ny)]
                    self.in_grid(x, y) && self.in_grid(nx, ny) && spec_adjacent(x, y, nx, ny)
                        && self.cell(x, y).visited && !self.cell(nx, ny).visited
                        ==> frontier@.contains((x as usize, y as usize)),
                forall|x: int, y: int|
                    self.in_grid(x, y) && !(#[trigger] self.cell(x, y)).visited ==> (self.cell(
                        x,
                        y,
                    ).walls[0] && self.cell(x, y).walls[1] && self.cell(x, y).walls[2] && self.cell(
                        x,
                        y,
                    ).walls[3]),
                self.open_pair_count() + 1 == self.visited_count(),
                self.visited_count() <= (w as int) * (h as int),
            ensures
                frontier@.len() == 0,
                self.width == w,
                self.height == h,
                self.wf(),
                self.border_walls_present(),
                self.in_grid(start_x as int, start_y as int),
                self.cell(start_x as int, start_y as int).visited,
                forall|x: int, y: int|
                    self.in_grid(x, y) && (#[trigger] self.cell(x, y)).visited ==> self.reaches(
                        start_x as int,
                        start_y as int,
                        x,
                        y,
                    ),
                forall|x: int, y: int, nx: int, ny: int|
                    #![trigger self.cell(x, y), self.cell(nx, ny)]
                    self.in_grid(x, y) && self.in_grid(nx, ny) && spec_adjacent(x, y, nx, ny)
                        && self.cell(x, y).visited && !self.cell(nx, ny).visited
                        ==> frontier@.contains((x as usize, y as usize)),
                self.open_pair_count() + 1 == self.visited_count(),
            decreases (w as int) * (h as int) - self.visited_count(), frontier@.len(),
        {
            let ghost frontier_start = frontier@;
            let front = frontier.pop_front();
            let (cx, cy) = match front {
                Some(c) => c,
                None => {
                    break ;
                },
            };
            let ghost frontier_rest = frontier@;
            let neighbors = self.get_unvisited_neighbors(cx, cy);
            if neighbors.len() > 0 {
                frontier.push_back((cx, cy));
                let idx = random_below(neighbors.len());
                let (nx, ny) = neighbors[idx];
                let ghost m0 = *self;
                self.remove_wall(cx, cy, nx, ny);
                let ghost m1 = *self;
                self.set_visited(nx, ny);
                let ghost m2 = *self;
                frontier.push_back((nx, ny));
                proof {
                    let d1 = dir_of(cx as int, cy as int, nx as int, ny as int);
                    let d2 = dir_of(nx as int, ny as int, cx as int, cy as int);
                    // the chosen neighbor was unvisited, so its walls were
                    // all present; the two exec steps opened the facing pair
                    // and marked the neighbor, nothing else
                    assert(m0.cell(nx as int, ny as int).walls[0] && m0.cell(
                        nx as int,
                        ny as int,
                    ).walls[1] && m0.cell(nx as int, ny as int).walls[2] && m0.cell(
                        nx as int,
                        ny as int,
                    ).walls[3]);
                    assert forall|x: int, y: int|
                        m0.in_grid(x, y) && !(x == cx as int && y == cy as int) && !(x == nx as int
                            && y == ny as int) implies #[trigger] m2.cell(x, y) == m0.cell(
                        x,
                        y,
                    ) by {
                        assert(m1.cell(x, y) == m0.cell(x, y));
                    }
                    assert(m2.cell(cx as int, cy as int).walls@ == m0.cell(
                        cx as int,
                        cy as int,
                    ).walls@.update(d1, false));
                    assert(m2.cell(cx as int, cy as int).visited == m0.cell(
                        cx as int,
                        cy as int,
                    ).visited);
                    assert(m2.cell(cx as int, cy as int).x == m0.cell(cx as int, cy as int).x);
                    assert(m2.cell(cx as int, cy as int).y == m0.cell(cx as int, cy as int).y);
                    assert(m2.cell(nx as int, ny as int).walls@ == m0.cell(
                        nx as int,
                        ny as int,
                    ).walls@.update(d2, false));
                    assert(m2.cell(nx as int, ny as int).visited);
                    assert(m2.cell(nx as int, ny as int).x == m0.cell(nx as int, ny as int).x);
                    assert(m2.cell(nx as int, ny as int).y == m0.cell(nx as int, ny as int).y);
                    lemma_carve_step(
                        m0,
                        m2,
                        start_x as int,
                        start_y as int,
                        cx as int,
                        cy as int,
                        nx as int,
                        ny as int,
                    );
                    lemma_visited_bound(m2);
                    // frontier coverage
                    assert forall|x: int, y: int, nx2: int, ny2: int|
                        #![trigger self.cell(x, y), self.cell(nx2, ny2)]
                        self.in_grid(x, y) && self.in_grid(nx2, ny2) && spec_adjacent(
                            x,
                            y,
                            nx2,
                            ny2,
                        ) && self.cell(x, y).visited && !self.cell(nx2, ny2).visited implies
                    frontier@.contains((x as usize, y as usize)) by {
                        if x == cx as int && y == cy as int {
                            assert(frontier@[frontier@.len() - 2] == (cx, cy));
                        } else if x == nx as int && y == ny as int {
                            assert(frontier@[frontier@.len() - 1] == (nx, ny));
                        } else {
                            assert(m0.cell(x, y).visited);
                            assert(!m0.cell(nx2, ny2).visited);
                            let p = (x as usize, y as usize);
                            assert(frontier_start.contains(p));
                            let i = choose|i: int|
                                0 <= i < frontier_start.len() && frontier_start[i] == p;
                            assert(i != 0);
                            assert(frontier_rest[i - 1] == p);
                            assert(frontier@[i - 1] == p);
                        }
                    }
                }
            } else {
                proof {
                    assert forall|x: int, y: int, nx2: int, ny2: int|
                        #![trigger self.cell(x, y), self.cell(nx2, ny2)]
                        self.in_grid(x, y) && self.in_grid(nx2, ny2) && spec_adjacent(
                            x,
                            y,
                            nx2,
                            ny2,
                        ) && self.cell(x, y).visited && !self.cell(nx2, ny2).visited implies
                    frontier@.contains((x as usize, y as usize)) by {
                        let p = (x as usize, y as usize);
                        if x == cx as int && y == cy as int {
                            assert(neighbors@.contains((nx2 as usize, ny2 as usize)));
                            assert(false);
                        } else {
                            assert(frontier_start.contains(p));
                            let i = choose|i: int|
                                0 <= i < frontier_start.len() && frontier_start[i] == p;
                            assert(i != 0);
                            assert(frontier@[i - 1] == p);
                        }
                    }
                }
            }
        }
        proof {
            assert forall|a: int, b: int, na: int, nb: int|
                self.in_grid(a, b) && self.in_grid(na, nb) && spec_adjacent(a, b, na, nb) && (
            #[trigger] self.cell(a, b)).visited implies (#[trigger] self.cell(na, nb)).visited by {
                if !self.cell(na, nb).visited {
                    assert(frontier@.contains((a as usize, b as usize)));
                }
            }
            lemma_generate_finish(*self, start_x as int, start_y as int);
        }
    }
}

} // verus!
