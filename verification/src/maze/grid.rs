//! The grid: owner of every cell, in row-major order, as a flat arena
//! indexed by `row * width + col`. Static adjacency is wired once, right
//! after allocation; afterwards only the passage sets of the cells change.
//!
//! The module also carries the mathematical model of a maze: which cells
//! are linked, the total passage degree, and path connectivity. A finished
//! maze is `perfect_maze`: symmetric, duplicate-free passages between
//! adjacent cells only, with degree sum `2 * (cells - 1)` — i.e. exactly
//! `width * height - 1` undirected passages — and every pair of cells
//! connected, which together make the passage graph a spanning tree.

use vstd::prelude::*;

use crate::maze::cell::Cell;
use crate::MazeError;

verus! {

/// Two positions are geometrically adjacent: same row and columns one
/// apart, or same column and rows one apart.
pub open spec fn pos_adj(a: (u16, u16), b: (u16, u16)) -> bool {
    ||| (a.0 == b.0 && (a.1 + 1 == b.1 || b.1 + 1 == a.1))
    ||| (a.1 == b.1 && (a.0 + 1 == b.0 || b.0 + 1 == a.0))
}

/// Equal everywhere except possibly the passage set.
pub open spec fn cell_meta_eq(x: Cell, y: Cell) -> bool {
    &&& x.row == y.row
    &&& x.col == y.col
    &&& x.top == y.top
    &&& x.bottom == y.bottom
    &&& x.left == y.left
    &&& x.right == y.right
}

/// The full matrix of cells.
pub struct Grid {
    /// Number of columns.
    pub width: u16,
    /// Number of rows.
    pub height: u16,
    /// All cells, row-major: the cell at `(row, col)` sits at index
    /// `row * width + col`.
    pub cells: Vec<Cell>,
}

impl Grid {
    /// How many cells a fully populated grid holds.
    pub open spec fn num_cells(self) -> int {
        self.width * self.height
    }

    /// Both dimensions are positive.
    pub open spec fn dims_ok(self) -> bool {
        self.width >= 1 && self.height >= 1
    }

    /// Flat index of the cell at `(r, c)`.
    pub open spec fn flat(self, r: int, c: int) -> int {
        r * self.width + c
    }

    /// The position the cell at index `i` carries in its own fields.
    pub open spec fn pos_of(self, i: int) -> (u16, u16) {
        self.cells[i].pos()
    }

    /// The passage entries recorded at cell `i`.
    pub open spec fn links_at(self, i: int) -> Seq<(u16, u16)> {
        self.cells[i].links@
    }

    /// The cell at `(r, c)` has its coordinates and exactly the in-bounds
    /// geometric neighbours wired: no top in row 0, no bottom in the last
    /// row, no left in column 0, no right in the last column.
    pub open spec fn cell_ok(self, r: int, c: int) -> bool {
        let cell = self.cells[self.flat(r, c)];
        &&& cell.row as int == r
        &&& cell.col as int == c
        &&& cell.top == (if r == 0 {
            None::<(u16, u16)>
        } else {
            Some(((r - 1) as u16, c as u16))
        })
        &&& cell.bottom == (if r == self.height - 1 {
            None::<(u16, u16)>
        } else {
            Some(((r + 1) as u16, c as u16))
        })
        &&& cell.left == (if c == 0 {
            None::<(u16, u16)>
        } else {
            Some((r as u16, (c - 1) as u16))
        })
        &&& cell.right == (if c == self.width - 1 {
            None::<(u16, u16)>
        } else {
            Some((r as u16, (c + 1) as u16))
        })
    }

    /// Fully populated and correctly wired.
    pub open spec fn wf(self) -> bool {
        &&& self.dims_ok()
        &&& self.cells.len() == self.num_cells()
        &&& forall|r: int, c: int|
            0 <= r < self.height && 0 <= c < self.width ==> #[trigger] self.cell_ok(r, c)
    }

    /// A passage from cell `i` to cell `j` has been recorded at `i`.
    pub open spec fn linked(self, i: int, j: int) -> bool {
        &&& 0 <= i < self.cells.len()
        &&& 0 <= j < self.cells.len()
        &&& self.links_at(i).contains(self.pos_of(j))
    }

    /// Cells `i` and `j` are geometrically adjacent.
    pub open spec fn adj(self, i: int, j: int) -> bool {
        &&& 0 <= i < self.cells.len()
        &&& 0 <= j < self.cells.len()
        &&& pos_adj(self.pos_of(i), self.pos_of(j))
    }

    /// Entry `k` of cell `i`'s passage set names an in-bounds position
    /// adjacent to cell `i` itself.
    pub open spec fn link_entry_ok(self, i: int, k: int) -> bool {
        let p = self.links_at(i)[k];
        &&& (p.0 as int) < self.height
        &&& (p.1 as int) < self.width
        &&& pos_adj(self.pos_of(i), p)
    }

    /// Every recorded passage points at an adjacent, in-bounds position.
    /// In particular no cell has a passage to itself.
    pub open spec fn links_wf(self) -> bool {
        forall|i: int, k: int|
            0 <= i < self.cells.len() && 0 <= k < self.links_at(i).len()
                ==> #[trigger] self.link_entry_ok(i, k)
    }

    /// Every recorded passage has its companion in the other direction.
    pub open spec fn links_sym(self) -> bool {
        forall|i: int, j: int| #[trigger] self.linked(i, j) ==> self.linked(j, i)
    }

    /// No passage is recorded twice at the same cell.
    pub open spec fn links_dup_free(self) -> bool {
        forall|i: int, k1: int, k2: int|
            #![trigger self.links_at(i)[k1], self.links_at(i)[k2]]
            0 <= i < self.cells.len() && 0 <= k1 < k2 < self.links_at(i).len()
                ==> self.links_at(i)[k1] != self.links_at(i)[k2]
    }

    /// Cell `i` has at least one carved passage. Generation algorithms use
    /// this as their "visited" marker.
    pub open spec fn visited(self, i: int) -> bool {
        self.links_at(i).len() > 0
    }

    /// Sum of all passage-set sizes. Each undirected passage of a
    /// symmetric, duplicate-free maze contributes exactly 2 here.
    pub open spec fn degree_sum(self) -> int {
        crate::maze::graph::degree_upto(self.cells@, self.cells@.len() as int)
    }

    /// `p` walks from `a` to `b` along recorded passages.
    pub open spec fn is_path(self, p: Seq<int>, a: int, b: int) -> bool {
        &&& p.len() >= 1
        &&& p[0] == a
        &&& p[p.len() - 1] == b
        &&& forall|k: int| 0 <= k < p.len() - 1 ==> #[trigger] self.linked(p[k], p[k + 1])
    }

    /// Some passage walk joins `a` to `b`.
    pub open spec fn connected(self, a: int, b: int) -> bool {
        exists|p: Seq<int>| self.is_path(p, a, b)
    }

    /// Every pair of cells is joined by a passage walk.
    pub open spec fn all_connected(self) -> bool {
        forall|a: int, b: int|
            0 <= a < self.cells.len() && 0 <= b < self.cells.len()
                ==> #[trigger] self.connected(a, b)
    }

    /// No passage carved anywhere yet.
    pub open spec fn all_unlinked(self) -> bool {
        forall|i: int| 0 <= i < self.cells.len() ==> self.links_at(i).len() == 0
    }

    /// The passage graph is a spanning tree of the grid: only adjacent
    /// cells are linked, every passage is mutual and recorded once per
    /// side, there are exactly `width * height - 1` undirected passages
    /// (degree sum `2 * (cells - 1)`), and all cells are connected. A
    /// connected graph on `n` vertices with `n - 1` edges is acyclic.
    pub open spec fn perfect_maze(self) -> bool {
        &&& self.wf()
        &&& self.links_wf()
        &&& self.links_sym()
        &&& self.links_dup_free()
        &&& self.degree_sum() == 2 * (self.num_cells() - 1)
        &&& self.all_connected()
    }

    /// Allocates an empty grid of the given dimensions; cells are
    /// populated by `init_grid`. Zero in either dimension is an error.
    pub fn new(width: u16, height: u16) -> (r: Result<Grid, MazeError>)
        ensures
            r is Err <==> (width == 0 || height == 0),
            r is Err ==> r == Result::<Grid, MazeError>::Err(MazeError::InvalidDimensions),
            r matches Ok(g) ==> g.width == width && g.height == height && g.cells@.len() == 0,
    {
        if width == 0 || height == 0 {
            return Err(MazeError::InvalidDimensions);
        }
        Ok(Grid { width, height, cells: Vec::new() })
    }

    /// Every cell is allocated with its coordinates and nothing else yet.
    pub open spec fn cell_fresh_ok(self, r: int, c: int) -> bool {
        let cell = self.cells[self.flat(r, c)];
        &&& cell.row as int == r
        &&& cell.col as int == c
        &&& cell.links@.len() == 0
        &&& cell.top is None
        &&& cell.bottom is None
        &&& cell.left is None
        &&& cell.right is None
    }

    /// Populated, but adjacency not wired yet.
    pub open spec fn prepared(self) -> bool {
        &&& self.dims_ok()
        &&& self.cells.len() == self.num_cells()
        &&& forall|r: int, c: int|
            0 <= r < self.height && 0 <= c < self.width ==> #[trigger] self.cell_fresh_ok(r, c)
    }

    /// Two-phase initialization: allocate one cell per position, then wire
    /// the static adjacency. Afterwards the grid is well-formed and no
    /// passage is carved.
    #[verifier::loop_isolation(false)]
    pub fn init_grid(&mut self)
        requires
            old(self).dims_ok(),
        ensures
            final(self).width == old(self).width,
            final(self).height == old(self).height,
            final(self).wf(),
            final(self).all_unlinked(),
    {
        self.prepare_grid();
        self.configure_cells();
    }

    /// Allocation phase: one fresh cell per `(row, col)`, row-major.
    #[verifier::loop_isolation(false)]
    fn prepare_grid(&mut self)
        requires
            old(self).dims_ok(),
        ensures
            final(self).width == old(self).width,
            final(self).height == old(self).height,
            final(self).prepared(),
            final(self).all_unlinked(),
    {
        let w = self.width;
        let h = self.height;
        let ghost wi = w as int;
        let mut cells: Vec<Cell> = Vec::new();
        let mut r: u16 = 0;
        while r < h
            invariant
                r <= h,
                w >= 1,
                h >= 1,
                cells@.len() == r * wi,
                forall|r2: int, c2: int|
                    0 <= r2 < r && 0 <= c2 < wi ==> #[trigger] fresh_cell_at(cells@, wi, r2, c2),
                forall|i2: int| 0 <= i2 < cells@.len() ==> cells@[i2].links@.len() == 0,
            decreases h - r,
        {
            let mut c: u16 = 0;
            while c < w
                invariant
                    r < h,
                    c <= w,
                    w >= 1,
                    h >= 1,
                    cells@.len() == r * wi + c,
                    forall|r2: int, c2: int|
                        0 <= r2 < r && 0 <= c2 < wi ==> #[trigger] fresh_cell_at(
                            cells@,
                            wi,
                            r2,
                            c2,
                        ),
                    forall|c2: int|
                        0 <= c2 < c ==> #[trigger] fresh_cell_at(cells@, wi, r as int, c2),
                    forall|i2: int| 0 <= i2 < cells@.len() ==> cells@[i2].links@.len() == 0,
                decreases w - c,
            {
                proof {
                    crate::maze::graph::lemma_flat_in_range(wi, h as int, r as int, c as int);
                    crate::maze::graph::lemma_grid_size_fits(wi, h as int);
                }
                let ghost prev_cells = cells@;
                cells.push(Cell::new(r, c));
                proof {
                    assert forall|r2: int, c2: int|
                        0 <= r2 < r && 0 <= c2 < wi implies #[trigger] fresh_cell_at(
                        cells@,
                        wi,
                        r2,
                        c2,
                    ) by {
                        assert(fresh_cell_at(prev_cells, wi, r2, c2));
                        crate::maze::graph::lemma_flat_in_range(wi, r as int, r2, c2);
                        assert(cells@[r2 * wi + c2] == prev_cells[r2 * wi + c2]);
                    }
                    assert forall|c2: int| 0 <= c2 < c + 1 implies #[trigger] fresh_cell_at(
                        cells@,
                        wi,
                        r as int,
                        c2,
                    ) by {
                        if c2 < c {
                            assert(fresh_cell_at(prev_cells, wi, r as int, c2));
                            assert(cells@[(r as int) * wi + c2] == prev_cells[(r as int) * wi
                                + c2]);
                        } else {
                            assert(cells@[(r as int) * wi + c2] == cells@[prev_cells.len() as int]);
                        }
                    }
                }
                c = c + 1;
            }
            proof {
                assert(((r + 1) as int) * wi == (r as int) * wi + wi) by (nonlinear_arith);
            }
            r = r + 1;
        }
        self.cells = cells;
        proof {
            assert(self.cells@.len() == self.num_cells()) by (nonlinear_arith)
                requires
                    self.cells@.len() == (h as int) * wi,
                    wi == self.width as int,
                    h == self.height,
            ;
            assert forall|r2: int, c2: int|
                0 <= r2 < self.height && 0 <= c2 < self.width implies #[trigger] self.cell_fresh_ok(
                r2,
                c2,
            ) by {
                assert(fresh_cell_at(self.cells@, wi, r2, c2));
            }
        }
    }

    /// Wiring phase: every cell gets exactly its in-bounds geometric
    /// neighbours, computed from its own coordinates.
    #[verifier::loop_isolation(false)]
    fn configure_cells(&mut self)
        requires
            old(self).prepared(),
            old(self).all_unlinked(),
        ensures
            final(self).width == old(self).width,
            final(self).height == old(self).height,
            final(self).wf(),
            final(self).all_unlinked(),
    {
        let w = self.width;
        let h = self.height;
        let ghost wi = w as int;
        let mut r: u16 = 0;
        while r < h
            invariant
                r <= h,
                self.width == w,
                self.height == h,
                self.dims_ok(),
                self.cells@.len() == self.num_cells(),
                self.all_unlinked(),
                forall|r2: int, c2: int|
                    0 <= r2 < r && 0 <= c2 < wi ==> #[trigger] self.cell_ok(r2, c2),
            decreases h - r,
        {
            let mut c: u16 = 0;
            while c < w
                invariant
                    r < h,
                    c <= w,
                    self.width == w,
                    self.height == h,
                    self.dims_ok(),
                    self.cells@.len() == self.num_cells(),
                    self.all_unlinked(),
                    forall|r2: int, c2: int|
                        0 <= r2 < r && 0 <= c2 < wi ==> #[trigger] self.cell_ok(r2, c2),
                    forall|c2: int| 0 <= c2 < c ==> #[trigger] self.cell_ok(r as int, c2),
                decreases w - c,
            {
                proof {
                    crate::maze::graph::lemma_flat_in_range(wi, h as int, r as int, c as int);
                    crate::maze::graph::lemma_grid_size_fits(wi, h as int);
                }
                let i = (r as usize) * (w as usize) + (c as usize);
                let top = self.create_neighbour(r as i32 - 1, c as i32);
                let bottom = self.create_neighbour(r as i32 + 1, c as i32);
                let left = self.create_neighbour(r as i32, c as i32 - 1);
                let right = self.create_neighbour(r as i32, c as i32 + 1);
                let mut ncell = Cell::new(r, c);
                ncell.top = top;
                ncell.bottom = bottom;
                ncell.left = left;
                ncell.right = right;
                let ghost prev = *self;
                self.cells[i] = ncell;
                proof {
                    assert(self.cells@ =~= prev.cells@.update(i as int, ncell));
                    assert forall|i2: int|
                        0 <= i2 < self.cells@.len() implies self.links_at(i2).len() == 0 by {
                        assert(prev.links_at(i2).len() == 0);
                    }
                    assert(self.cell_ok(r as int, c as int));
                    assert forall|r2: int, c2: int|
                        0 <= r2 < r && 0 <= c2 < wi implies #[trigger] self.cell_ok(r2, c2) by {
                        assert(prev.cell_ok(r2, c2));
                        crate::maze::graph::lemma_flat_in_range(wi, h as int, r2, c2);
                        if self.flat(r2, c2) == i as int {
                            crate::maze::graph::lemma_flat_injective(
                                wi,
                                r2,
                                c2,
                                r as int,
                                c as int,
                            );
                        }
                    }
                    assert forall|c2: int| 0 <= c2 < c + 1 implies #[trigger] self.cell_ok(
                        r as int,
                        c2,
                    ) by {
                        if c2 < c {
                            assert(prev.cell_ok(r as int, c2));
                            crate::maze::graph::lemma_flat_in_range(wi, h as int, r as int, c2);
                            if self.flat(r as int, c2) == i as int {
                                crate::maze::graph::lemma_flat_injective(
                                    wi,
                                    r as int,
                                    c2,
                                    r as int,
                                    c as int,
                                );
                            }
                        }
                    }
                }
                c = c + 1;
            }
            r = r + 1;
        }
        proof {
            assert forall|r2: int, c2: int|
                0 <= r2 < self.height && 0 <= c2 < self.width implies #[trigger] self.cell_ok(
                r2,
                c2,
            ) by {}
        }
    }

    /// The position `(row, col)` if it lies inside the grid. Row bounds are
    /// checked against the height and column bounds against the width, for
    /// rectangular as well as square grids.
    fn create_neighbour(&self, row: i32, col: i32) -> (r: Option<(u16, u16)>)
        requires
            self.dims_ok(),
        ensures
            r == (if 0 <= row < self.height && 0 <= col < self.width {
                Some((row as u16, col as u16))
            } else {
                None::<(u16, u16)>
            }),
    {
        if 0 <= row && row < self.height as i32 && 0 <= col && col < self.width as i32 {
            Some((row as u16, col as u16))
        } else {
            None
        }
    }

    /// Records the passage between cells `a` and `b` in both directions,
    /// touching nothing else.
    pub fn link_cells(&mut self, a: usize, b: usize)
        requires
            a < old(self).cells@.len(),
            b < old(self).cells@.len(),
            old(self).pos_of(a as int) != old(self).pos_of(b as int),
        ensures
            final(self).width == old(self).width,
            final(self).height == old(self).height,
            final(self).cells@.len() == old(self).cells@.len(),
            forall|k: int|
                0 <= k < old(self).cells@.len() && k != a && k != b ==> final(self).cells@[k]
                    == old(self).cells@[k],
            cell_meta_eq(final(self).cells@[a as int], old(self).cells@[a as int]),
            cell_meta_eq(final(self).cells@[b as int], old(self).cells@[b as int]),
            final(self).links_at(a as int) == old(self).links_at(a as int).push(
                old(self).pos_of(b as int),
            ),
            final(self).links_at(b as int) == old(self).links_at(b as int).push(
                old(self).pos_of(a as int),
            ),
    {
        let b_row = self.cells[b].row;
        let b_col = self.cells[b].col;
        let a_row = self.cells[a].row;
        let a_col = self.cells[a].col;
        self.cells[a].links.push((b_row, b_col));
        self.cells[b].links.push((a_row, a_col));
    }

    /// A uniformly random cell of a populated grid, as its flat index.
    pub fn get_rand_cell(&self, rng: &mut rand::rngs::StdRng) -> (i: usize)
        requires
            self.wf(),
        ensures
            i < self.cells@.len(),
    {
        let r = crate::rng::rand_below(rng, self.height as usize);
        let c = crate::rng::rand_below(rng, self.width as usize);
        proof {
            crate::maze::graph::lemma_flat_in_range(
                self.width as int,
                self.height as int,
                r as int,
                c as int,
            );
            crate::maze::graph::lemma_grid_size_fits(self.width as int, self.height as int);
        }
        r * (self.width as usize) + c
    }

    /// Read access to the cell at `(row, col)`.
    pub fn cell_at(&self, row: u16, col: u16) -> (c: &Cell)
        requires
            self.wf(),
            row < self.height,
            col < self.width,
        ensures
            *c == self.cells@[self.flat(row as int, col as int)],
    {
        proof {
            crate::maze::graph::lemma_flat_in_range(
                self.width as int,
                self.height as int,
                row as int,
                col as int,
            );
        }
        &self.cells[(row as usize) * (self.width as usize) + (col as usize)]
    }
}

/// The cell at `(r2, c2)` in a row-major cell sequence of row length `w`
/// is fresh: correct coordinates, no wiring, no passages.
pub open spec fn fresh_cell_at(cells: Seq<Cell>, w: int, r2: int, c2: int) -> bool {
    &&& 0 <= r2 * w + c2 < cells.len()
    &&& cells[r2 * w + c2].row as int == r2
    &&& cells[r2 * w + c2].col as int == c2
    &&& cells[r2 * w + c2].links@.len() == 0
    &&& cells[r2 * w + c2].top is None
    &&& cells[r2 * w + c2].bottom is None
    &&& cells[r2 * w + c2].left is None
    &&& cells[r2 * w + c2].right is None
}

} // verus!
