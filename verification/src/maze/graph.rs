//! Proof support for the grid graph: row-major index arithmetic, the
//! counting functions over passage sets, and path connectivity. The
//! generation strategies discharge their spanning-tree obligations with
//! these lemmas.

use vstd::prelude::*;

use crate::maze::cell::Cell;
use crate::maze::grid::{cell_meta_eq, Grid};
use vstd::arithmetic::div_mod::{
    lemma_div_pos_is_pos, lemma_fundamental_div_mod, lemma_mod_bound,
};

verus! {

/// Distance between two coordinates.
pub open spec fn dist(a: int, b: int) -> int {
    if a < b {
        b - a
    } else {
        a - b
    }
}

/// Sum of the passage-set sizes of the first `n` cells of a cell sequence.
pub open spec fn degree_upto(cells: Seq<Cell>, n: int) -> int
    decreases n,
{
    if n <= 0 {
        0
    } else {
        degree_upto(cells, n - 1) + cells[n - 1].links@.len()
    }
}

/// How many of the first `n` cells of a cell sequence have a passage.
pub open spec fn visited_count_upto(cells: Seq<Cell>, n: int) -> int
    decreases n,
{
    if n <= 0 {
        0
    } else {
        visited_count_upto(cells, n - 1) + (if cells[n - 1].links@.len() > 0 {
            1int
        } else {
            0int
        })
    }
}

/// Updating one cell shifts the degree sum by that cell's size change.
pub proof fn lemma_degree_upto_update(cells: Seq<Cell>, ncell: Cell, a: int, n: int)
    requires
        0 <= a < cells.len(),
        n <= cells.len(),
    ensures
        degree_upto(cells.update(a, ncell), n) == degree_upto(cells, n) + (if a < n {
            ncell.links@.len() - cells[a].links@.len()
        } else {
            0int
        }),
    decreases n,
{
    if n > 0 {
        lemma_degree_upto_update(cells, ncell, a, n - 1);
    }
}

/// Updating one cell shifts the visited count by that cell's change of
/// visitedness.
pub proof fn lemma_visited_count_update(cells: Seq<Cell>, ncell: Cell, a: int, n: int)
    requires
        0 <= a < cells.len(),
        n <= cells.len(),
    ensures
        visited_count_upto(cells.update(a, ncell), n) == visited_count_upto(cells, n) + (if a < n {
            (if ncell.links@.len() > 0 {
                1int
            } else {
                0int
            }) - (if cells[a].links@.len() > 0 {
                1int
            } else {
                0int
            })
        } else {
            0int
        }),
    decreases n,
{
    if n > 0 {
        lemma_visited_count_update(cells, ncell, a, n - 1);
    }
}

/// The visited count of `n` cells lies between 0 and `n`.
pub proof fn lemma_visited_count_bounds(cells: Seq<Cell>, n: int)
    requires
        0 <= n <= cells.len(),
    ensures
        0 <= visited_count_upto(cells, n) <= n,
    decreases n,
{
    if n > 0 {
        lemma_visited_count_bounds(cells, n - 1);
    }
}

/// A positive visited count names a visited cell.
pub proof fn lemma_visited_count_pos(cells: Seq<Cell>, n: int) -> (k: int)
    requires
        n <= cells.len(),
        visited_count_upto(cells, n) > 0,
    ensures
        0 <= k < n,
        cells[k].links@.len() > 0,
    decreases n,
{
    if cells[n - 1].links@.len() > 0 {
        n - 1
    } else {
        lemma_visited_count_pos(cells, n - 1)
    }
}

/// A grid without passages has degree sum and visited count zero.
pub proof fn lemma_counts_all_unlinked(cells: Seq<Cell>, n: int)
    requires
        n <= cells.len(),
        forall|k: int| 0 <= k < cells.len() ==> #[trigger] cells[k].links@.len() == 0,
    ensures
        degree_upto(cells, n) == 0,
        visited_count_upto(cells, n) == 0,
    decreases n,
{
    if n > 0 {
        lemma_counts_all_unlinked(cells, n - 1);
    }
}

/// If all of the first `n` cells are visited, all of them count.
pub proof fn lemma_visited_count_all(cells: Seq<Cell>, n: int)
    requires
        0 <= n <= cells.len(),
        forall|k: int| 0 <= k < n ==> #[trigger] cells[k].links@.len() > 0,
    ensures
        visited_count_upto(cells, n) == n,
    decreases n,
{
    if n > 0 {
        lemma_visited_count_all(cells, n - 1);
    }
}

/// One visited cell makes the count positive.
pub proof fn lemma_visited_count_ge_one(cells: Seq<Cell>, n: int, k: int)
    requires
        0 <= k < n <= cells.len(),
        cells[k].links@.len() > 0,
    ensures
        visited_count_upto(cells, n) >= 1,
    decreases n,
{
    lemma_visited_count_bounds(cells, n - 1);
    if k < n - 1 {
        lemma_visited_count_ge_one(cells, n - 1, k);
    }
}

/// Every passage of `g1` is also a passage of `g2`.
pub open spec fn links_extend(g1: Grid, g2: Grid) -> bool {
    forall|i: int, j: int| #[trigger] g1.linked(i, j) ==> g2.linked(i, j)
}

/// `g2` is `g1` with one extra passage recorded between `a` and `b`, in
/// both directions, and nothing else changed. This is exactly what
/// `Grid::link_cells` does.
pub open spec fn link_step(g1: Grid, g2: Grid, a: int, b: int) -> bool {
    &&& g2.width == g1.width
    &&& g2.height == g1.height
    &&& g2.cells@.len() == g1.cells@.len()
    &&& 0 <= a < g1.cells@.len()
    &&& 0 <= b < g1.cells@.len()
    &&& a != b
    &&& forall|k: int|
        0 <= k < g1.cells@.len() && k != a && k != b ==> g2.cells@[k] == g1.cells@[k]
    &&& cell_meta_eq(g2.cells@[a], g1.cells@[a])
    &&& cell_meta_eq(g2.cells@[b], g1.cells@[b])
    &&& g2.links_at(a) == g1.links_at(a).push(g1.pos_of(b))
    &&& g2.links_at(b) == g1.links_at(b).push(g1.pos_of(a))
}

/// Everything carving one fresh passage preserves and produces: the
/// structural invariants survive, the two endpoints become linked and
/// visited, no other passage appears, and the counters move by exactly
/// one carved passage.
pub proof fn lemma_link_step_facts(g1: Grid, g2: Grid, a: int, b: int)
    requires
        link_step(g1, g2, a, b),
        g1.wf(),
        g1.links_wf(),
        g1.links_sym(),
        g1.links_dup_free(),
        g1.adj(a, b),
        !g1.linked(a, b),
        !g1.linked(b, a),
    ensures
        g2.wf(),
        g2.links_wf(),
        g2.links_sym(),
        g2.links_dup_free(),
        g2.linked(a, b),
        g2.linked(b, a),
        links_extend(g1, g2),
        forall|i: int, j: int| #[trigger]
            g2.linked(i, j) ==> g1.linked(i, j) || (i == a && j == b) || (i == b && j == a),
        forall|i: int| 0 <= i < g1.cells@.len() ==> g2.pos_of(i) == g1.pos_of(i),
        forall|i: int|
            0 <= i < g1.cells@.len() && i != a && i != b ==> g2.links_at(i) == g1.links_at(i),
        g2.visited(a) && g2.visited(b),
        forall|i: int|
            0 <= i < g1.cells@.len() && i != a && i != b ==> g2.visited(i) == g1.visited(i),
        degree_upto(g2.cells@, g2.cells@.len() as int) == degree_upto(
            g1.cells@,
            g1.cells@.len() as int,
        ) + 2,
        visited_count_upto(g2.cells@, g2.cells@.len() as int) == visited_count_upto(
            g1.cells@,
            g1.cells@.len() as int,
        ) + (if g1.visited(a) {
            0int
        } else {
            1int
        }) + (if g1.visited(b) {
            0int
        } else {
            1int
        }),
{
    let n = g1.cells@.len() as int;
    let w = g1.width as int;
    let h = g1.height as int;

    // positions are untouched everywhere
    assert forall|i: int| 0 <= i < n implies g2.pos_of(i) == g1.pos_of(i) by {}

    // well-formedness: only passage sets changed
    assert forall|r: int, c: int|
        0 <= r < g2.height && 0 <= c < g2.width implies #[trigger] g2.cell_ok(r, c) by {
        assert(g1.cell_ok(r, c));
        lemma_flat_in_range(w, h, r, c);
    }

    // which passages exist afterwards
    assert forall|i: int, j: int| #[trigger]
        g2.linked(i, j) implies g1.linked(i, j) || (i == a && j == b) || (i == b && j == a) by {
        if i == a {
            if g2.links_at(a).contains(g2.pos_of(j)) && g2.pos_of(j) != g1.pos_of(b) {
                let k = choose|k: int|
                    0 <= k < g2.links_at(a).len() && g2.links_at(a)[k] == g2.pos_of(j);
                assert(g1.links_at(a)[k] == g1.pos_of(j));
            } else if g2.pos_of(j) == g1.pos_of(b) {
                g1.lemma_pos_injective(j, b);
            }
        } else if i == b {
            if g2.links_at(b).contains(g2.pos_of(j)) && g2.pos_of(j) != g1.pos_of(a) {
                let k = choose|k: int|
                    0 <= k < g2.links_at(b).len() && g2.links_at(b)[k] == g2.pos_of(j);
                assert(g1.links_at(b)[k] == g1.pos_of(j));
            } else if g2.pos_of(j) == g1.pos_of(a) {
                g1.lemma_pos_injective(j, a);
            }
        }
    }

    // old passages survive
    assert forall|i: int, j: int| #[trigger] g1.linked(i, j) implies g2.linked(i, j) by {
        let k = choose|k: int| 0 <= k < g1.links_at(i).len() && g1.links_at(i)[k] == g1.pos_of(j);
        assert(g2.links_at(i)[k] == g2.pos_of(j));
    }

    // the new passage is recorded, both ways
    assert(g2.links_at(a)[g1.links_at(a).len() as int] == g1.pos_of(b));
    assert(g2.linked(a, b));
    assert(g2.links_at(b)[g1.links_at(b).len() as int] == g1.pos_of(a));
    assert(g2.linked(b, a));

    // every entry still points at an in-bounds adjacent position
    assert forall|i: int, k: int|
        0 <= i < n && 0 <= k < g2.links_at(i).len() implies #[trigger] g2.link_entry_ok(i, k) by {
        g1.lemma_cell_coords(a);
        g1.lemma_cell_coords(b);
        if i == a && k == g1.links_at(a).len() {
            assert(g2.links_at(i)[k] == g1.pos_of(b));
        } else if i == b && k == g1.links_at(b).len() {
            assert(g2.links_at(i)[k] == g1.pos_of(a));
        } else {
            assert(g1.link_entry_ok(i, k));
            assert(g2.links_at(i)[k] == g1.links_at(i)[k]);
        }
    }

    // symmetry
    assert forall|i: int, j: int| #[trigger] g2.linked(i, j) implies g2.linked(j, i) by {
        if g1.linked(i, j) {
            assert(g1.linked(j, i));
            assert(g2.linked(j, i));
        }
    }

    // no duplicates
    assert forall|i: int, k1: int, k2: int|
        #![trigger g2.links_at(i)[k1], g2.links_at(i)[k2]]
        0 <= i < n && 0 <= k1 < k2 < g2.links_at(i).len() implies g2.links_at(i)[k1]
        != g2.links_at(i)[k2] by {
        if i == a {
            if k2 == g1.links_at(a).len() {
                if g2.links_at(a)[k1] == g1.pos_of(b) {
                    assert(g1.links_at(a)[k1] == g1.pos_of(b));
                    assert(g1.linked(a, b));
                }
            } else {
                assert(g1.links_at(i)[k1] != g1.links_at(i)[k2]);
            }
        } else if i == b {
            if k2 == g1.links_at(b).len() {
                if g2.links_at(b)[k1] == g1.pos_of(a) {
                    assert(g1.links_at(b)[k1] == g1.pos_of(a));
                    assert(g1.linked(b, a));
                }
            } else {
                assert(g1.links_at(i)[k1] != g1.links_at(i)[k2]);
            }
        } else {
            assert(g1.links_at(i)[k1] != g1.links_at(i)[k2]);
        }
    }

    // counters: rebuild g2's cells as two single-cell updates of g1's
    let mid = g1.cells@.update(a, g2.cells@[a]);
    assert(g2.cells@ =~= mid.update(b, g2.cells@[b]));
    lemma_degree_upto_update(g1.cells@, g2.cells@[a], a, n);
    lemma_degree_upto_update(mid, g2.cells@[b], b, n);
    lemma_visited_count_update(g1.cells@, g2.cells@[a], a, n);
    lemma_visited_count_update(mid, g2.cells@[b], b, n);
    assert(g2.visited(a) == (g2.cells@[a].links@.len() > 0));
}

/// Row-major flattening stays inside the grid.
pub proof fn lemma_flat_in_range(w: int, h: int, r: int, c: int)
    requires
        w >= 1,
        0 <= r < h,
        0 <= c < w,
    ensures
        0 <= r * w + c < w * h,
{
    assert(0 <= r * w + c < w * h) by (nonlinear_arith)
        requires
            w >= 1,
            0 <= r < h,
            0 <= c < w,
    ;
}

/// A grid of `u16` dimensions has at most `u16::MAX * u16::MAX` cells,
/// which every machine word this library runs on can index.
pub proof fn lemma_grid_size_fits(w: int, h: int)
    requires
        0 <= w <= u16::MAX,
        0 <= h <= u16::MAX,
    ensures
        w * h <= u32::MAX,
        w * h <= usize::MAX,
{
    assert(w * h <= u32::MAX) by (nonlinear_arith)
        requires
            0 <= w <= u16::MAX,
            0 <= h <= u16::MAX,
    ;
}

/// Row-major flattening is injective on in-bounds coordinates.
pub proof fn lemma_flat_injective(w: int, r1: int, c1: int, r2: int, c2: int)
    requires
        w >= 1,
        0 <= r1,
        0 <= r2,
        0 <= c1 < w,
        0 <= c2 < w,
        r1 * w + c1 == r2 * w + c2,
    ensures
        r1 == r2,
        c1 == c2,
{
    assert(r1 == r2 && c1 == c2) by (nonlinear_arith)
        requires
            w >= 1,
            0 <= r1,
            0 <= r2,
            0 <= c1 < w,
            0 <= c2 < w,
            r1 * w + c1 == r2 * w + c2,
    ;
}

/// Every in-bounds flat index decomposes into row-major coordinates.
pub proof fn lemma_flat_decompose(w: int, h: int, i: int)
    requires
        w >= 1,
        h >= 1,
        0 <= i < w * h,
    ensures
        0 <= i / w < h,
        0 <= i % w < w,
        i == (i / w) * w + i % w,
{
    lemma_fundamental_div_mod(i, w);
    lemma_mod_bound(i, w);
    lemma_div_pos_is_pos(i, w);
    assert((i / w) * w == w * (i / w)) by (nonlinear_arith);
    assert(i == (i / w) * w + i % w);
    assert(i / w < h) by (nonlinear_arith)
        requires
            w >= 1,
            h >= 1,
            i < w * h,
            i == (i / w) * w + i % w,
            0 <= i % w < w,
            0 <= i / w,
    ;
}

/// A cell connected to anything keeps its connections when passages are
/// only ever added.
pub proof fn lemma_connected_monotone(g1: Grid, g2: Grid, a: int, b: int)
    requires
        links_extend(g1, g2),
        g1.connected(a, b),
    ensures
        g2.connected(a, b),
{
    let p = choose|p: Seq<int>| g1.is_path(p, a, b);
    assert forall|k: int| 0 <= k < p.len() - 1 implies #[trigger] g2.linked(p[k], p[k + 1]) by {
        assert(g1.linked(p[k], p[k + 1]));
    }
    assert(g2.is_path(p, a, b));
}

/// Every cell is connected to itself by the one-cell walk.
pub proof fn lemma_connected_refl(g: Grid, a: int)
    ensures
        g.connected(a, a),
{
    let p = seq![a];
    assert(g.is_path(p, a, a));
}

/// Following one more passage extends a walk.
pub proof fn lemma_connected_step(g: Grid, a: int, b: int, c: int)
    requires
        g.connected(a, b),
        g.linked(b, c),
    ensures
        g.connected(a, c),
{
    let p = choose|p: Seq<int>| g.is_path(p, a, b);
    let q = p.push(c);
    assert forall|k: int| 0 <= k < q.len() - 1 implies #[trigger] g.linked(q[k], q[k + 1]) by {
        if k < p.len() - 1 {
            assert(g.linked(p[k], p[k + 1]));
        }
    }
    assert(g.is_path(q, a, c));
}

/// With symmetric passages, walks reverse.
pub proof fn lemma_connected_sym(g: Grid, a: int, b: int)
    requires
        g.links_sym(),
        g.connected(a, b),
    ensures
        g.connected(b, a),
{
    let p = choose|p: Seq<int>| g.is_path(p, a, b);
    let n = p.len() as int;
    let q = Seq::new(p.len(), |k: int| p[n - 1 - k]);
    assert forall|k: int| 0 <= k < q.len() - 1 implies #[trigger] g.linked(q[k], q[k + 1]) by {
        let k2 = n - 2 - k;
        assert(g.linked(p[k2], p[k2 + 1]));
        assert(q[k] == p[k2 + 1]);
        assert(q[k + 1] == p[k2]);
    }
    assert(g.is_path(q, b, a));
}

/// Walks concatenate.
pub proof fn lemma_connected_trans(g: Grid, a: int, b: int, c: int)
    requires
        g.connected(a, b),
        g.connected(b, c),
    ensures
        g.connected(a, c),
{
    let p1 = choose|p: Seq<int>| g.is_path(p, a, b);
    let p2 = choose|p: Seq<int>| g.is_path(p, b, c);
    let q = p1 + p2.skip(1);
    assert(q.len() == p1.len() + p2.len() - 1);
    assert forall|k: int| 0 <= k < q.len() - 1 implies #[trigger] g.linked(q[k], q[k + 1]) by {
        if k < p1.len() - 1 {
            assert(g.linked(p1[k], p1[k + 1]));
        } else if k == p1.len() - 1 {
            assert(q[k] == b);
            assert(q[k + 1] == p2[1]);
            assert(g.linked(p2[0], p2[1]));
        } else {
            let k2 = k - p1.len();
            assert(q[k] == p2[k2 + 1]);
            assert(q[k + 1] == p2[k2 + 2]);
            assert(g.linked(p2[k2 + 1], p2[k2 + 2]));
        }
    }
    assert(q[q.len() - 1] == c);
    assert(g.is_path(q, a, c));
}

/// The neighbour enumeration of a cell holds exactly the values of its
/// present neighbour fields.
pub proof fn lemma_neighbour_seq_contains(c: Cell, p: (u16, u16))
    ensures
        c.neighbour_seq().contains(p) <==> (c.top == Some(p) || c.bottom == Some(p) || c.left
            == Some(p) || c.right == Some(p)),
{
    let s = c.neighbour_seq();
    let st = crate::maze::cell::opt_pos_seq(c.top);
    let sb = crate::maze::cell::opt_pos_seq(c.bottom);
    let sl = crate::maze::cell::opt_pos_seq(c.left);
    let sr = crate::maze::cell::opt_pos_seq(c.right);
    if s.contains(p) {
        let k = choose|k: int| 0 <= k < s.len() && s[k] == p;
        assert(c.top == Some(p) || c.bottom == Some(p) || c.left == Some(p) || c.right == Some(p));
    }
    if c.top == Some(p) {
        assert(s[0] == p);
        assert(s.contains(p));
    } else if c.bottom == Some(p) {
        let k = st.len() as int;
        assert(s[k] == p);
        assert(s.contains(p));
    } else if c.left == Some(p) {
        let k = st.len() + sb.len();
        assert(s[k as int] == p);
        assert(s.contains(p));
    } else if c.right == Some(p) {
        let k = st.len() + sb.len() + sl.len();
        assert(s[k as int] == p);
        assert(s.contains(p));
    }
}

/// A position enumerated among cell `i`'s neighbours names an in-bounds
/// cell, adjacent to `i`, whose flat index is its row-major flattening.
pub proof fn lemma_neighbour_entry(g: Grid, i: int, p: (u16, u16))
    requires
        g.wf(),
        0 <= i < g.cells@.len(),
        g.cells@[i].neighbour_seq().contains(p),
    ensures
        0 <= p.0 * g.width + p.1 < g.cells@.len(),
        g.pos_of(p.0 * g.width + p.1) == p,
        g.adj(i, p.0 * g.width + p.1),
{
    let w = g.width as int;
    let h = g.height as int;
    g.lemma_cell_coords(i);
    let cell = g.cells@[i];
    let r = cell.row as int;
    let c = cell.col as int;
    lemma_neighbour_seq_contains(cell, p);
    assert(g.cell_ok(r, c));
    lemma_flat_in_range(w, h, p.0 as int, p.1 as int);
    assert(g.cell_ok(p.0 as int, p.1 as int));
}

/// Conversely, the position of every cell adjacent to `i` is enumerated
/// among `i`'s neighbours.
pub proof fn lemma_adj_is_neighbour(g: Grid, i: int, j: int)
    requires
        g.wf(),
        g.adj(i, j),
    ensures
        g.cells@[i].neighbour_seq().contains(g.pos_of(j)),
{
    g.lemma_cell_coords(i);
    g.lemma_cell_coords(j);
    let cell = g.cells@[i];
    let r = cell.row as int;
    let c = cell.col as int;
    assert(g.cell_ok(r, c));
    lemma_neighbour_seq_contains(cell, g.pos_of(j));
}

/// The visited cells are closed under adjacency: every neighbour of a
/// visited cell is itself visited.
pub open spec fn visited_closed(g: Grid) -> bool {
    forall|i: int, j: int| g.visited(i) && #[trigger] g.adj(i, j) ==> g.visited(j)
}

/// Walking the grid graph from a visited cell of an adjacency-closed
/// visited set reaches only visited cells — and the grid graph reaches
/// every cell.
proof fn lemma_closed_reach(g: Grid, i: int, j: int)
    requires
        g.wf(),
        visited_closed(g),
        0 <= i < g.cells@.len(),
        0 <= j < g.cells@.len(),
        g.visited(i),
    ensures
        g.visited(j),
    decreases dist(g.cells@[i].row as int, g.cells@[j].row as int) + dist(
        g.cells@[i].col as int,
        g.cells@[j].col as int,
    ),
{
    let w = g.width as int;
    let h = g.height as int;
    g.lemma_cell_coords(i);
    g.lemma_cell_coords(j);
    let ri = g.cells@[i].row as int;
    let ci = g.cells@[i].col as int;
    let rj = g.cells@[j].row as int;
    let cj = g.cells@[j].col as int;
    if ri < rj {
        let i2 = g.flat(ri + 1, ci);
        lemma_flat_in_range(w, h, ri + 1, ci);
        assert(g.cell_ok(ri + 1, ci));
        assert(g.adj(i, i2));
        lemma_closed_reach(g, i2, j);
    } else if ri > rj {
        let i2 = g.flat(ri - 1, ci);
        lemma_flat_in_range(w, h, ri - 1, ci);
        assert(g.cell_ok(ri - 1, ci));
        assert(g.adj(i, i2));
        lemma_closed_reach(g, i2, j);
    } else if ci < cj {
        let i2 = g.flat(ri, ci + 1);
        lemma_flat_in_range(w, h, ri, ci + 1);
        assert(g.cell_ok(ri, ci + 1));
        assert(g.adj(i, i2));
        lemma_closed_reach(g, i2, j);
    } else if ci > cj {
        let i2 = g.flat(ri, ci - 1);
        lemma_flat_in_range(w, h, ri, ci - 1);
        assert(g.cell_ok(ri, ci - 1));
        assert(g.adj(i, i2));
        lemma_closed_reach(g, i2, j);
    } else {
        g.lemma_pos_injective(i, j);
    }
}

/// A nonempty, adjacency-closed visited set covers the whole grid.
pub proof fn lemma_closed_all_visited(g: Grid, v: int)
    requires
        g.wf(),
        visited_closed(g),
        0 <= v < g.cells@.len(),
        g.visited(v),
    ensures
        forall|i: int| 0 <= i < g.cells@.len() ==> #[trigger] g.visited(i),
{
    assert forall|i: int| 0 <= i < g.cells@.len() implies #[trigger] g.visited(i) by {
        lemma_closed_reach(g, v, i);
    }
}

/// No cell of a well-formed maze has a passage to itself, and every
/// recorded passage has its companion in the other direction.
pub proof fn lemma_no_self_passage_and_symmetry(g: Grid)
    requires
        g.wf(),
        g.links_wf(),
        g.links_sym(),
    ensures
        forall|i: int| 0 <= i < g.cells@.len() ==> !g.linked(i, i),
        forall|i: int, j: int| #[trigger] g.linked(i, j) ==> g.linked(j, i),
{
    assert forall|i: int| 0 <= i < g.cells@.len() implies !g.linked(i, i) by {
        if g.linked(i, i) {
            let e = choose|e: int|
                0 <= e < g.links_at(i).len() && g.links_at(i)[e] == g.pos_of(i);
            assert(g.link_entry_ok(i, e));
        }
    }
}

/// For any grid: cells of row 0 have no top neighbour, cells of the last
/// row no bottom, cells of column 0 no left, cells of the last column no
/// right — and only those; every interior cell has all four.
pub proof fn lemma_boundary_neighbours(g: Grid, r: int, c: int)
    requires
        g.wf(),
        0 <= r < g.height,
        0 <= c < g.width,
    ensures
        g.cells@[g.flat(r, c)].top is None <==> r == 0,
        g.cells@[g.flat(r, c)].bottom is None <==> r == g.height - 1,
        g.cells@[g.flat(r, c)].left is None <==> c == 0,
        g.cells@[g.flat(r, c)].right is None <==> c == g.width - 1,
{
    assert(g.cell_ok(r, c));
}

/// Adjacency wiring is deterministic: two freshly initialized grids of the
/// same dimensions agree cell by cell — same coordinates, same neighbour
/// wiring, and no passages in either.
pub proof fn lemma_init_deterministic(g1: Grid, g2: Grid)
    requires
        g1.wf(),
        g2.wf(),
        g1.all_unlinked(),
        g2.all_unlinked(),
        g1.width == g2.width,
        g1.height == g2.height,
    ensures
        g1.cells@.len() == g2.cells@.len(),
        forall|i: int|
            0 <= i < g1.cells@.len() ==> #[trigger] cell_meta_eq(g1.cells@[i], g2.cells@[i]),
        forall|i: int| 0 <= i < g1.cells@.len() ==> g1.links_at(i) =~= g2.links_at(i),
{
    assert forall|i: int|
        0 <= i < g1.cells@.len() implies #[trigger] cell_meta_eq(g1.cells@[i], g2.cells@[i]) by {
        g1.lemma_cell_coords(i);
        g2.lemma_cell_coords(i);
        let w = g1.width as int;
        lemma_flat_decompose(w, g1.height as int, i);
        assert(g1.cell_ok(i / w, i % w));
        assert(g2.cell_ok(i / w, i % w));
    }
    assert forall|i: int| 0 <= i < g1.cells@.len() implies g1.links_at(i) =~= g2.links_at(i) by {
        assert(g1.links_at(i).len() == 0);
        assert(g2.links_at(i).len() == 0);
    }
}

impl Grid {
    /// The coordinates a well-formed grid stores at index `i` match the
    /// row-major decomposition of `i`, and flattening them gives `i` back.
    pub proof fn lemma_cell_coords(self, i: int)
        requires
            self.wf(),
            0 <= i < self.cells@.len(),
        ensures
            self.cells@[i].row < self.height,
            self.cells@[i].col < self.width,
            self.flat(self.cells@[i].row as int, self.cells@[i].col as int) == i,
            self.cell_ok(self.cells@[i].row as int, self.cells@[i].col as int),
    {
        let w = self.width as int;
        let h = self.height as int;
        lemma_flat_decompose(w, h, i);
        let r = i / w;
        let c = i % w;
        assert(self.cell_ok(r, c));
        assert(self.flat(r, c) == i);
    }

    /// Two distinct cells of a well-formed grid occupy distinct positions.
    pub proof fn lemma_pos_injective(self, i: int, j: int)
        requires
            self.wf(),
            0 <= i < self.cells@.len(),
            0 <= j < self.cells@.len(),
            self.pos_of(i) == self.pos_of(j),
        ensures
            i == j,
    {
        self.lemma_cell_coords(i);
        self.lemma_cell_coords(j);
    }
}

} // verus!
