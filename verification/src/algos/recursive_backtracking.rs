//! Randomized recursive backtracking: depth-first carving with an explicit
//! stack. The cell on top of the stack carves a passage to a random
//! unvisited neighbour and pushes it; a cell with no unvisited neighbour is
//! popped. Passages only ever reach unvisited cells, so the carved graph
//! stays a tree, and when the stack empties it spans the whole grid.

use vstd::prelude::*;

use crate::maze::graph::{
    degree_upto, lemma_adj_is_neighbour, lemma_closed_all_visited, lemma_connected_monotone,
    lemma_connected_refl, lemma_connected_step, lemma_connected_sym, lemma_connected_trans,
    lemma_link_step_facts, lemma_neighbour_entry, lemma_visited_count_all,
    lemma_visited_count_bounds, lemma_visited_count_ge_one, lemma_visited_count_pos, link_step,
    visited_count_upto,
};
use crate::maze::grid::Grid;
use crate::rng::rand_below;
use rand::rngs::StdRng;

verus! {

/// Carves a perfect maze into a freshly initialized grid by randomized
/// depth-first backtracking.
#[verifier::loop_isolation(false)]
#[verifier::rlimit(30)]
pub fn build_maze(grid: &mut Grid, rng: &mut StdRng)
    requires
        old(grid).wf(),
        old(grid).all_unlinked(),
    ensures
        final(grid).width == old(grid).width,
        final(grid).height == old(grid).height,
        final(grid).perfect_maze(),
{
    let n = grid.cells.len();
    let ghost ni = n as int;
    let start = grid.get_rand_cell(rng);
    let mut stack: Vec<usize> = Vec::new();
    stack.push(start);
    let ghost mut carves: int = 0;
    proof {
        assert forall|t: int| 0 <= t < grid.cells@.len() implies #[trigger] grid.cells@[t].links@.len()
            == 0 by {
            assert(grid.links_at(t).len() == 0);
        }
        crate::maze::graph::lemma_counts_all_unlinked(grid.cells@, ni);
    }

    while stack.len() > 0
        invariant
            grid.width == old(grid).width,
            grid.height == old(grid).height,
            grid.cells@.len() == ni,
            grid.wf(),
            grid.links_wf(),
            grid.links_sym(),
            grid.links_dup_free(),
            0 <= carves,
            degree_upto(grid.cells@, ni) == 2 * carves,
            visited_count_upto(grid.cells@, ni) == (if carves == 0 {
                0int
            } else {
                carves + 1
            }),
            visited_count_upto(grid.cells@, ni) <= ni,
            start < n,
            forall|k: int| 0 <= k < stack@.len() ==> stack@[k] < n,
            carves > 0 ==> forall|k: int|
                0 <= k < stack@.len() ==> grid.visited(#[trigger] stack@[k] as int),
            carves == 0 ==> (stack@ == seq![start] || (stack@.len() == 0 && ni == 1)),
            forall|i: int|
                0 <= i < ni && #[trigger] grid.visited(i) ==> grid.connected(start as int, i),
            forall|i: int, j: int|
                0 <= i < ni && grid.visited(i) && !stack@.contains(i as usize) && #[trigger]
                    grid.adj(i, j) ==> grid.visited(j),
        decreases 2 * (ni - visited_count_upto(grid.cells@, ni)) + stack@.len(),
    {
        let current = stack[stack.len() - 1];

        // every geometric neighbour of the current cell that has no
        // passage yet, i.e. is unvisited
        let nbrs = grid.cells[current].neighbours();
        let mut unvisited: Vec<usize> = Vec::new();
        let mut k: usize = 0;
        while k < nbrs.len()
            invariant
                k <= nbrs@.len(),
                nbrs@ == grid.cells@[current as int].neighbour_seq(),
                forall|t: int|
                    0 <= t < unvisited@.len() ==> {
                        &&& #[trigger] unvisited@[t] < n
                        &&& grid.adj(current as int, unvisited@[t] as int)
                        &&& !grid.visited(unvisited@[t] as int)
                    },
                forall|t: int|
                    #![trigger nbrs@[t]]
                    0 <= t < k ==> {
                        let j = (nbrs@[t].0 * grid.width + nbrs@[t].1) as usize;
                        grid.visited(j as int) || unvisited@.contains(j)
                    },
            decreases nbrs@.len() - k,
        {
            let p = nbrs[k];
            proof {
                assert(nbrs@.contains(nbrs@[k as int]));
                lemma_neighbour_entry(*grid, current as int, p);
                crate::maze::graph::lemma_grid_size_fits(grid.width as int, grid.height as int);
            }
            let j = (p.0 as usize) * (grid.width as usize) + (p.1 as usize);
            let ghost uv0 = unvisited@;
            if !grid.cells[j].has_linked_cells() {
                unvisited.push(j);
                proof {
                    assert(unvisited@[unvisited@.len() - 1] == j);
                    assert(unvisited@.contains(j));
                    assert forall|t: int|
                        #![trigger nbrs@[t]]
                        0 <= t < k + 1 implies {
                        let j2 = (nbrs@[t].0 * grid.width + nbrs@[t].1) as usize;
                        grid.visited(j2 as int) || unvisited@.contains(j2)
                    } by {
                        let j2 = (nbrs@[t].0 * grid.width + nbrs@[t].1) as usize;
                        if t < k && !grid.visited(j2 as int) {
                            assert(uv0.contains(j2));
                            let u = choose|u: int| 0 <= u < uv0.len() && uv0[u] == j2;
                            assert(unvisited@[u] == j2);
                            assert(unvisited@.contains(j2));
                        }
                    }
                }
            }
            k = k + 1;
        }

        if unvisited.len() > 0 {
            // carve towards a random unvisited neighbour and descend
            let pick = rand_below(rng, unvisited.len());
            let nb = unvisited[pick];
            let ghost st0 = stack@;
            stack.push(nb);
            let ghost g1 = *grid;
            grid.link_cells(current, nb);
            proof {
                let ci = current as int;
                let bi = nb as int;
                // the target is unvisited, so this passage is new
                assert(!g1.linked(bi, ci));
                if g1.linked(ci, bi) {
                    assert(g1.linked(bi, ci));
                }
                assert(link_step(g1, *grid, ci, bi));
                lemma_link_step_facts(g1, *grid, ci, bi);
                if carves == 0 {
                    assert(st0 == seq![start]);
                    assert(current == start);
                    assert(!g1.visited(ci)) by {
                        if g1.visited(ci) {
                            lemma_visited_count_ge_one(g1.cells@, ni, ci);
                        }
                    }
                }
                carves = carves + 1;
                lemma_visited_count_bounds(grid.cells@, ni);
                // every visited cell stays connected to the start
                assert forall|i: int|
                    0 <= i < ni && #[trigger] grid.visited(i) implies grid.connected(
                    start as int,
                    i,
                ) by {
                    if i == bi {
                        if g1.visited(ci) {
                            lemma_connected_monotone(g1, *grid, start as int, ci);
                        } else {
                            lemma_connected_refl(*grid, start as int);
                        }
                        lemma_connected_step(*grid, start as int, ci, bi);
                    } else if i == ci {
                        if g1.visited(ci) {
                            lemma_connected_monotone(g1, *grid, start as int, ci);
                        } else {
                            lemma_connected_refl(*grid, start as int);
                        }
                    } else {
                        lemma_connected_monotone(g1, *grid, start as int, i);
                    }
                }
                // closure survives: both endpoints are on the stack
                assert(stack@[stack@.len() - 2] == current);
                assert(stack@.contains(current));
                assert(stack@[stack@.len() - 1] == nb);
                assert(stack@.contains(nb));
                assert forall|i: int, j: int|
                    0 <= i < ni && grid.visited(i) && !stack@.contains(i as usize) && #[trigger]
                        grid.adj(i, j) implies grid.visited(j) by {
                    assert(i != ci && i != bi);
                    assert(g1.visited(i));
                    assert(!st0.contains(i as usize)) by {
                        if st0.contains(i as usize) {
                            let u = choose|u: int| 0 <= u < st0.len() && st0[u] == i as usize;
                            assert(stack@[u] == i as usize);
                            assert(stack@.contains(i as usize));
                        }
                    }
                    assert(g1.adj(i, j));
                    assert(g1.visited(j));
                }
            }
        } else {
            // no unvisited neighbour: the current cell is finished
            let ghost st0 = stack@;
            let _popped = stack.pop();
            proof {
                let ci = current as int;
                // all geometric neighbours of the finished cell are visited
                assert forall|j: int| #[trigger] grid.adj(ci, j) implies grid.visited(j) by {
                    lemma_adj_is_neighbour(*grid, ci, j);
                    let t = choose|t: int|
                        0 <= t < nbrs@.len() && nbrs@[t] == grid.pos_of(j);
                    grid.lemma_cell_coords(j);
                    assert((nbrs@[t].0 * grid.width + nbrs@[t].1) as usize as int == j);
                }
                if carves == 0 {
                    // nothing is visited, so the finished cell has no
                    // neighbours at all: the grid is a single cell
                    assert(stack@.len() == 0);
                    assert(current == start);
                    let cell = grid.cells@[ci];
                    grid.lemma_cell_coords(ci);
                    assert forall|j: int| !#[trigger] grid.adj(ci, j) by {
                        if grid.adj(ci, j) {
                            assert(grid.visited(j));
                            lemma_visited_count_ge_one(grid.cells@, ni, j);
                        }
                    }
                    assert(cell.top is None) by {
                        if cell.top is Some {
                            let p = cell.top->0;
                            crate::maze::graph::lemma_neighbour_seq_contains(cell, p);
                            lemma_neighbour_entry(*grid, ci, p);
                        }
                    }
                    assert(cell.bottom is None) by {
                        if cell.bottom is Some {
                            let p = cell.bottom->0;
                            crate::maze::graph::lemma_neighbour_seq_contains(cell, p);
                            lemma_neighbour_entry(*grid, ci, p);
                        }
                    }
                    assert(cell.left is None) by {
                        if cell.left is Some {
                            let p = cell.left->0;
                            crate::maze::graph::lemma_neighbour_seq_contains(cell, p);
                            lemma_neighbour_entry(*grid, ci, p);
                        }
                    }
                    assert(cell.right is None) by {
                        if cell.right is Some {
                            let p = cell.right->0;
                            crate::maze::graph::lemma_neighbour_seq_contains(cell, p);
                            lemma_neighbour_entry(*grid, ci, p);
                        }
                    }
                    assert(grid.cell_ok(cell.row as int, cell.col as int));
                    assert(grid.height == 1 && grid.width == 1);
                    assert(ni == 1) by (nonlinear_arith)
                        requires
                            grid.width == 1,
                            grid.height == 1,
                            ni == grid.width * grid.height,
                    ;
                } else {
                    // closure now also covers the popped cell
                    assert forall|i: int, j: int|
                        0 <= i < ni && grid.visited(i) && !stack@.contains(i as usize)
                            && #[trigger] grid.adj(i, j) implies grid.visited(j) by {
                        if i != ci {
                            assert(!st0.contains(i as usize)) by {
                                if st0.contains(i as usize) {
                                    let t = choose|t: int|
                                        0 <= t < st0.len() && st0[t] == i as usize;
                                    if t < st0.len() - 1 {
                                        assert(stack@[t] == i as usize);
                                        assert(stack@.contains(i as usize));
                                    }
                                }
                            }
                        }
                    }
                }
            }
        }
    }

    // the stack is empty: the maze is finished
    proof {
        if carves == 0 {
            assert(ni == 1);
            assert forall|a: int, b: int|
                0 <= a < ni && 0 <= b < ni implies #[trigger] grid.connected(a, b) by {
                lemma_connected_refl(*grid, a);
            }
        } else {
            let v = lemma_visited_count_pos(grid.cells@, ni);
            assert(grid.visited(v));
            assert forall|i: int, j: int|
                grid.visited(i) && #[trigger] grid.adj(i, j) implies grid.visited(j) by {
                assert(!stack@.contains(i as usize));
            }
            lemma_closed_all_visited(*grid, v);
            assert forall|k: int| 0 <= k < ni implies #[trigger] grid.cells@[k].links@.len()
                > 0 by {
                assert(grid.visited(k));
            }
            lemma_visited_count_all(grid.cells@, ni);
            assert(carves == ni - 1);
            assert forall|a: int, b: int|
                0 <= a < ni && 0 <= b < ni implies #[trigger] grid.connected(a, b) by {
                assert(grid.visited(a));
                assert(grid.visited(b));
                lemma_connected_sym(*grid, start as int, a);
                lemma_connected_trans(*grid, a, start as int, b);
            }
        }
    }
}

} // verus!
