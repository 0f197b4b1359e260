//! Sidewinder: sweeps the rows top to bottom, keeping a "run" of
//! contiguous same-row cells that are not yet connected upward. Each cell
//! joins the run and either extends it rightward or closes it; a closing
//! run carves one passage up from a random member. Row 0 has no upward
//! escape, so it closes only at the row's end and becomes one corridor.

use vstd::prelude::*;

use crate::maze::graph::{
    degree_upto, lemma_connected_monotone, lemma_connected_refl, lemma_connected_step,
    lemma_connected_sym, lemma_connected_trans, lemma_flat_in_range, lemma_grid_size_fits,
    lemma_link_step_facts, link_step,
};
use crate::maze::grid::Grid;
use crate::rng::{rand_below, rand_coin};
use rand::rngs::StdRng;

verus! {

/// Carves a perfect maze into a freshly initialized grid by the sidewinder
/// row sweep. Row 0 always comes out as one horizontal corridor.
#[verifier::loop_isolation(false)]
#[verifier::rlimit(60)]
pub fn build_maze(grid: &mut Grid, rng: &mut StdRng)
    requires
        old(grid).wf(),
        old(grid).all_unlinked(),
    ensures
        final(grid).width == old(grid).width,
        final(grid).height == old(grid).height,
        final(grid).perfect_maze(),
        forall|c: int| 0 <= c < final(grid).width - 1 ==> #[trigger] final(grid).linked(c, c + 1),
{
    let w = grid.width;
    let h = grid.height;
    let ghost wi = w as int;
    let ghost hi = h as int;
    let ghost ni = grid.cells@.len() as int;
    let ghost mut carves: int = 0;
    proof {
        assert forall|t: int|
            0 <= t < grid.cells@.len() implies #[trigger] grid.cells@[t].links@.len() == 0 by {
            assert(grid.links_at(t).len() == 0);
        }
        crate::maze::graph::lemma_counts_all_unlinked(grid.cells@, ni);
        lemma_grid_size_fits(wi, hi);
    }

    let mut r: u16 = 0;
    while r < h
        invariant
            r <= h,
            grid.width == w,
            grid.height == h,
            grid.cells@.len() == ni,
            grid.wf(),
            grid.links_wf(),
            grid.links_sym(),
            grid.links_dup_free(),
            carves == (if r == 0 {
                0int
            } else {
                r * wi - 1
            }),
            degree_upto(grid.cells@, ni) == 2 * carves,
            forall|i: int| r * wi <= i < ni ==> #[trigger] grid.links_at(i).len() == 0,
            forall|i: int| 0 <= i < r * wi ==> #[trigger] grid.connected(0, i),
            r >= 1 ==> forall|cc: int| 0 <= cc < wi - 1 ==> #[trigger] grid.linked(cc, cc + 1),
        decreases h - r,
    {
        let ghost ri = r as int;
        let mut run: Vec<usize> = Vec::new();
        let ghost mut s: int = 0;
        let mut c: u16 = 0;
        while c < w
            invariant
                c <= w,
                r < h,
                grid.width == w,
                grid.height == h,
                grid.cells@.len() == ni,
                grid.wf(),
                grid.links_wf(),
                grid.links_sym(),
                grid.links_dup_free(),
                0 <= s <= c as int,
                c == w ==> s == c as int,
                r == 0 ==> (s == 0 || (c == w && s == c as int)),
                run@ =~= Seq::new((c - s) as nat, |k: int| (ri * wi + s + k) as usize),
                carves == (if r == 0 {
                    (if (c as int) < wi {
                        c as int
                    } else {
                        wi - 1
                    })
                } else {
                    ri * wi - 1 + c
                }),
                degree_upto(grid.cells@, ni) == 2 * carves,
                forall|i: int|
                    ri * wi + c < i < ni ==> #[trigger] grid.links_at(i).len() == 0,
                s < c ==> grid.links_at(ri * wi + c) =~= seq![
                    grid.pos_of(ri * wi + c - 1),
                ],
                s == c ==> (ri * wi + c < ni ==> grid.links_at(ri * wi + c).len() == 0),
                forall|k: int, e: int|
                    #![trigger grid.links_at(k)[e]]
                    ri * wi + s <= k <= ri * wi + c && k < ni && 0 <= e < grid.links_at(k).len()
                        ==> grid.links_at(k)[e].0 == r,
                forall|i: int| 0 <= i < ri * wi + s ==> #[trigger] grid.connected(0, i),
                s < c ==> forall|k: int|
                    ri * wi + s <= k <= ri * wi + c ==> #[trigger] grid.connected(ri * wi + s, k),
                forall|cc: int|
                    0 <= cc < (if r == 0 {
                        (if (c as int) < wi {
                            c as int
                        } else {
                            wi - 1
                        })
                    } else {
                        wi - 1
                    }) ==> #[trigger] grid.linked(cc, cc + 1),
        decreases w - c,
        {
            proof {
                lemma_flat_in_range(wi, hi, ri, c as int);
            }
            let i = (r as usize) * (w as usize) + (c as usize);
            let ghost ci = c as int;
            let ghost x = ri * wi + ci;
            run.push(i);
            proof {
                assert(run@ =~= Seq::new((ci + 1 - s) as nat, |k: int| (ri * wi + s + k) as usize));
            }

            // close the run at the row's end, or — when an upward escape
            // exists — on a fair coin
            let at_end = grid.cells[i].right.is_none();
            let can_close_up = grid.cells[i].top.is_some();
            let close = at_end || (can_close_up && rand_coin(rng));
            proof {
                assert(grid.cell_ok(ri, ci));
                assert(at_end <==> ci == wi - 1);
                assert(can_close_up <==> ri != 0);
            }

            if close {
                // pick one member of the run; if it can reach up, carve a
                // passage to its top neighbour in both directions
                let pick = rand_below(rng, run.len());
                let m = run[pick];
                let ghost mi = ri * wi + s + pick;
                proof {
                    assert(run@[pick as int] == (ri * wi + s + pick) as usize);
                    lemma_flat_in_range(wi, hi, ri, s + pick);
                    assert(m as int == mi);
                    assert(grid.cell_ok(ri, s + pick));
                }
                if grid.cells[m].top.is_some() {
                    proof {
                        assert(ri >= 1);
                    }
                    let p = match grid.cells[m].top {
                        Some(p) => p,
                        None => vstd::pervasive::unreached(),
                    };
                    proof {
                        assert(p == (((ri - 1) as u16, (s + pick) as u16)));
                        lemma_flat_in_range(wi, hi, ri - 1, s + pick);
                        assert((ri - 1) * wi == ri * wi - wi) by (nonlinear_arith);
                    }
                    let t = (p.0 as usize) * (w as usize) + (p.1 as usize);
                    let ghost ti = mi - wi;
                    proof {
                        assert(t as int == ti);
                        assert(grid.cell_ok(ri - 1, s + pick));
                        assert(grid.pos_of(ti) == p);
                        assert(grid.pos_of(mi) != grid.pos_of(ti));
                    }
                    let ghost g1 = *grid;
                    grid.link_cells(m, t);
                    proof {
                        let rs = ri * wi + s;
                        assert(g1.adj(mi, ti));
                        // the run member has only same-row passages, so the
                        // upward passage is new
                        assert(!g1.linked(mi, ti)) by {
                            if g1.linked(mi, ti) {
                                let e = choose|e: int|
                                    0 <= e < g1.links_at(mi).len() && g1.links_at(mi)[e]
                                        == g1.pos_of(ti);
                                assert(g1.links_at(mi)[e].0 == r);
                            }
                        }
                        assert(!g1.linked(ti, mi)) by {
                            if g1.linked(ti, mi) {
                                assert(g1.linked(mi, ti));
                            }
                        }
                        assert(link_step(g1, *grid, mi, ti));
                        lemma_link_step_facts(g1, *grid, mi, ti);
                        carves = carves + 1;
                        // every cell up to and including this run is now
                        // connected to cell 0
                        assert(grid.linked(ti, mi));
                        assert(grid.connected(0, ti)) by {
                            lemma_connected_monotone(g1, *grid, 0, ti);
                        }
                        assert(grid.connected(0, mi)) by {
                            lemma_connected_step(*grid, 0, ti, mi);
                        }
                        assert forall|q: int| 0 <= q < ri * wi + ci + 1 implies #[trigger]
                            grid.connected(0, q) by {
                            if q < rs {
                                lemma_connected_monotone(g1, *grid, 0, q);
                            } else {
                                // q sits in the run: walk 0 -> m -> run head -> q
                                assert(g1.connected(rs, q)) by {
                                    if s < ci {
                                        assert(g1.connected(rs, q));
                                    } else {
                                        assert(q == rs);
                                        lemma_connected_refl(g1, q);
                                    }
                                }
                                assert(g1.connected(rs, mi)) by {
                                    if s < ci {
                                        assert(g1.connected(rs, mi));
                                    } else {
                                        lemma_connected_refl(g1, mi);
                                    }
                                }
                                lemma_connected_monotone(g1, *grid, rs, q);
                                lemma_connected_monotone(g1, *grid, rs, mi);
                                lemma_connected_sym(*grid, rs, mi);
                                lemma_connected_trans(*grid, 0, mi, rs);
                                lemma_connected_trans(*grid, 0, rs, q);
                            }
                        }
                        // the corridor of row 0 is untouched
                        assert forall|cc: int|
                            0 <= cc < (if r == 0 {
                                (if ci < wi {
                                    ci
                                } else {
                                    wi - 1
                                })
                            } else {
                                wi - 1
                            }) implies #[trigger] grid.linked(cc, cc + 1) by {
                            assert(g1.linked(cc, cc + 1));
                        }
                    }
                } else {
                    // no upward escape: this is row 0 closing at the row's
                    // end, and the whole run is already one corridor
                    proof {
                        assert(ri == 0);
                        assert(s == 0);
                        assert forall|q: int| 0 <= q < ri * wi + ci + 1 implies #[trigger]
                            grid.connected(0, q) by {
                            if s < ci {
                                assert(grid.connected(ri * wi + s, q));
                            } else {
                                assert(q == 0);
                                lemma_connected_refl(*grid, q);
                            }
                        }
                    }
                }
                run.clear();
                proof {
                    s = ci + 1;
                    assert(run@ =~= Seq::new(((ci + 1) - s) as nat, |k: int| (ri * wi + s
                        + k) as usize));
                }
            } else {
                // keep the run open: carve rightward to the next cell
                proof {
                    assert(ci < wi - 1);
                    lemma_flat_in_range(wi, hi, ri, ci + 1);
                    assert(grid.cell_ok(ri, ci + 1));
                    assert(grid.pos_of(x + 1) == ((r, (ci + 1) as u16)));
                    assert(grid.pos_of(x) != grid.pos_of(x + 1));
                }
                let t = i + 1;
                let ghost g1 = *grid;
                grid.link_cells(i, t);
                proof {
                    let rs = ri * wi + s;
                    assert(g1.adj(x, x + 1));
                    assert(!g1.linked(x + 1, x)) by {
                        assert(g1.links_at(x + 1).len() == 0);
                    }
                    assert(!g1.linked(x, x + 1)) by {
                        if g1.linked(x, x + 1) {
                            assert(g1.linked(x + 1, x));
                        }
                    }
                    assert(link_step(g1, *grid, x, x + 1));
                    lemma_link_step_facts(g1, *grid, x, x + 1);
                    carves = carves + 1;
                    // the chain of the run now reaches one cell further
                    assert(grid.linked(x, x + 1));
                    assert forall|k: int|
                        rs <= k <= x + 1 implies #[trigger] grid.connected(rs, k) by {
                        if k <= x {
                            if s < ci {
                                assert(g1.connected(rs, k));
                                lemma_connected_monotone(g1, *grid, rs, k);
                            } else {
                                assert(k == rs);
                                lemma_connected_refl(*grid, k);
                            }
                        } else {
                            if s < ci {
                                assert(g1.connected(rs, x));
                                lemma_connected_monotone(g1, *grid, rs, x);
                            } else {
                                lemma_connected_refl(*grid, rs);
                            }
                            lemma_connected_step(*grid, rs, x, x + 1);
                        }
                    }
                    assert forall|q: int| 0 <= q < rs implies #[trigger] grid.connected(0, q) by {
                        lemma_connected_monotone(g1, *grid, 0, q);
                    }
                    // row 0's corridor grows by this rightward passage
                    assert forall|cc: int|
                        0 <= cc < (if r == 0 {
                            ci + 1
                        } else {
                            wi - 1
                        }) implies #[trigger] grid.linked(cc, cc + 1) by {
                        if r == 0 && cc == ci {
                            assert(x == ci);
                            assert(grid.linked(ci, ci + 1));
                        } else {
                            assert(g1.linked(cc, cc + 1));
                        }
                    }
                }
            }
            c = c + 1;
        }
        proof {
            assert(((ri + 1) as int) * wi == ri * wi + wi) by (nonlinear_arith);
        }
        r = r + 1;
    }

    proof {
        assert(carves == hi * wi - 1);
        assert(ni == wi * hi) by (nonlinear_arith)
            requires
                ni == grid.width * grid.height,
                wi == grid.width,
                hi == grid.height,
        ;
        assert(hi * wi == wi * hi) by (nonlinear_arith);
        assert forall|a: int, b: int|
            0 <= a < ni && 0 <= b < ni implies #[trigger] grid.connected(a, b) by {
            assert(grid.connected(0, a));
            assert(grid.connected(0, b));
            lemma_connected_sym(*grid, 0, a);
            lemma_connected_trans(*grid, a, 0, b);
        }
    }
}

/// On a single-row grid the sidewinder sweep yields one horizontal
/// corridor: no vertical passage exists (every passage joins two row-0
/// cells), the `width - 1` consecutive pairs are all linked, and the
/// degree sum counts exactly `width - 1` undirected passages.
pub proof fn lemma_single_row_corridor(g: Grid)
    requires
        g.perfect_maze(),
        g.height == 1,
    ensures
        forall|i: int, j: int| #[trigger]
            g.linked(i, j) ==> g.cells@[i].row == 0 && g.cells@[j].row == 0,
        g.degree_sum() == 2 * (g.width - 1),
{
    assert forall|i: int, j: int| #[trigger]
        g.linked(i, j) implies g.cells@[i].row == 0 && g.cells@[j].row == 0 by {
        g.lemma_cell_coords(i);
        g.lemma_cell_coords(j);
    }
    assert(g.num_cells() == g.width) by (nonlinear_arith)
        requires
            g.num_cells() == g.width * g.height,
            g.height == 1,
    ;
}

} // verus!
