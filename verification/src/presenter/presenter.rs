//! Console rendering: the maze as fixed-width ASCII rows. Every cell is
//! four characters wide; `+` marks corners, `-` and `|` closed walls, and
//! blanks open passages. The renderer computes the exact bytes of each
//! line; printing them is the caller's business.

use vstd::prelude::*;

use crate::maze::grid::Grid;

verus! {

/// ASCII `+`, the corner mark.
pub const CORNER: u8 = 43;

/// ASCII `-`, a closed wall below.
pub const DASH: u8 = 45;

/// ASCII `|`, a closed wall to the side.
pub const WALL: u8 = 124;

/// ASCII blank, an open passage or a cell interior.
pub const BLANK: u8 = 32;

/// The repeated `+----` segments of the top border.
pub open spec fn border_prefix(c: int) -> Seq<u8>
    decreases c,
{
    if c <= 0 {
        Seq::empty()
    } else {
        border_prefix(c - 1) + seq![CORNER, DASH, DASH, DASH, DASH]
    }
}

/// The whole top border: one `+----` segment per column, closed by `+`.
pub open spec fn top_border_spec(w: int) -> Seq<u8> {
    border_prefix(w) + seq![CORNER]
}

/// The character east of cell `(r, c)`: blank where a passage leads right,
/// a wall otherwise.
pub open spec fn body_char(g: Grid, r: int, c: int) -> u8 {
    if c + 1 < g.width && g.linked(g.flat(r, c), g.flat(r, c + 1)) {
        BLANK
    } else {
        WALL
    }
}

/// The first `c` cells of a row's body line: four blanks of cell interior,
/// then the east boundary.
pub open spec fn body_prefix(g: Grid, r: int, c: int) -> Seq<u8>
    decreases c,
{
    if c <= 0 {
        Seq::empty()
    } else {
        body_prefix(g, r, c - 1) + seq![BLANK, BLANK, BLANK, BLANK, body_char(g, r, c - 1)]
    }
}

/// A row's body line: the west wall, then every cell with its east
/// boundary.
pub open spec fn body_line_spec(g: Grid, r: int) -> Seq<u8> {
    seq![WALL] + body_prefix(g, r, g.width as int)
}

/// The character south of cell `(r, c)`: blank where a passage leads down,
/// a wall otherwise.
pub open spec fn sep_char(g: Grid, r: int, c: int) -> u8 {
    if r + 1 < g.height && g.linked(g.flat(r, c), g.flat(r + 1, c)) {
        BLANK
    } else {
        DASH
    }
}

/// The first `c` cells of a row's separator line: the south boundary of
/// each cell, closed by a corner.
pub open spec fn sep_prefix(g: Grid, r: int, c: int) -> Seq<u8>
    decreases c,
{
    if c <= 0 {
        Seq::empty()
    } else {
        sep_prefix(g, r, c - 1) + seq![
            sep_char(g, r, c - 1),
            sep_char(g, r, c - 1),
            sep_char(g, r, c - 1),
            sep_char(g, r, c - 1),
            CORNER,
        ]
    }
}

/// A row's separator line: a corner, then every cell's south boundary with
/// its closing corner.
pub open spec fn sep_line_spec(g: Grid, r: int) -> Seq<u8> {
    seq![CORNER] + sep_prefix(g, r, g.width as int)
}

/// The full console picture of the maze: the top border, then for every
/// row its body line and its separator line, each line as ASCII bytes.
#[verifier::loop_isolation(false)]
pub fn console_lines(grid: &Grid) -> (lines: Vec<Vec<u8>>)
    requires
        grid.wf(),
    ensures
        lines@.len() == 1 + 2 * grid.height,
        lines@[0]@ == top_border_spec(grid.width as int),
        forall|r: int|
            0 <= r < grid.height ==> (#[trigger] lines@[2 * r + 1])@ == body_line_spec(*grid, r)
                && lines@[2 * r + 2]@ == sep_line_spec(*grid, r),
{
    let w = grid.width;
    let h = grid.height;
    let ghost wi = w as int;
    let ghost hi = h as int;
    let mut lines: Vec<Vec<u8>> = Vec::new();

    let mut border: Vec<u8> = Vec::new();
    let mut c: u16 = 0;
    while c < w
        invariant
            c <= w,
            border@ =~= border_prefix(c as int),
        decreases w - c,
    {
        border.push(CORNER);
        border.push(DASH);
        border.push(DASH);
        border.push(DASH);
        border.push(DASH);
        proof {
            assert(border@ =~= border_prefix(c as int + 1));
        }
        c = c + 1;
    }
    border.push(CORNER);
    proof {
        assert(border@ =~= top_border_spec(wi));
    }
    lines.push(border);

    let mut r: u16 = 0;
    while r < h
        invariant
            r <= h,
            lines@.len() == 1 + 2 * r,
            lines@[0]@ == top_border_spec(wi),
            forall|r2: int|
                0 <= r2 < r ==> (#[trigger] lines@[2 * r2 + 1])@ == body_line_spec(*grid, r2)
                    && lines@[2 * r2 + 2]@ == sep_line_spec(*grid, r2),
        decreases h - r,
    {
        let ghost ri = r as int;
        let mut body: Vec<u8> = Vec::new();
        let mut sep: Vec<u8> = Vec::new();
        body.push(WALL);
        sep.push(CORNER);
        let mut c: u16 = 0;
        while c < w
            invariant
                c <= w,
                r < h,
                body@ =~= seq![WALL] + body_prefix(*grid, ri, c as int),
                sep@ =~= seq![CORNER] + sep_prefix(*grid, ri, c as int),
            decreases w - c,
        {
            let ghost ci = c as int;
            proof {
                crate::maze::graph::lemma_flat_in_range(wi, hi, ri, ci);
                crate::maze::graph::lemma_grid_size_fits(wi, hi);
                assert(grid.cell_ok(ri, ci));
            }
            let i = (r as usize) * (w as usize) + (c as usize);

            body.push(BLANK);
            body.push(BLANK);
            body.push(BLANK);
            body.push(BLANK);
            let mut open_right = false;
            if c + 1 < w {
                proof {
                    crate::maze::graph::lemma_flat_in_range(wi, hi, ri, ci + 1);
                }
                open_right = grid.cells[i].is_linked_to(&grid.cells[i + 1]);
            }
            if open_right {
                body.push(BLANK);
            } else {
                body.push(WALL);
            }

            let mut open_below = false;
            if r + 1 < h {
                proof {
                    crate::maze::graph::lemma_flat_in_range(wi, hi, ri + 1, ci);
                    assert((ri + 1) * wi == ri * wi + wi) by (nonlinear_arith);
                }
                open_below = grid.cells[i].is_linked_to(&grid.cells[i + (w as usize)]);
            }
            let down = if open_below {
                BLANK
            } else {
                DASH
            };
            sep.push(down);
            sep.push(down);
            sep.push(down);
            sep.push(down);
            sep.push(CORNER);

            proof {
                assert(open_right == (ci + 1 < wi && grid.linked(
                    grid.flat(ri, ci),
                    grid.flat(ri, ci + 1),
                )));
                assert(open_below == (ri + 1 < hi && grid.linked(
                    grid.flat(ri, ci),
                    grid.flat(ri + 1, ci),
                )));
                assert(body@ =~= seq![WALL] + body_prefix(*grid, ri, ci + 1));
                assert(sep@ =~= seq![CORNER] + sep_prefix(*grid, ri, ci + 1));
            }
            c = c + 1;
        }
        proof {
            assert(body@ =~= body_line_spec(*grid, ri));
            assert(sep@ =~= sep_line_spec(*grid, ri));
        }
        let ghost lines0 = lines@;
        lines.push(body);
        lines.push(sep);
        proof {
            assert forall|r2: int|
                0 <= r2 < r + 1 implies (#[trigger] lines@[2 * r2 + 1])@ == body_line_spec(
                *grid,
                r2,
            ) && lines@[2 * r2 + 2]@ == sep_line_spec(*grid, r2) by {
                if r2 < r {
                    assert(lines@[2 * r2 + 1] == lines0[2 * r2 + 1]);
                    assert(lines@[2 * r2 + 2] == lines0[2 * r2 + 2]);
                    assert((lines0[2 * r2 + 1])@ == body_line_spec(*grid, r2));
                } else {
                    assert(lines@[2 * r2 + 1]@ == body_line_spec(*grid, r2));
                }
            }
        }
        r = r + 1;
    }
    lines
}

} // verus!
