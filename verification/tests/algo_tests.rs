use rs_mazegen::algos::{recursive_backtracking, sidewinder};
use rs_mazegen::maze::grid::Grid;
use rs_mazegen::presenter::presenter::console_lines;
use rs_mazegen::presenter::to_img::{image_height, image_width, Image};
use rs_mazegen::rng::rng_from_seed;

/// All passage entries of every cell, as (from, to) position pairs.
fn passage_pairs(grid: &Grid) -> Vec<((u16, u16), (u16, u16))> {
    let mut pairs = Vec::new();
    for cell in &grid.cells {
        for link in &cell.links {
            pairs.push(((cell.row, cell.col), *link));
        }
    }
    pairs
}

/// Checks the spanning-tree shape at runtime: degree sum `2 * (n - 1)`,
/// every passage mutual, none to itself or a non-neighbour.
fn assert_perfect(grid: &Grid) {
    let n = (grid.width as usize) * (grid.height as usize);
    let pairs = passage_pairs(grid);
    assert_eq!(2 * (n - 1), pairs.len());
    for ((fr, fc), (tr, tc)) in &pairs {
        let row_gap = (*fr as i32 - *tr as i32).abs();
        let col_gap = (*fc as i32 - *tc as i32).abs();
        assert_eq!(1, row_gap + col_gap);
        assert!(pairs.contains(&((*tr, *tc), (*fr, *fc))));
    }
}

#[test]
fn recursive_backtracking_build() {
    let mut grid = Grid::new(15, 15).unwrap();
    grid.init_grid();

    let mut rng = rng_from_seed(11);
    recursive_backtracking::build_maze(&mut grid, &mut rng);

    let img = Image::new(20, 2);
    let pix = img.render(&grid);
    assert!(image_width(&pix) > 0);
}

#[test]
fn sidewinder_build() {
    let mut grid = Grid::new(5, 5).unwrap();
    grid.init_grid();

    let mut rng = rng_from_seed(3);
    sidewinder::build_maze(&mut grid, &mut rng);

    let lines = console_lines(&grid);
    assert!(!lines.is_empty());
}

#[test]
fn backtracking_carves_a_spanning_tree() {
    let mut grid = Grid::new(7, 4).unwrap();
    grid.init_grid();
    let mut rng = rng_from_seed(123);
    recursive_backtracking::build_maze(&mut grid, &mut rng);
    assert_perfect(&grid);
}

#[test]
fn sidewinder_carves_a_spanning_tree() {
    let mut grid = Grid::new(7, 4).unwrap();
    grid.init_grid();
    let mut rng = rng_from_seed(123);
    sidewinder::build_maze(&mut grid, &mut rng);
    assert_perfect(&grid);
}

#[test]
fn single_cell_backtracking_has_no_passages() {
    let mut grid = Grid::new(1, 1).unwrap();
    grid.init_grid();
    let mut rng = rng_from_seed(5);
    recursive_backtracking::build_maze(&mut grid, &mut rng);

    assert_eq!(1, grid.cells.len());
    assert_eq!(false, grid.cells[0].has_linked_cells());
}

#[test]
fn single_row_sidewinder_is_one_corridor() {
    let mut grid = Grid::new(6, 1).unwrap();
    grid.init_grid();
    let mut rng = rng_from_seed(9);
    sidewinder::build_maze(&mut grid, &mut rng);

    // exactly width - 1 passages, all horizontal, one continuous corridor
    let pairs = passage_pairs(&grid);
    assert_eq!(2 * 5, pairs.len());
    for ((fr, _), (tr, _)) in &pairs {
        assert_eq!(0, *fr);
        assert_eq!(0, *tr);
    }
    for c in 0..5u16 {
        let cell = grid.cell_at(0, c);
        let right = grid.cell_at(0, c + 1);
        assert!(cell.is_linked_to(right));
    }
}

#[test]
fn fixed_seed_is_reproducible() {
    for algo in 0..2 {
        let mut first = Grid::new(5, 5).unwrap();
        first.init_grid();
        let mut second = Grid::new(5, 5).unwrap();
        second.init_grid();

        let mut rng1 = rng_from_seed(2024);
        let mut rng2 = rng_from_seed(2024);
        if algo == 0 {
            recursive_backtracking::build_maze(&mut first, &mut rng1);
            recursive_backtracking::build_maze(&mut second, &mut rng2);
        } else {
            sidewinder::build_maze(&mut first, &mut rng1);
            sidewinder::build_maze(&mut second, &mut rng2);
        }

        assert_eq!(passage_pairs(&first), passage_pairs(&second));
    }
}

#[test]
fn draw() {
    let mut grid = Grid::new(10, 10).unwrap();
    grid.init_grid();

    let mut rng = rng_from_seed(77);
    sidewinder::build_maze(&mut grid, &mut rng);

    let img = Image::new(20, 2);
    let pix = img.render(&grid);

    // 10 cells of 20 pixels and 11 walls of 2 pixels on each side
    assert_eq!(222, image_width(&pix));
    assert_eq!(222, image_height(&pix));
}

#[test]
fn render_opens_exactly_the_shared_passages() {
    let mut grid = Grid::new(5, 5).unwrap();
    grid.init_grid();
    let mut rng = rng_from_seed(31);
    recursive_backtracking::build_maze(&mut grid, &mut rng);

    // cell size 4, wall thickness 2: the stride is 6
    let img = Image::new(4, 2);
    let pix = img.render(&grid);
    let background = [240u8, 240, 240];
    let wall = [0u8, 0, 0];

    // the outer border is drawn
    assert_eq!(wall, pix.buf.get_pixel(0, 0).0);

    // a boundary band is open exactly where the two cells share a passage
    for r in 0..5u16 {
        for c in 0..4u16 {
            let linked = grid.cell_at(r, c).is_linked_to(grid.cell_at(r, c + 1));
            let expected = if linked { background } else { wall };
            let px = (c as u32 + 1) * 6;
            let py = (r as u32) * 6 + 2;
            assert_eq!(expected, pix.buf.get_pixel(px, py).0);
        }
    }
    for r in 0..4u16 {
        for c in 0..5u16 {
            let linked = grid.cell_at(r, c).is_linked_to(grid.cell_at(r + 1, c));
            let expected = if linked { background } else { wall };
            let px = (c as u32) * 6 + 2;
            let py = (r as u32 + 1) * 6;
            assert_eq!(expected, pix.buf.get_pixel(px, py).0);
        }
    }
}
