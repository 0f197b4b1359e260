use rs_mazegen::maze::cell::Cell;
use rs_mazegen::maze::grid::Grid;
use rs_mazegen::rng::rng_from_seed;

#[test]
fn cell_link_to() {
    let mut cell1 = Cell::new(2, 1);
    let mut cell2 = Cell::new(2, 2);

    cell1.link_to(&cell2);
    cell2.link_to(&cell1);

    assert_eq!(true, cell1.is_linked_to(&cell2));
}

#[test]
fn cell_is_not_linked_to() {
    let mut cell1 = Cell::new(2, 1);
    let mut cell2 = Cell::new(2, 2);
    let cell3 = Cell::new(3, 1);

    cell1.link_to(&cell2);
    cell2.link_to(&cell1);

    assert_eq!(false, cell1.is_linked_to(&cell3));
}

#[test]
fn cell_right_left() {
    let mut cell1 = Cell::new(2, 1);
    let mut cell2 = Cell::new(2, 2);

    cell1.right = Some((2, 2));
    cell2.left = Some((2, 1));

    assert_eq!(true, cell2.left.is_some());
}

#[test]
fn cell_neighbours() {
    let mut cell1 = Cell::new(2, 1);
    let mut cell2 = Cell::new(2, 2);

    cell1.right = Some((2, 2));
    cell1.top = Some((3, 1));
    cell2.left = Some((2, 1));

    let neighbours = cell1.neighbours();

    assert_eq!(true, !neighbours.is_empty());
}

#[test]
fn grid_create() {
    let grid = Grid::new(5, 10).unwrap();

    assert_eq!(5, grid.width);
}

#[test]
fn grid_init() {
    let mut grid = Grid::new(5, 5).unwrap();
    grid.init_grid();

    let cell = grid.cell_at(3, 2);
    let neighbours = cell.neighbours();

    assert_eq!(true, !neighbours.is_empty());
}

#[test]
fn grid_top_border_none() {
    let mut grid = Grid::new(5, 5).unwrap();
    grid.init_grid();

    let border = &grid.cell_at(0, 0).top;

    assert_eq!(true, border.is_none());
}

#[test]
fn grid_right_border_none() {
    let mut grid = Grid::new(5, 5).unwrap();
    grid.init_grid();

    let border = &grid.cell_at(0, 4).right;

    assert_eq!(true, border.is_none());
}

#[test]
fn grid_inner_cells_some() {
    let mut grid = Grid::new(5, 5).unwrap();
    grid.init_grid();

    let border = &grid.cell_at(0, 0).bottom;

    assert_eq!(true, border.is_some());
}

#[test]
fn grid_rand_cell() {
    let mut grid = Grid::new(5, 5).unwrap();
    grid.init_grid();

    let mut rng = rng_from_seed(7);
    let rand_cell = grid.get_rand_cell(&mut rng);
    let row = grid.cells[rand_cell].row;

    assert!(row < grid.height);
}

#[test]
fn grid_zero_dimension_is_an_error() {
    match Grid::new(0, 3) {
        Err(e) => assert_eq!(rs_mazegen::MazeError::InvalidDimensions, e),
        Ok(_) => panic!("a zero width must be rejected"),
    }
    match Grid::new(3, 0) {
        Err(e) => assert_eq!(rs_mazegen::MazeError::InvalidDimensions, e),
        Ok(_) => panic!("a zero height must be rejected"),
    }
}

#[test]
fn grid_init_is_idempotent() {
    let mut first = Grid::new(4, 3).unwrap();
    first.init_grid();
    let mut second = Grid::new(4, 3).unwrap();
    second.init_grid();

    assert_eq!(first.cells.len(), second.cells.len());
    for (a, b) in first.cells.iter().zip(second.cells.iter()) {
        assert_eq!(a.row, b.row);
        assert_eq!(a.col, b.col);
        assert_eq!(a.top, b.top);
        assert_eq!(a.bottom, b.bottom);
        assert_eq!(a.left, b.left);
        assert_eq!(a.right, b.right);
        assert_eq!(a.links.len(), 0);
        assert_eq!(b.links.len(), 0);
    }
}
