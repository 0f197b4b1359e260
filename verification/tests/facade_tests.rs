use rs_mazegen::presenter::presenter::console_lines;
use rs_mazegen::presenter::to_img::{image_height, image_width};
use rs_mazegen::rng::rng_from_seed;
use rs_mazegen::{Algo, MazeError, MazeGen};

#[test]
fn build_defaults_to_twenty_by_twenty() {
    let mut m = MazeGen::new();
    let mut rng = rng_from_seed(1);
    m.build(&mut rng).unwrap();

    let grid = m.get_maze().as_ref().unwrap();
    assert_eq!(20, grid.width);
    assert_eq!(20, grid.height);
}

#[test]
fn init_sets_the_geometry() {
    let mut m = MazeGen::new();
    m.init(15, 50).unwrap();
    let mut rng = rng_from_seed(2);
    m.build(&mut rng).unwrap();

    let grid = m.get_maze().as_ref().unwrap();
    assert_eq!(15, grid.width);
    assert_eq!(50, grid.height);
}

#[test]
fn init_rejects_zero_dimensions() {
    let mut m = MazeGen::new();
    assert_eq!(MazeError::InvalidDimensions, m.init(0, 7).unwrap_err());
    assert_eq!(MazeError::InvalidDimensions, m.init(7, 0).unwrap_err());
    assert!(m.get_maze().is_none());
}

#[test]
fn unimplemented_algorithms_are_reported() {
    let mut rng = rng_from_seed(3);
    for algo in [
        Algo::BinaryTree,
        Algo::Prim,
        Algo::Kruskal,
        Algo::Eller,
        Algo::HuntAndKill,
        Algo::AldousBroder,
        Algo::Wilson,
        Algo::RecursiveDivision,
        Algo::GrowingTree,
    ] {
        let mut m = MazeGen::new();
        assert_eq!(
            MazeError::UnsupportedAlgorithm,
            m.build_with(algo, &mut rng).unwrap_err()
        );
    }
}

#[test]
fn build_with_sidewinder_builds() {
    let mut m = MazeGen::new();
    m.init(5, 5).unwrap();
    let mut rng = rng_from_seed(4);
    m.build_with(Algo::Sidewinder, &mut rng).unwrap();
    assert!(m.get_maze().is_some());
}

#[test]
fn five_by_five_image_is_112_pixels_square() {
    let mut m = MazeGen::new();
    m.init(5, 5).unwrap();
    let mut rng = rng_from_seed(5);
    m.build_with(Algo::RecursiveBacktracking, &mut rng).unwrap();
    m.img_config(20, 2);

    let (pix, file) = m.save_as_img("test_maze");
    assert_eq!(112, image_width(&pix));
    assert_eq!(112, image_height(&pix));
    assert_eq!("test_maze.png", file.as_str());
}

#[test]
fn default_image_config_is_applied_on_save() {
    let mut m = MazeGen::new();
    m.init(5, 5).unwrap();
    let mut rng = rng_from_seed(6);
    m.build(&mut rng).unwrap();

    let (pix, _) = m.save_as_img("plain");
    // the default cell size 20 and wall thickness 2 give 112 pixels
    assert_eq!(112, image_width(&pix));
    assert_eq!(112, image_height(&pix));
}

#[test]
fn console_lines_of_a_single_cell() {
    let mut m = MazeGen::new();
    m.init(1, 1).unwrap();
    let grid = m.get_maze().as_ref().unwrap();

    let lines = console_lines(grid);
    assert_eq!(3, lines.len());
    assert_eq!(b"+----+".to_vec(), lines[0]);
    assert_eq!(b"|    |".to_vec(), lines[1]);
    assert_eq!(b"+----+".to_vec(), lines[2]);
}

#[test]
fn console_lines_shape() {
    let mut m = MazeGen::new();
    m.init(4, 3).unwrap();
    let mut rng = rng_from_seed(8);
    m.build(&mut rng).unwrap();
    let grid = m.get_maze().as_ref().unwrap();

    let lines = console_lines(grid);
    assert_eq!(1 + 2 * 3, lines.len());
    for line in &lines {
        assert_eq!(1 + 5 * 4, line.len());
    }
}
