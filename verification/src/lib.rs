//! A maze generator. A rectangular grid of cells is wired with static
//! adjacency once; a randomized strategy then carves passages until the
//! passage graph is a spanning tree of the grid — a "perfect maze", with
//! exactly one path between any two cells. Both strategies, randomized
//! recursive backtracking and sidewinder, carry that guarantee in their
//! contracts: `Grid::perfect_maze` holds of whatever they leave behind,
//! for every seed and every grid size.
//!
//! The usual entry is [`MazeGen`]: choose the geometry with [`MazeGen::init`]
//! (the default is 20 by 20), generate with [`MazeGen::build`] or
//! [`MazeGen::build_with`] and an injected random generator, then hand the
//! maze to a solver through [`MazeGen::get_maze`] or to a renderer through
//! [`MazeGen::save_as_img`], which produces the pixel buffer and target
//! filename for the caller to write out.

use vstd::prelude::*;

pub mod algos;
pub mod maze;
pub mod presenter;
pub mod rng;

use crate::maze::grid::Grid;
use crate::presenter::to_img::{image_dims, image_pixels, Image, PixelBuffer};
use rand::rngs::StdRng;
use vstd::string::StringExecFns;

verus! {

/// Errors surfaced by the maze facade.
#[derive(Clone, Copy, PartialEq, Eq, Structural, Debug)]
pub enum MazeError {
    /// Width or height was zero at grid construction.
    InvalidDimensions,
    /// The selected generation algorithm has no implementation.
    UnsupportedAlgorithm,
}

/// The closed set of maze-generation algorithms. Only `Sidewinder` and
/// `RecursiveBacktracking` are implemented; selecting any other surfaces
/// `MazeError::UnsupportedAlgorithm` rather than aborting.
#[derive(Clone, Copy, PartialEq, Eq, Structural, Debug)]
pub enum Algo {
    BinaryTree,
    Sidewinder,
    RecursiveBacktracking,
    Prim,
    Kruskal,
    Eller,
    HuntAndKill,
    AldousBroder,
    Wilson,
    RecursiveDivision,
    GrowingTree,
}

impl Algo {
    /// The algorithms a generation run can dispatch to.
    pub open spec fn is_implemented(self) -> bool {
        self is Sidewinder || self is RecursiveBacktracking
    }
}

/// The maze generator: owns the grid under construction and the rendering
/// configuration, both empty until first use.
pub struct MazeGen {
    /// The current maze, once one was initialized or built.
    pub grid: Option<Grid>,
    /// The rendering configuration, once one was chosen.
    pub img: Option<Image>,
}

impl MazeGen {
    /// The stored grid allows re-initialization: there is none yet, or its
    /// dimensions are positive.
    pub open spec fn can_reinit(self) -> bool {
        match self.grid {
            None => true,
            Some(g) => g.width >= 1 && g.height >= 1,
        }
    }

    /// The dimensions a re-initialization keeps: those of the stored grid,
    /// or the default of 20 by 20.
    pub open spec fn reinit_width(self) -> u16 {
        match self.grid {
            None => 20,
            Some(g) => g.width,
        }
    }

    /// See `reinit_width`.
    pub open spec fn reinit_height(self) -> u16 {
        match self.grid {
            None => 20,
            Some(g) => g.height,
        }
    }

    /// The rendering configuration a save uses: the stored one, or the
    /// default of cell size 20 and wall thickness 2.
    pub open spec fn effective_img(self) -> Image {
        match self.img {
            None => Image { cell_size: 20, wall_thickness: 2, size: 22 },
            Some(im) => im,
        }
    }

    /// A generator with no maze and no rendering configuration yet.
    pub fn new() -> (m: MazeGen)
        ensures
            m.grid is None,
            m.img is None,
    {
        MazeGen { grid: None, img: None }
    }

    /// The maze in its raw form: the grid, if one was initialized or
    /// built, for a renderer or solver to traverse.
    pub fn get_maze(&self) -> (g: &Option<Grid>)
        ensures
            *g == self.grid,
    {
        &self.grid
    }

    /// Initializes the maze geometry: a fresh, fully wired grid with no
    /// passages. Zero in either dimension is an error, not an empty maze.
    pub fn init(&mut self, width: u16, height: u16) -> (r: Result<(), MazeError>)
        ensures
            r is Ok <==> (width >= 1 && height >= 1),
            r is Err ==> r == Result::<(), MazeError>::Err(MazeError::InvalidDimensions) && *final(self) == *old(self),
            r is Ok ==> (final(self).grid matches Some(g) && g.wf() && g.all_unlinked() && g.width
                == width && g.height == height),
            final(self).img == old(self).img,
    {
        match Grid::new(width, height) {
            Err(e) => Err(e),
            Ok(mut g) => {
                g.init_grid();
                self.grid = Some(g);
                Ok(())
            },
        }
    }

    /// A fresh grid with the dimensions of the current maze, or the
    /// default 20 by 20 when none was initialized yet.
    fn reinit(&self) -> (r: Result<Grid, MazeError>)
        ensures
            r is Ok <==> self.can_reinit(),
            r is Err ==> r == Result::<Grid, MazeError>::Err(MazeError::InvalidDimensions),
            r matches Ok(g) ==> g.wf() && g.all_unlinked() && g.width == self.reinit_width()
                && g.height == self.reinit_height(),
    {
        let (w, h) = match &self.grid {
            None => (20u16, 20u16),
            Some(g) => (g.width, g.height),
        };
        match Grid::new(w, h) {
            Err(e) => Err(e),
            Ok(mut g) => {
                g.init_grid();
                Ok(g)
            },
        }
    }

    /// Generates a random maze with the default algorithm,
    /// `Algo::RecursiveBacktracking`, on a fresh grid of the current
    /// dimensions (or the default 20 by 20).
    pub fn build(&mut self, rng: &mut StdRng) -> (r: Result<(), MazeError>)
        ensures
            r is Ok <==> old(self).can_reinit(),
            r is Err ==> r == Result::<(), MazeError>::Err(MazeError::InvalidDimensions) && *final(self) == *old(self),
            r is Ok ==> (final(self).grid matches Some(g) && g.perfect_maze() && g.width == old(self).reinit_width() && g.height == old(self).reinit_height()),
            final(self).img == old(self).img,
    {
        self.build_with(Algo::RecursiveBacktracking, rng)
    }

    /// Generates a random maze with the selected algorithm on a fresh grid
    /// of the current dimensions (or the default 20 by 20). An algorithm
    /// without an implementation is reported, never a crash; the grid is
    /// then left freshly initialized.
    pub fn build_with(&mut self, algo: Algo, rng: &mut StdRng) -> (r: Result<(), MazeError>)
        ensures
            r is Ok <==> (old(self).can_reinit() && algo.is_implemented()),
            r == Result::<(), MazeError>::Err(MazeError::InvalidDimensions) <==> !old(self).can_reinit(),
            r == Result::<(), MazeError>::Err(MazeError::UnsupportedAlgorithm) <==> (old(self).can_reinit() && !algo.is_implemented()),
            !old(self).can_reinit() ==> *final(self) == *old(self),
            old(self).can_reinit() ==> (final(self).grid matches Some(g) && g.wf() && g.width
                == old(self).reinit_width() && g.height == old(self).reinit_height()),
            r is Ok ==> (final(self).grid matches Some(g) && g.perfect_maze()),
            r is Err && old(self).can_reinit() ==> (final(self).grid matches Some(g)
                && g.all_unlinked()),
            final(self).img == old(self).img,
    {
        let mut g = match self.reinit() {
            Err(e) => {
                return Err(e);
            },
            Ok(g) => g,
        };
        match algo {
            Algo::Sidewinder => {
                crate::algos::sidewinder::build_maze(&mut g, rng);
                self.grid = Some(g);
                Ok(())
            },
            Algo::RecursiveBacktracking => {
                crate::algos::recursive_backtracking::build_maze(&mut g, rng);
                self.grid = Some(g);
                Ok(())
            },
            _ => {
                self.grid = Some(g);
                Err(MazeError::UnsupportedAlgorithm)
            },
        }
    }

    /// Chooses how the maze is drawn: the inner cell size and the wall
    /// thickness, in pixels.
    pub fn img_config(&mut self, cell_size: u16, wall_thickness: u16)
        requires
            cell_size + wall_thickness <= u16::MAX,
        ensures
            final(self).img matches Some(im) && im.cell_size == cell_size && im.wall_thickness
                == wall_thickness && im.size == cell_size + wall_thickness,
            final(self).grid == old(self).grid,
    {
        self.img = Some(Image::new(cell_size, wall_thickness));
    }

    /// Renders the current maze with the stored configuration (or the
    /// default of cell size 20, wall thickness 2, set as a side effect)
    /// and hands back the pixel buffer together with the target filename:
    /// the given base name with the fixed `.png` suffix appended. Writing
    /// the file is the caller's business.
    pub fn save_as_img(&mut self, filename: &str) -> (r: (PixelBuffer, String))
        requires
            old(self).grid matches Some(g) && g.wf(),
            old(self).effective_img().config_ok(),
            old(self).effective_img().fits(old(self).grid->Some_0),
        ensures
            final(self).grid == old(self).grid,
            final(self).img == Some(old(self).effective_img()),
            image_dims(r.0).0 == old(self).effective_img().px_of(old(self).grid->Some_0.width),
            image_dims(r.0).1 == old(self).effective_img().px_of(old(self).grid->Some_0.height),
            forall|row: int, col: int, px: int, py: int|
                0 <= row < old(self).grid->Some_0.height && 0 <= col < old(
                    self,
                ).grid->Some_0.width - 1 && #[trigger] old(self).effective_img().east_boundary(
                    row,
                    col,
                    px,
                    py,
                ) ==> image_pixels(r.0)[(px, py)] == crate::presenter::to_img::east_value(
                    old(self).grid->Some_0,
                    row,
                    col,
                ),
            forall|row: int, col: int, px: int, py: int|
                0 <= row < old(self).grid->Some_0.height - 1 && 0 <= col < old(
                    self,
                ).grid->Some_0.width && #[trigger] old(self).effective_img().south_boundary(
                    row,
                    col,
                    px,
                    py,
                ) ==> image_pixels(r.0)[(px, py)] == crate::presenter::to_img::south_value(
                    old(self).grid->Some_0,
                    row,
                    col,
                ),
            r.1@ == filename@ + ".png"@,
    {
        if self.img.is_none() {
            self.img_config(20, 2);
        }
        let im = match &self.img {
            Some(im) => *im,
            None => vstd::pervasive::unreached(),
        };
        let pix = match &self.grid {
            Some(g) => im.render(g),
            None => vstd::pervasive::unreached(),
        };
        let file = String::from_str(filename).concat(".png");
        (pix, file)
    }
}

} // verus!
