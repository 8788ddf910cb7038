//! Rectangular grids of terrain heights and colors.
use vstd::prelude::*;

verus! {

/// A `width` by `height` grid of values, stored row by row.
pub struct Grid<T> {
    width: u32,
    height: u32,
    cells: Vec<T>,
}

/// Terrain heights, one per pixel.
pub type Heightmap = Grid<u32>;

/// RGBA colors, one per pixel.
pub type Colormap = Grid<[u8; 4]>;

impl<T> Grid<T> {
    #[verifier::type_invariant]
    spec fn inv(self) -> bool {
        self.cells@.len() == self.width as int * self.height as int
    }
}

impl<T: Copy> Grid<T> {
    /// Number of columns.
    pub closed spec fn spec_width(&self) -> u32 {
        self.width
    }

    /// Number of rows.
    pub closed spec fn spec_height(&self) -> u32 {
        self.height
    }

    /// The value in column `x`, row `y`.
    pub closed spec fn spec_at(&self, x: int, y: int) -> T {
        self.cells@[y * self.width + x]
    }

    /// Builds a grid from its rows, laid end to end; `None` when `cells` does
    /// not hold exactly `width * height` values.
    pub fn new(width: u32, height: u32, cells: Vec<T>) -> (r: Option<Self>)
        ensures
            r is Some <==> cells@.len() == width as int * height as int,
            r matches Some(g) ==> {
                &&& g.spec_width() == width
                &&& g.spec_height() == height
                &&& forall|x: int, y: int|
                    0 <= x < width && 0 <= y < height ==> #[trigger] g.spec_at(x, y)
                        == cells@[y * width + x]
            },
    {
        assert(width as int * height as int <= u64::MAX) by (nonlinear_arith)
            requires
                width <= u32::MAX,
                height <= u32::MAX,
        ;
        let n: u64 = width as u64 * height as u64;
        if cells.len() as u64 == n {
            Some(Grid { width, height, cells })
        } else {
            None
        }
    }

    /// `(width, height)`.
    pub fn size(&self) -> (r: (u32, u32))
        ensures
            r == (self.spec_width(), self.spec_height()),
    {
        (self.width, self.height)
    }

    /// The value in column `x`, row `y`.
    pub fn at(&self, x: u32, y: u32) -> (r: T)
        requires
            x < self.spec_width(),
            y < self.spec_height(),
        ensures
            r == self.spec_at(x as int, y as int),
    {
        proof {
            use_type_invariant(self);
            let w = self.width as int;
            let h = self.height as int;
            assert(0 <= y * w <= y * w + x < w * h) by (nonlinear_arith)
                requires
                    0 <= x < w,
                    0 <= y < h,
            ;
        }
        let n = self.cells.len();
        assert(n == self.cells@.len());
        self.cells[y as usize * self.width as usize + x as usize]
    }
}

} // verus!
