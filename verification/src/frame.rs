//! The render target's pixel store: a row-major grid, one cell per pixel,
//! sized exactly width times height, fully initialized on creation. The
//! renderer around it works on floating-point colors, so the cell type is a
//! parameter here and the camera mathematics stays with the application.

use vstd::prelude::*;

verus! {

/// Positions inside one row never collide across rows.
proof fn lemma_row_major_injective(w: int, x1: int, y1: int, x2: int, y2: int)
    requires
        0 <= x1 < w,
        0 <= x2 < w,
        0 <= y1,
        0 <= y2,
        y1 * w + x1 == y2 * w + x2,
    ensures
        x1 == x2,
        y1 == y2,
{
    assert(y1 == y2 && x1 == x2) by (nonlinear_arith)
        requires
            0 <= x1 < w,
            0 <= x2 < w,
            0 <= y1,
            0 <= y2,
            y1 * w + x1 == y2 * w + x2,
    {}
}

/// Every pixel's cell lies inside the grid.
proof fn lemma_row_major_in_range(w: int, h: int, x: int, y: int)
    requires
        0 <= x < w,
        0 <= y < h,
    ensures
        0 <= y * w + x < w * h,
{
    assert(0 <= y * w + x < w * h) by (nonlinear_arith)
        requires
            0 <= x < w,
            0 <= y < h,
    {}
}

/// A row-major grid of pixels: `width * height` cells, pixel `(x, y)` in
/// row `y` and column `x`.
pub struct PixelBuffer<P> {
    width: u32,
    height: u32,
    cells: Vec<P>,
}

impl<P: Copy> PixelBuffer<P> {
    /// The cell count matches the dimensions.
    pub closed spec fn wf(&self) -> bool {
        self.cells@.len() == self.width as int * self.height as int
    }

    /// The grid's width in pixels.
    pub closed spec fn spec_width(&self) -> u32 {
        self.width
    }

    /// The grid's height in pixels.
    pub closed spec fn spec_height(&self) -> u32 {
        self.height
    }

    /// The pixel at column `x` of row `y`.
    pub closed spec fn pixel(&self, x: int, y: int) -> P {
        self.cells@[y * self.width as int + x]
    }

    /// A grid with every pixel set to `fill`; the pixel count must fit the
    /// machine word.
    pub fn new(width: u32, height: u32, fill: P) -> (r: Self)
        requires
            width as int * height as int <= usize::MAX as int,
        ensures
            r.wf(),
            r.spec_width() == width,
            r.spec_height() == height,
            forall|x: int, y: int|
                0 <= x < width && 0 <= y < height ==> r.pixel(x, y) == fill,
    {
        let total = (width as usize) * (height as usize);
        let mut cells: Vec<P> = Vec::new();
        for i in 0..total
            invariant
                cells@.len() == i,
                forall|k: int| 0 <= k < i ==> cells@[k] == fill,
        {
            cells.push(fill);
        }
        let r = PixelBuffer { width, height, cells };
        proof {
            assert forall|x: int, y: int|
                0 <= x < width && 0 <= y < height implies r.pixel(x, y) == fill by {
                lemma_row_major_in_range(width as int, height as int, x, y);
            }
        }
        r
    }

    /// The grid's width in pixels.
    pub fn width(&self) -> (r: u32)
        ensures
            r == self.spec_width(),
    {
        self.width
    }

    /// The grid's height in pixels.
    pub fn height(&self) -> (r: u32)
        ensures
            r == self.spec_height(),
    {
        self.height
    }

    /// Reads the pixel at column `x` of row `y`.
    pub fn get(&self, x: u32, y: u32) -> (r: P)
        requires
            self.wf(),
            x < self.spec_width(),
            y < self.spec_height(),
        ensures
            r == self.pixel(x as int, y as int),
    {
        let _len = self.cells.len();
        proof {
            lemma_row_major_in_range(self.width as int, self.height as int, x as int, y as int);
        }
        let idx = (y as usize) * (self.width as usize) + (x as usize);
        self.cells[idx]
    }

    /// Overwrites the pixel at column `x` of row `y`; every other pixel
    /// keeps its value.
    pub fn set(&mut self, x: u32, y: u32, p: P)
        requires
            old(self).wf(),
            x < old(self).spec_width(),
            y < old(self).spec_height(),
        ensures
            final(self).wf(),
            final(self).spec_width() == old(self).spec_width(),
            final(self).spec_height() == old(self).spec_height(),
            final(self).pixel(x as int, y as int) == p,
            forall|i: int, j: int|
                0 <= i < old(self).spec_width() && 0 <= j < old(self).spec_height() && !(i
                    == x as int && j == y as int) ==> final(self).pixel(i, j) == old(self).pixel(
                    i, j),
    {
        let _len = self.cells.len();
        proof {
            lemma_row_major_in_range(self.width as int, self.height as int, x as int, y as int);
        }
        let idx = (y as usize) * (self.width as usize) + (x as usize);
        self.cells[idx] = p;
        proof {
            assert forall|i: int, j: int|
                0 <= i < self.width && 0 <= j < self.height && !(i == x as int && j
                    == y as int) implies self.pixel(i, j) == old(self).pixel(i, j) by {
                lemma_row_major_in_range(self.width as int, self.height as int, i, j);
                if j * self.width as int + i == y as int * self.width as int + x as int {
                    lemma_row_major_injective(self.width as int, i, j, x as int, y as int);
                }
            }
        }
    }
}

} // verus!
