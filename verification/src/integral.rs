//! Summed-area tables: window sums and sums of squares in constant time.

use crate::buffer::GrayBuffer;
use crate::raster::{flat, lemma_flat_index, max_mass, moment, Raster};
use vstd::prelude::*;

verus! {

/// The running sums and running sums of squares of a buffer, on a grid with
/// one more column and one more row than the buffer. The entry at column `x`
/// of row `y` holds the moment of the pixels left of `x` and above `y`, so
/// column 0 and row 0 hold zeros.
pub struct IntegralImage {
    pub(crate) sum: Vec<u64>,
    pub(crate) sq_sum: Vec<u128>,
    /// The number of columns of the grid.
    pub(crate) width: usize,
    pub(crate) model: Ghost<Raster>,
}

impl View for IntegralImage {
    type V = Raster;

    /// The raster the table was built from.
    open(crate) spec fn view(&self) -> Raster {
        self.model@
    }
}

/// The grid of the raster's corners, one column and one row more than the
/// raster has, fits the machine's word.
pub open spec fn grid_fits(img: Raster) -> bool {
    (img.width + 1) * (img.height + 1) <= usize::MAX
}

/// The moment of the pixels left of column `x` and above row `y`.
pub open spec fn corner(img: Raster, x: int, y: int, squared: bool) -> int {
    moment(img.window(0, 0, x, y), squared)
}

/// The sample at `(x, y)`, or its square.
pub open spec fn term(img: Raster, x: int, y: int, squared: bool) -> int {
    if squared {
        img.at(x, y) * img.at(x, y)
    } else {
        img.at(x, y)
    }
}

/// The corners of column 0 and of row 0 are zero.
pub proof fn lemma_corner_border(img: Raster, x: int, y: int, squared: bool)
    requires
        0 <= x,
        0 <= y,
    ensures
        corner(img, 0, y, squared) == 0,
        corner(img, x, 0, squared) == 0,
{
    assert(0 * y == 0 && x * 0 == 0) by (nonlinear_arith);
    assert(img.window(0, 0, 0, y).len() == 0);
    assert(img.window(0, 0, x, 0).len() == 0);
}

/// The inclusion-exclusion step that fills the table: the corner below and
/// right of a pixel is that pixel's term plus the corners above and to the
/// left, less the corner they share.
pub proof fn lemma_corner_step(img: Raster, x: int, y: int, squared: bool)
    requires
        img.wf(),
        0 <= x < img.width,
        0 <= y < img.height,
    ensures
        corner(img, x + 1, y + 1, squared) == term(img, x, y, squared) + corner(
            img,
            x + 1,
            y,
            squared,
        ) + corner(img, x, y + 1, squared) - corner(img, x, y, squared),
        corner(img, x, y + 1, squared) >= corner(img, x, y, squared),
        0 <= term(img, x, y, squared),
{
    img.lemma_window_split_rows(0, 0, x + 1, y, 1, squared);
    img.lemma_window_split_rows(0, 0, x, y, 1, squared);
    img.lemma_window_split_columns(0, y, x, 1, 1, squared);
    img.lemma_window_bounds(0, y, x, 1);
    let one = img.window(x, y, 1, 1);
    assert(one.len() == 1);
    assert(one[0] == img.at(x, y));
    assert(crate::sums::sum_to(one, 0) == 0);
    assert(crate::sums::dot_to(one, one, 0) == 0);
    assert(crate::sums::sum(one) == img.at(x, y));
    assert(crate::sums::sq_sum(one) == img.at(x, y) * img.at(x, y));
    assert(img.at(x, y) * img.at(x, y) >= 0) by (nonlinear_arith);
    lemma_flat_index(img.width, img.height, x, y);
}

/// The moment of any window from four corners.
pub proof fn lemma_corner_query(img: Raster, x: int, y: int, w: int, h: int, squared: bool)
    requires
        img.wf(),
        img.holds(x, y, w, h),
    ensures
        moment(img.window(x, y, w, h), squared) == (corner(img, x + w, y + h, squared) - corner(
            img,
            x + w,
            y,
            squared,
        )) - (corner(img, x, y + h, squared) - corner(img, x, y, squared)),
        corner(img, x + w, y + h, squared) >= corner(img, x + w, y, squared),
        corner(img, x, y + h, squared) >= corner(img, x, y, squared),
        corner(img, x + w, y + h, squared) - corner(img, x + w, y, squared) >= corner(
            img,
            x,
            y + h,
            squared,
        ) - corner(img, x, y, squared),
{
    img.lemma_window_split_rows(0, 0, x + w, y, h, squared);
    img.lemma_window_split_rows(0, 0, x, y, h, squared);
    img.lemma_window_split_columns(0, y, x, w, h, squared);
    img.lemma_window_bounds(0, y, x + w, h);
    img.lemma_window_bounds(0, y, x, h);
    img.lemma_window_bounds(x, y, w, h);
}

/// The sum of the samples of a window of a valid raster fits in 64 bits, and
/// the sum of their squares in 128.
pub proof fn lemma_moment_fits(img: Raster, x: int, y: int, w: int, h: int)
    requires
        img.wf(),
        img.holds(x, y, w, h),
    ensures
        0 <= img.window_sum(x, y, w, h) <= max_mass(),
        0 <= img.window_sq_sum(x, y, w, h) <= max_mass() * max_mass(),
        max_mass() <= u64::MAX,
        max_mass() * max_mass() <= u128::MAX,
{
    img.lemma_window_bounds(x, y, w, h);
    img.lemma_mass(w, h);
}

impl IntegralImage {
    /// The table holds, at every grid point, the two moments of the pixels
    /// left of and above it.
    pub open(crate) spec fn holds_corners(&self) -> bool {
        let img = self@;
        &&& self.width == img.width + 1
        &&& self.sum@.len() == (img.width + 1) * (img.height + 1)
        &&& self.sq_sum@.len() == self.sum@.len()
        &&& forall|k: int|
            0 <= k < self.sum@.len() ==> #[trigger] self.sum@[k] == corner(
                img,
                k % (self.width as int),
                k / (self.width as int),
                false,
            )
        &&& forall|k: int|
            0 <= k < self.sq_sum@.len() ==> #[trigger] self.sq_sum@[k] == corner(
                img,
                k % (self.width as int),
                k / (self.width as int),
                true,
            )
    }

    /// The table is that of a valid raster. It holds every corner wherever
    /// the grid fits the machine's word, as it does for every raster with a
    /// pixel; for a raster without a pixel whose grid does not fit, where
    /// every corner is zero, it holds none.
    pub open(crate) spec fn wf(&self) -> bool {
        &&& self@.wf()
        &&& if grid_fits(self@) {
            self.holds_corners()
        } else {
            self.sum@.len() == 0 && self.sq_sum@.len() == 0
        }
    }

    /// Builds the table of a buffer, row after row.
    pub fn new(src: &GrayBuffer) -> (table: IntegralImage)
        requires
            src.wf(),
        ensures
            table.wf(),
            table@ == src@,
            grid_fits(src@) ==> table.holds_corners(),
    {
        let n: usize = src.data.len();
        let w: usize = src.width;
        let h: usize = src.height;
        proof {
            assert((0 + 1) * (h + 1) == h + 1 && (w + 1) * (0 + 1) == w + 1) by (nonlinear_arith);
            if n == 0 {
                assert(w == 0 || h == 0) by (nonlinear_arith)
                    requires
                        w * h == 0,
                        w >= 0,
                        h >= 0,
                ;
            }
        }
        if n > 0 || (w == 0 && h < usize::MAX) || (h == 0 && w < usize::MAX) {
            Self::build(src)
        } else {
            IntegralImage { sum: Vec::new(), sq_sum: Vec::new(), width: 0, model: Ghost(src@) }
        }
    }

    /// Builds the table of a buffer whose grid fits the machine's word.
    fn build(src: &GrayBuffer) -> (table: IntegralImage)
        requires
            src.wf(),
            grid_fits(src@),
        ensures
            table.wf(),
            table@ == src@,
            table.holds_corners(),
    {
        let ghost img = src@;
        let w: usize = src.width;
        let h: usize = src.height;
        proof {
            assert(w + 1 <= (w + 1) * (h + 1)) by (nonlinear_arith)
                requires
                    0 <= w,
                    0 <= h,
            ;
        }
        let cols: usize = w + 1;
        let mut sum: Vec<u64> = Vec::new();
        let mut sq_sum: Vec<u128> = Vec::new();
        let mut x: usize = 0;
        while x < cols
            invariant
                img.wf(),
                w == img.width,
                h == img.height,
                cols == w + 1,
                (w + 1) * (h + 1) <= usize::MAX,
                x <= cols,
                sum@.len() == x,
                sq_sum@.len() == x,
                forall|k: int|
                    0 <= k < sum@.len() ==> #[trigger] sum@[k] == corner(
                        img,
                        k % (cols as int),
                        k / (cols as int),
                        false,
                    ),
                forall|k: int|
                    0 <= k < sq_sum@.len() ==> #[trigger] sq_sum@[k] == corner(
                        img,
                        k % (cols as int),
                        k / (cols as int),
                        true,
                    ),
            decreases cols - x,
        {
            proof {
                lemma_flat_index(cols as int, h + 1, x as int, 0);
                lemma_corner_border(img, x as int, 0, false);
                lemma_corner_border(img, x as int, 0, true);
            }
            sum.push(0);
            sq_sum.push(0);
            x += 1;
        }
        let mut y: usize = 0;
        proof {
            assert(1 * cols == cols) by (nonlinear_arith);
        }
        while y < h
            invariant
                src.wf(),
                img == src@,
                w == img.width,
                h == img.height,
                cols == w + 1,
                (w + 1) * (h + 1) <= usize::MAX,
                y <= h,
                sum@.len() == (y + 1) * cols,
                sq_sum@.len() == sum@.len(),
                forall|k: int|
                    0 <= k < sum@.len() ==> #[trigger] sum@[k] == corner(
                        img,
                        k % (cols as int),
                        k / (cols as int),
                        false,
                    ),
                forall|k: int|
                    0 <= k < sq_sum@.len() ==> #[trigger] sq_sum@[k] == corner(
                        img,
                        k % (cols as int),
                        k / (cols as int),
                        true,
                    ),
            decreases h - y,
        {
            proof {
                lemma_flat_index(cols as int, h + 1, 0, y + 1);
                lemma_corner_border(img, 0, y + 1, false);
                lemma_corner_border(img, 0, y + 1, true);
            }
            sum.push(0);
            sq_sum.push(0);
            let mut x: usize = 0;
            while x < w
                invariant
                    src.wf(),
                    img == src@,
                    w == img.width,
                    h == img.height,
                    cols == w + 1,
                    (w + 1) * (h + 1) <= usize::MAX,
                    y < h,
                    x <= w,
                    sum@.len() == (y + 1) * cols + x + 1,
                    sq_sum@.len() == sum@.len(),
                    forall|k: int|
                        0 <= k < sum@.len() ==> #[trigger] sum@[k] == corner(
                            img,
                            k % (cols as int),
                            k / (cols as int),
                            false,
                        ),
                    forall|k: int|
                        0 <= k < sq_sum@.len() ==> #[trigger] sq_sum@[k] == corner(
                            img,
                            k % (cols as int),
                            k / (cols as int),
                            true,
                        ),
                decreases w - x,
            {
                let v: u64 = src.sample(x, y) as u64;
                let n: usize = sum.len();
                proof {
                    assert((y + 1) * cols == y * cols + cols) by (nonlinear_arith);
                    assert(0 <= y * cols) by (nonlinear_arith)
                        requires
                            0 <= y,
                            0 <= cols,
                    ;
                    lemma_flat_index(cols as int, h + 1, x + 1, y + 1);
                    lemma_flat_index(cols as int, h + 1, x as int, y + 1);
                    lemma_flat_index(cols as int, h + 1, x + 1, y as int);
                    lemma_flat_index(cols as int, h + 1, x as int, y as int);
                    assert(flat(cols as int, x + 1, y + 1) == n);
                    assert(flat(cols as int, x as int, y + 1) == n - 1);
                    assert(flat(cols as int, x + 1, y as int) == n - cols);
                    assert(flat(cols as int, x as int, y as int) == n - cols - 1);
                    lemma_corner_step(img, x as int, y as int, false);
                    lemma_corner_step(img, x as int, y as int, true);
                    lemma_moment_fits(img, 0, 0, x + 1, y + 1);
                    img.lemma_mass(1, 1);
                    assert(1 * 1 == 1);
                    assert(v * v <= max_mass() * max_mass()) by (nonlinear_arith)
                        requires
                            0 <= v <= max_mass(),
                    ;
                }
                let up: u64 = sum[n - cols];
                let left: u64 = sum[n - 1];
                let diag: u64 = sum[n - cols - 1];
                let sq_up: u128 = sq_sum[n - cols];
                let sq_left: u128 = sq_sum[n - 1];
                let sq_diag: u128 = sq_sum[n - cols - 1];
                let square: u128 = (v as u128) * (v as u128);
                sum.push(up + (left - diag) + v);
                sq_sum.push(sq_up + (sq_left - sq_diag) + square);
                x += 1;
            }
            proof {
                assert((y + 2) * cols == (y + 1) * cols + cols) by (nonlinear_arith);
            }
            y += 1;
        }
        proof {
            assert((h + 1) * cols == (w + 1) * (h + 1)) by (nonlinear_arith)
                requires
                    cols == w + 1,
            ;
        }
        IntegralImage { sum, sq_sum, width: cols, model: Ghost(img) }
    }

    /// The sum and the sum of squares of the samples in the window of `w` by
    /// `h` pixels at `(x, y)`, from four corner reads each.
    pub fn get_stats(&self, x: usize, y: usize, w: usize, h: usize) -> (stats: (u64, u128))
        requires
            self.wf(),
            x + w <= self@.width,
            y + h <= self@.height,
        ensures
            stats.0 == self@.window_sum(x as int, y as int, w as int, h as int),
            stats.1 == self@.window_sq_sum(x as int, y as int, w as int, h as int),
    {
        let ghost img = self@;
        if w == 0 || h == 0 {
            proof {
                assert(w * h == 0) by (nonlinear_arith)
                    requires
                        w == 0 || h == 0,
                ;
                let empty = img.window(x as int, y as int, w as int, h as int);
                assert(empty.len() == 0);
                assert(crate::sums::sum_to(empty, 0) == 0);
                assert(crate::sums::dot_to(empty, empty, 0) == 0);
            }
            return (0, 0);
        }
        proof {
            img.lemma_sides();
        }
        let cols: usize = self.width;
        proof {
            let rows = img.height + 1;
            lemma_flat_index(cols as int, rows, x as int, y as int);
            lemma_flat_index(cols as int, rows, x + w, y as int);
            lemma_flat_index(cols as int, rows, x as int, y + h);
            lemma_flat_index(cols as int, rows, x + w, y + h);
            lemma_corner_query(img, x as int, y as int, w as int, h as int, false);
            lemma_corner_query(img, x as int, y as int, w as int, h as int, true);
            assert(0 <= y * cols <= (y + h) * cols) by (nonlinear_arith)
                requires
                    0 <= y,
                    0 <= h,
                    0 <= cols,
            ;
        }
        let top: usize = y * cols;
        let bottom: usize = (y + h) * cols;
        let s: u64 = (self.sum[bottom + x + w] - self.sum[top + x + w]) - (self.sum[bottom + x]
            - self.sum[top + x]);
        let q: u128 = (self.sq_sum[bottom + x + w] - self.sq_sum[top + x + w]) - (
        self.sq_sum[bottom + x] - self.sq_sum[top + x]);
        (s, q)
    }
}

} // verus!
