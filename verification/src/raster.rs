//! Grayscale buffers and the windows cut out of them.
//!
//! A luminance is the ratio `sample / unit`. An image read from 8-bit pixels
//! has unit 1; an image decimated by block means keeps the block sums as
//! samples and the block area in its unit, so that the means stay exact.

use crate::sums::{
    lemma_dot_to_bounds, lemma_sq_sum_concat, lemma_sum_concat, lemma_sum_to_bounds, sq_sum, sum,
    within,
};
use vstd::arithmetic::div_mod::lemma_fundamental_div_mod;
use vstd::arithmetic::div_mod::lemma_fundamental_div_mod_converse;
use vstd::prelude::*;

verus! {

/// The largest product of pixel count and unit a buffer may have, `2^40`.
/// With it every sum of samples fits in 64 bits and every sum of their
/// squares in 128.
pub const MAX_WEIGHT: u64 = 0x100_0000_0000;

/// The mathematical content of a grayscale buffer.
pub struct Raster {
    /// The samples, row after row.
    pub samples: Seq<int>,
    pub width: int,
    pub height: int,
    /// The common denominator of the samples.
    pub unit: int,
}

/// The flat index of the pixel `(x, y)` in rows of `width` pixels.
pub open spec fn flat(width: int, x: int, y: int) -> int {
    y * width + x
}

/// The sum of the entries of `s`, or of their squares.
pub open spec fn moment(s: Seq<int>, squared: bool) -> int {
    if squared {
        sq_sum(s)
    } else {
        sum(s)
    }
}

impl Raster {
    /// The number of pixels.
    pub open spec fn area(self) -> int {
        self.width * self.height
    }

    /// The sample that stands for luminance 255.
    pub open spec fn top(self) -> int {
        255 * self.unit
    }

    /// The shape matches the samples, every luminance lies in `[0, 255]`,
    /// and a buffer that holds a pixel is small enough for 64-bit sums,
    /// 32-bit coordinates and a table of its corners. A buffer without a
    /// pixel may have any side, and has unit 1.
    pub open spec fn wf(self) -> bool {
        &&& 0 <= self.width <= usize::MAX
        &&& 0 <= self.height <= usize::MAX
        &&& 1 <= self.unit
        &&& self.samples.len() == self.width * self.height
        &&& within(self.samples, self.top())
        &&& self.area() * self.unit <= MAX_WEIGHT
        &&& self.area() == 0 ==> self.unit == 1
        &&& self.area() > 0 ==> {
            &&& self.width <= u32::MAX
            &&& self.height <= u32::MAX
            &&& (self.width + 1) * (self.height + 1) <= usize::MAX
        }
    }

    /// The buffer holds a pixel.
    pub open spec fn has_pixels(self) -> bool {
        self.area() >= 1
    }

    /// The sample at column `x` of row `y`.
    pub open spec fn at(self, x: int, y: int) -> int {
        self.samples[flat(self.width, x, y)]
    }

    /// The rectangle of `w` by `h` pixels at `(x, y)` lies inside the buffer.
    pub open spec fn holds(self, x: int, y: int, w: int, h: int) -> bool {
        &&& 0 <= x
        &&& 0 <= y
        &&& 0 <= w
        &&& 0 <= h
        &&& x + w <= self.width
        &&& y + h <= self.height
    }

    /// The `w` samples of row `y` from column `x` on.
    pub open spec fn row(self, x: int, y: int, w: int) -> Seq<int> {
        Seq::new(w as nat, |i: int| self.at(x + i, y))
    }

    /// The samples of the window of `w` by `h` pixels at `(x, y)`, row after
    /// row.
    pub open spec fn window(self, x: int, y: int, w: int, h: int) -> Seq<int> {
        Seq::new((w * h) as nat, |k: int| self.at(x + k % w, y + k / w))
    }

    /// The sum of the samples of a window.
    pub open spec fn window_sum(self, x: int, y: int, w: int, h: int) -> int {
        sum(self.window(x, y, w, h))
    }

    /// The sum of the squared samples of a window.
    pub open spec fn window_sq_sum(self, x: int, y: int, w: int, h: int) -> int {
        sq_sum(self.window(x, y, w, h))
    }

    /// The buffer of block sums: pixel `(x, y)` holds the sum of the block of
    /// `scale` by `scale` pixels at `(x * scale, y * scale)`, and the unit
    /// grows by the block's area, so that each luminance is the block's mean.
    /// Columns and rows beyond the last whole block are left out. Where no
    /// whole block is left, the result has no pixel and unit 1.
    pub open spec fn decimate(self, scale: int) -> Raster {
        let w = self.width / scale;
        let h = self.height / scale;
        Raster {
            samples: Seq::new(
                (w * h) as nat,
                |k: int| self.window_sum((k % w) * scale, (k / w) * scale, scale, scale),
            ),
            width: w,
            height: h,
            unit: if w * h == 0 {
                1
            } else {
                self.unit * (scale * scale)
            },
        }
    }
}

/// The greatest sum of samples a valid raster can hold, `255 * 2^40`.
pub open spec fn max_mass() -> int {
    280_375_465_082_880int
}

impl Raster {
    /// In a valid raster a window's area times the greatest sample is at
    /// most `255 * 2^40`, and where the window holds a pixel, so is the
    /// greatest sample.
    pub proof fn lemma_mass(self, w: int, h: int)
        requires
            self.wf(),
            0 <= w <= self.width,
            0 <= h <= self.height,
        ensures
            0 <= w * h <= self.area(),
            0 <= (w * h) * self.top() <= max_mass(),
            w * h >= 1 ==> self.top() <= (w * h) * self.top(),
            (w * h) * (self.top() * self.top()) <= max_mass() * max_mass(),
            (w * h) * self.unit <= MAX_WEIGHT,
    {
        let n = w * h;
        let a = self.area();
        let u = self.unit;
        let t = self.top();
        assert(0 <= n <= a) by (nonlinear_arith)
            requires
                0 <= w <= self.width,
                0 <= h <= self.height,
                n == w * h,
                a == self.width * self.height,
        ;
        assert(0 <= n * t <= max_mass() && n * u <= MAX_WEIGHT) by (nonlinear_arith)
            requires
                0 <= n <= a,
                a * u <= MAX_WEIGHT,
                u >= 1,
                t == 255 * u,
        {
            assert(n * u <= a * u);
            assert(n * (255 * u) == 255 * (n * u));
        }
        if n >= 1 {
            assert(t <= n * t) by (nonlinear_arith)
                requires
                    n >= 1,
                    t >= 0,
            ;
        }
        assert(n * (t * t) <= max_mass() * max_mass()) by (nonlinear_arith)
            requires
                0 <= n * t <= max_mass(),
                n >= 1 ==> t <= n * t,
                n >= 0,
                t >= 0,
        {
            if n >= 1 {
                assert(n * (t * t) == (n * t) * t);
                assert((n * t) * t <= (n * t) * (n * t));
                assert((n * t) * (n * t) <= max_mass() * max_mass());
            } else {
                assert(n * (t * t) == 0);
                assert(max_mass() * max_mass() >= 0);
            }
        }
    }
}

impl Raster {
    /// A valid raster at least one pixel wide and one high holds a pixel, and
    /// so has 32-bit sides and a table of corners that fits the machine.
    pub proof fn lemma_sides(self)
        requires
            self.wf(),
            self.width >= 1,
            self.height >= 1,
        ensures
            self.area() >= 1,
            self.width <= u32::MAX,
            self.height <= u32::MAX,
            (self.width + 1) * (self.height + 1) <= usize::MAX,
    {
        assert(self.width * self.height >= 1) by (nonlinear_arith)
            requires
                self.width >= 1,
                self.height >= 1,
        ;
    }

    /// A raster that holds a pixel is at least one pixel wide and one high.
    pub proof fn lemma_pixel_sides(self)
        requires
            0 <= self.width,
            0 <= self.height,
            self.area() >= 1,
        ensures
            self.width >= 1,
            self.height >= 1,
    {
        assert(self.width >= 1 && self.height >= 1) by (nonlinear_arith)
            requires
                0 <= self.width,
                0 <= self.height,
                self.width * self.height >= 1,
        ;
    }
}

/// A pixel inside the shape has a flat index inside the samples, and the
/// index gives the pixel back.
pub proof fn lemma_flat_index(width: int, height: int, x: int, y: int)
    requires
        0 <= x < width,
        0 <= y < height,
    ensures
        0 <= flat(width, x, y) < width * height,
        flat(width, x, y) % width == x,
        flat(width, x, y) / width == y,
{
    assert(y * width + x < width * height) by (nonlinear_arith)
        requires
            0 <= x < width,
            0 <= y < height,
    {
        assert(y * width + width <= height * width);
    }
    assert(0 <= y * width) by (nonlinear_arith)
        requires
            0 <= y,
            0 <= width,
    ;
    lemma_fundamental_div_mod_converse(y * width + x, width, y, x);
}

/// A flat index inside the shape names a pixel inside the shape.
pub proof fn lemma_flat_pixel(width: int, height: int, k: int)
    requires
        0 <= k < width * height,
        0 <= height,
    ensures
        0 <= k % width < width,
        0 <= k / width < height,
        flat(width, k % width, k / width) == k,
{
    assert(width > 0) by (nonlinear_arith)
        requires
            0 <= k < width * height,
            0 <= height,
    ;
    lemma_fundamental_div_mod(k, width);
    let q = k / width;
    assert(width * q == q * width) by (nonlinear_arith);
    assert(0 <= q < height) by (nonlinear_arith)
        requires
            0 <= k < width * height,
            k == q * width + k % width,
            0 <= k % width < width,
            width > 0,
    ;
}

impl Raster {
    /// The sample of a window at its own column `i` and row `j`.
    pub proof fn lemma_window_at(self, x: int, y: int, w: int, h: int, i: int, j: int)
        requires
            0 <= i < w,
            0 <= j < h,
        ensures
            0 <= flat(w, i, j) < self.window(x, y, w, h).len(),
            self.window(x, y, w, h)[flat(w, i, j)] == self.at(x + i, y + j),
    {
        lemma_flat_index(w, h, i, j);
    }

    /// The samples of a window inside a valid buffer are samples of the
    /// buffer.
    pub proof fn lemma_window_within(self, x: int, y: int, w: int, h: int)
        requires
            self.wf(),
            self.holds(x, y, w, h),
        ensures
            within(self.window(x, y, w, h), self.top()),
            self.window(x, y, w, h).len() == w * h,
    {
        assert(w * h >= 0) by (nonlinear_arith)
            requires
                w >= 0,
                h >= 0,
        ;
        let win = self.window(x, y, w, h);
        assert forall|k: int| 0 <= k < win.len() implies 0 <= #[trigger] win[k] <= self.top() by {
            lemma_flat_pixel(w, h, k);
            lemma_flat_index(self.width, self.height, x + k % w, y + k / w);
        }
    }

    /// The samples of a row inside a valid buffer are samples of the buffer.
    pub proof fn lemma_row_within(self, x: int, y: int, w: int)
        requires
            self.wf(),
            self.holds(x, y, w, 1),
        ensures
            within(self.row(x, y, w), self.top()),
    {
        let r = self.row(x, y, w);
        assert forall|i: int| 0 <= i < r.len() implies 0 <= #[trigger] r[i] <= self.top() by {
            lemma_flat_index(self.width, self.height, x + i, y);
        }
    }

    /// A window one row higher is the window followed by that row.
    pub proof fn lemma_window_grow(self, x: int, y: int, w: int, h: int)
        requires
            0 <= w,
            0 <= h,
        ensures
            self.window(x, y, w, h + 1) =~= self.window(x, y, w, h) + self.row(x, y + h, w),
    {
        assert(w * (h + 1) == w * h + w) by (nonlinear_arith);
        assert(w * h >= 0) by (nonlinear_arith)
            requires
                w >= 0,
                h >= 0,
        ;
        let tall = self.window(x, y, w, h + 1);
        let joined = self.window(x, y, w, h) + self.row(x, y + h, w);
        assert forall|k: int| 0 <= k < tall.len() implies tall[k] == joined[k] by {
            if k >= w * h {
                let i = k - w * h;
                assert(h * w == w * h) by (nonlinear_arith);
                lemma_fundamental_div_mod_converse(k, w, h, i);
            }
        }
    }

    /// A row is its left part followed by its right part.
    pub proof fn lemma_row_split(self, x: int, y: int, w1: int, w2: int)
        requires
            0 <= w1,
            0 <= w2,
        ensures
            self.row(x, y, w1 + w2) =~= self.row(x, y, w1) + self.row(x + w1, y, w2),
    {
    }

    /// The window that covers a valid buffer holds the buffer's samples in
    /// their order.
    pub proof fn lemma_window_full(self)
        requires
            0 <= self.width,
            0 <= self.height,
            self.samples.len() == self.width * self.height,
        ensures
            self.window(0, 0, self.width, self.height) =~= self.samples,
    {
        let win = self.window(0, 0, self.width, self.height);
        assert forall|k: int| 0 <= k < win.len() implies win[k] == self.samples[k] by {
            lemma_flat_pixel(self.width, self.height, k);
        }
    }

    /// A moment of a window is the moment of its left part plus that of its
    /// right part.
    pub proof fn lemma_window_split_columns(
        self,
        x: int,
        y: int,
        w1: int,
        w2: int,
        h: int,
        squared: bool,
    )
        requires
            0 <= w1,
            0 <= w2,
            0 <= h,
        ensures
            moment(self.window(x, y, w1 + w2, h), squared) == moment(
                self.window(x, y, w1, h),
                squared,
            ) + moment(self.window(x + w1, y, w2, h), squared),
        decreases h,
    {
        if h == 0 {
            assert((w1 + w2) * h == 0 && w1 * h == 0 && w2 * h == 0) by (nonlinear_arith)
                requires
                    h == 0,
            ;
        } else {
            self.lemma_window_split_columns(x, y, w1, w2, h - 1, squared);
            self.lemma_window_grow(x, y, w1 + w2, h - 1);
            self.lemma_window_grow(x, y, w1, h - 1);
            self.lemma_window_grow(x + w1, y, w2, h - 1);
            self.lemma_row_split(x, y + h - 1, w1, w2);
            let row = self.row(x, y + h - 1, w1 + w2);
            let left = self.row(x, y + h - 1, w1);
            let right = self.row(x + w1, y + h - 1, w2);
            assert(row == left + right);
            lemma_sum_concat(left, right);
            lemma_sq_sum_concat(left, right);
            lemma_sum_concat(self.window(x, y, w1 + w2, h - 1), row);
            lemma_sq_sum_concat(self.window(x, y, w1 + w2, h - 1), row);
            lemma_sum_concat(self.window(x, y, w1, h - 1), left);
            lemma_sq_sum_concat(self.window(x, y, w1, h - 1), left);
            lemma_sum_concat(self.window(x + w1, y, w2, h - 1), right);
            lemma_sq_sum_concat(self.window(x + w1, y, w2, h - 1), right);
        }
    }

    /// A moment of a window is the moment of its upper part plus that of its
    /// lower part.
    pub proof fn lemma_window_split_rows(
        self,
        x: int,
        y: int,
        w: int,
        h1: int,
        h2: int,
        squared: bool,
    )
        requires
            0 <= w,
            0 <= h1,
            0 <= h2,
        ensures
            moment(self.window(x, y, w, h1 + h2), squared) == moment(
                self.window(x, y, w, h1),
                squared,
            ) + moment(self.window(x, y + h1, w, h2), squared),
        decreases h2,
    {
        if h2 == 0 {
            assert(w * h2 == 0) by (nonlinear_arith)
                requires
                    h2 == 0,
            ;
        } else {
            self.lemma_window_split_rows(x, y, w, h1, h2 - 1, squared);
            self.lemma_window_grow(x, y, w, h1 + h2 - 1);
            self.lemma_window_grow(x, y + h1, w, h2 - 1);
            let row = self.row(x, y + h1 + h2 - 1, w);
            lemma_sum_concat(self.window(x, y, w, h1 + h2 - 1), row);
            lemma_sq_sum_concat(self.window(x, y, w, h1 + h2 - 1), row);
            lemma_sum_concat(self.window(x, y + h1, w, h2 - 1), row);
            lemma_sq_sum_concat(self.window(x, y + h1, w, h2 - 1), row);
        }
    }

    /// The moments of a window inside a valid buffer are bounded by the
    /// window's area.
    pub proof fn lemma_window_bounds(self, x: int, y: int, w: int, h: int)
        requires
            self.wf(),
            self.holds(x, y, w, h),
        ensures
            0 <= self.window_sum(x, y, w, h) <= (w * h) * self.top(),
            0 <= self.window_sq_sum(x, y, w, h) <= (w * h) * (self.top() * self.top()),
    {
        self.lemma_window_within(x, y, w, h);
        let win = self.window(x, y, w, h);
        lemma_sum_to_bounds(win, win.len() as int, self.top());
        lemma_dot_to_bounds(win, win, win.len() as int, self.top(), self.top());
    }
}

} // verus!
