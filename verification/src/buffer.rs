//! The grayscale buffer the matcher works on.

use crate::error::ImageFault;
use crate::raster::{flat, lemma_flat_index, max_mass, Raster, MAX_WEIGHT};
use crate::sums::{lemma_sum_concat, lemma_sum_to_bounds, sum, sum_to};
use vstd::prelude::*;

verus! {

/// A rectangle of luminances, row after row. Unchanged once built.
#[derive(Debug)]
pub struct GrayBuffer {
    pub(crate) data: Vec<u64>,
    pub(crate) width: usize,
    pub(crate) height: usize,
    pub(crate) unit: u64,
}

impl View for GrayBuffer {
    type V = Raster;

    open(crate) spec fn view(&self) -> Raster {
        Raster {
            samples: Seq::new(self.data@.len(), |i: int| self.data@[i] as int),
            width: self.width as int,
            height: self.height as int,
            unit: self.unit as int,
        }
    }
}

/// The raster of an image given as 8-bit pixels, row after row.
pub open spec fn raw_raster(pixels: Seq<u8>, width: int, height: int) -> Raster {
    Raster {
        samples: Seq::new(pixels.len(), |i: int| pixels[i] as int),
        width: width,
        height: height,
        unit: 1,
    }
}

/// Why an image given as 8-bit pixels is refused, if it is: for a number of
/// pixels other than `width * height`, and else, where it holds a pixel, for
/// a shape beyond what a raster may have. An image without a pixel is taken
/// whatever its sides.
pub open spec fn raw_fault(pixels: Seq<u8>, width: usize, height: usize) -> Option<ImageFault> {
    if pixels.len() != width * height {
        Some(ImageFault::PixelCount { width, height, pixels: pixels.len() as usize })
    } else if !raw_raster(pixels, width as int, height as int).wf() {
        Some(ImageFault::TooLarge { width, height })
    } else {
        None
    }
}

/// The raster of an image given as 8-bit pixels, or why it is refused.
pub open spec fn raw_load(pixels: Seq<u8>, width: usize, height: usize) -> Result<
    Raster,
    ImageFault,
> {
    match raw_fault(pixels, width, height) {
        Some(fault) => Err(fault),
        None => Ok(raw_raster(pixels, width as int, height as int)),
    }
}

/// The raster of a buffer that was accepted, or why it was refused.
pub open spec fn loaded(r: Result<GrayBuffer, ImageFault>) -> Result<Raster, ImageFault> {
    match r {
        Ok(img) => Ok(img@),
        Err(fault) => Err(fault),
    }
}

impl GrayBuffer {
    /// The buffer's content is a valid raster.
    pub open spec fn wf(&self) -> bool {
        self@.wf()
    }

    /// The buffer of an image given as 8-bit pixels, row after row. It is
    /// refused with `PixelCount` when the number of pixels is not
    /// `width * height`, and else with `TooLarge` when it holds a pixel and
    /// its shape is beyond what a raster may have.
    pub fn from_raw(pixels: Vec<u8>, width: usize, height: usize) -> (r: Result<
        GrayBuffer,
        ImageFault,
    >)
        ensures
            loaded(r) == raw_load(pixels@, width, height),
            r matches Ok(img) ==> img.wf(),
    {
        let n: usize = pixels.len();
        assert(width * height <= u128::MAX) by (nonlinear_arith)
            requires
                0 <= width <= u64::MAX,
                0 <= height <= u64::MAX,
        ;
        if (width as u128) * (height as u128) != n as u128 {
            return Err(ImageFault::PixelCount { width, height, pixels: n });
        }
        if n > 0 {
            if width > u32::MAX as usize || height > u32::MAX as usize || n as u64 > MAX_WEIGHT {
                return Err(ImageFault::TooLarge { width, height });
            }
            assert((width + 1) * (height + 1) <= u128::MAX) by (nonlinear_arith)
                requires
                    0 <= width <= u32::MAX,
                    0 <= height <= u32::MAX,
            ;
            if (width as u128 + 1) * (height as u128 + 1) > usize::MAX as u128 {
                return Err(ImageFault::TooLarge { width, height });
            }
        }
        let mut data: Vec<u64> = Vec::with_capacity(n);
        let mut i: usize = 0;
        while i < n
            invariant
                i <= n,
                n == pixels@.len(),
                data@.len() == i,
                forall|j: int| 0 <= j < i ==> data@[j] == pixels@[j] as int,
            decreases n - i,
        {
            data.push(pixels[i] as u64);
            i += 1;
        }
        let img = GrayBuffer { data, width, height, unit: 1 };
        assert(img@.samples =~= raw_raster(pixels@, width as int, height as int).samples);
        Ok(img)
    }

    /// The number of columns.
    pub fn width(&self) -> (w: usize)
        ensures
            w == self@.width,
    {
        self.width
    }

    /// The number of rows.
    pub fn height(&self) -> (h: usize)
        ensures
            h == self@.height,
    {
        self.height
    }

    /// The common denominator of the samples.
    pub fn unit(&self) -> (u: u64)
        ensures
            u == self@.unit,
    {
        self.unit
    }

    /// The sample at column `x` of row `y`.
    pub fn sample(&self, x: usize, y: usize) -> (s: u64)
        requires
            self.wf(),
            x < self@.width,
            y < self@.height,
        ensures
            s == self@.at(x as int, y as int),
            s <= self@.top(),
    {
        let n: usize = self.data.len();
        proof {
            lemma_flat_index(self.width as int, self.height as int, x as int, y as int);
            assert(self@.samples.len() == n);
            assert(self@.samples[flat(self.width as int, x as int, y as int)] <= self@.top());
            assert(0 <= y * self.width) by (nonlinear_arith)
                requires
                    0 <= y,
                    0 <= self.width,
            ;
        }
        self.data[y * self.width + x]
    }
}

/// The sum of the samples of the block of `scale` by `scale` pixels at
/// `(x, y)`.
fn block_sum(src: &GrayBuffer, x: usize, y: usize, scale: usize) -> (total: u64)
    requires
        src.wf(),
        src@.holds(x as int, y as int, scale as int, scale as int),
    ensures
        total == src@.window_sum(x as int, y as int, scale as int, scale as int),
        total <= src@.top() * (scale * scale),
{
    let ghost img = src@;
    let ghost s = scale as int;
    let mut total: u64 = 0;
    let mut dy: usize = 0;
    proof {
        assert(s * 0 == 0) by (nonlinear_arith);
        img.lemma_mass(s, s);
    }
    while dy < scale
        invariant
            src.wf(),
            img == src@,
            s == scale,
            img.holds(x as int, y as int, s, s),
            (s * s) * img.top() <= max_mass(),
            dy <= scale,
            total == img.window_sum(x as int, y as int, s, dy as int),
        decreases scale - dy,
    {
        let ghost above = total as int;
        let ghost row = img.row(x as int, y + dy, s);
        let mut dx: usize = 0;
        proof {
            img.lemma_row_within(x as int, y + dy, s);
            img.lemma_window_bounds(x as int, y as int, s, dy as int);
        }
        while dx < scale
            invariant
                src.wf(),
                img == src@,
                s == scale,
                img.holds(x as int, y as int, s, s),
                (s * s) * img.top() <= max_mass(),
                dy < scale,
                dx <= scale,
                row == img.row(x as int, y + dy, s),
                crate::sums::within(row, img.top()),
                0 <= above <= (s * dy) * img.top(),
                total == above + sum_to(row, dx as int),
            decreases scale - dx,
        {
            let v: u64 = src.sample(x + dx, y + dy);
            proof {
                lemma_sum_to_bounds(row, dx as int, img.top());
                let top = img.top();
                assert((s * dy) * top + dx * top + top <= (s * s) * top) by (nonlinear_arith)
                    requires
                        0 <= dy < s,
                        0 <= dx < s,
                        0 <= top,
                {
                    assert(s * dy + dx + 1 <= s * s);
                    assert((s * dy + dx + 1) * top <= (s * s) * top);
                }
                assert(row[dx as int] == v);
            }
            total = total + v;
            dx += 1;
        }
        proof {
            img.lemma_window_grow(x as int, y as int, s, dy as int);
            lemma_sum_concat(img.window(x as int, y as int, s, dy as int), row);
        }
        dy += 1;
    }
    proof {
        img.lemma_window_bounds(x as int, y as int, s, s);
        assert((s * s) * img.top() == img.top() * (s * s)) by (nonlinear_arith);
    }
    total
}

/// Decimates a buffer by block means: pixel `(x, y)` of the result stands for
/// the mean of the block of `scale` by `scale` pixels at
/// `(x * scale, y * scale)`. Pixels right of and below the last whole block
/// are dropped.
pub fn downsample(src: &GrayBuffer, scale: usize) -> (r: GrayBuffer)
    requires
        src.wf(),
        scale >= 1,
    ensures
        r.wf(),
        r@ == src@.decimate(scale as int),
{
    let ghost img = src@;
    let ghost s = scale as int;
    let nw: usize = src.width / scale;
    let nh: usize = src.height / scale;
    let mut data: Vec<u64> = Vec::new();
    if nw == 0 || nh == 0 {
        let r = GrayBuffer { data, width: nw, height: nh, unit: 1 };
        proof {
            assert(nw * nh == 0) by (nonlinear_arith)
                requires
                    nw == 0 || nh == 0,
            ;
            assert(r@.samples =~= img.decimate(s).samples);
        }
        return r;
    }
    proof {
        vstd::arithmetic::div_mod::lemma_fundamental_div_mod(src.width as int, s);
        vstd::arithmetic::div_mod::lemma_fundamental_div_mod(src.height as int, s);
        assert(nw * s <= img.width && nh * s <= img.height && s <= img.width && s <= img.height)
            by (nonlinear_arith)
            requires
                img.width == s * nw + img.width % s,
                img.height == s * nh + img.height % s,
                0 <= img.width % s,
                0 <= img.height % s,
                nw >= 1,
                nh >= 1,
                s >= 1,
        ;
        img.lemma_mass(s, s);
        assert(1 <= s * s && 1 <= img.unit * (s * s) && img.unit * (s * s) == (s * s) * img.unit
            && s <= s * s) by (nonlinear_arith)
            requires
                s >= 1,
                img.unit >= 1,
        ;
        assert(nw * nh >= 1) by (nonlinear_arith)
            requires
                nw >= 1,
                nh >= 1,
        ;
        assert(0 * nw == 0) by (nonlinear_arith);
        assert(s * s <= (s * s) * img.unit) by (nonlinear_arith)
            requires
                s * s >= 1,
                img.unit >= 1,
        ;
    }
    let side: u64 = scale as u64;
    let unit: u64 = src.unit * (side * side);
    let mut y: usize = 0;
    while y < nh
        invariant
            src.wf(),
            img == src@,
            s == scale,
            s >= 1,
            nw * s <= img.width,
            nh * s <= img.height,
            y <= nh,
            data@.len() == y * nw,
            forall|k: int|
                0 <= k < data@.len() ==> data@[k] == img.window_sum(
                    (k % (nw as int)) * s,
                    (k / (nw as int)) * s,
                    s,
                    s,
                ),
            forall|k: int| 0 <= k < data@.len() ==> data@[k] <= img.top() * (s * s),
        decreases nh - y,
    {
        let mut x: usize = 0;
        while x < nw
            invariant
                src.wf(),
                img == src@,
                s == scale,
                s >= 1,
                nw * s <= img.width,
                nh * s <= img.height,
                y < nh,
                x <= nw,
                data@.len() == y * nw + x,
                forall|k: int|
                    0 <= k < data@.len() ==> data@[k] == img.window_sum(
                        (k % (nw as int)) * s,
                        (k / (nw as int)) * s,
                        s,
                        s,
                    ),
                forall|k: int| 0 <= k < data@.len() ==> data@[k] <= img.top() * (s * s),
            decreases nw - x,
        {
            proof {
                assert(x * s + s <= img.width && y * s + s <= img.height && 0 <= x * s && 0 <= y
                    * s) by (nonlinear_arith)
                    requires
                        0 <= x < nw,
                        0 <= y < nh,
                        nw * s <= img.width,
                        nh * s <= img.height,
                        s >= 1,
                {
                    assert((x + 1) * s <= nw * s);
                    assert((y + 1) * s <= nh * s);
                }
                lemma_flat_index(nw as int, nh as int, x as int, y as int);
            }
            let total: u64 = block_sum(src, x * scale, y * scale, scale);
            data.push(total);
            x += 1;
        }
        proof {
            assert((y + 1) * nw == y * nw + nw) by (nonlinear_arith);
        }
        y += 1;
    }
    let r = GrayBuffer { data, width: nw, height: nh, unit };
    proof {
        let d = img.decimate(s);
        assert(nh * nw == nw * nh) by (nonlinear_arith);
        assert(r@.samples =~= d.samples);
        assert(r@ == d);
        assert(nw <= img.width && nh <= img.height) by (nonlinear_arith)
            requires
                nw * s <= img.width,
                nh * s <= img.height,
                s >= 1,
                nw >= 0,
                nh >= 0,
        ;
        assert((nw + 1) * (nh + 1) <= (img.width + 1) * (img.height + 1)) by (nonlinear_arith)
            requires
                0 <= nw <= img.width,
                0 <= nh <= img.height,
        ;
        assert(img.width * img.height >= 1) by (nonlinear_arith)
            requires
                img.width >= 1,
                img.height >= 1,
        ;
        assert((nw * nh) * (img.unit * (s * s)) <= (img.width * img.height) * img.unit)
            by (nonlinear_arith)
            requires
                0 <= nw,
                0 <= nh,
                nw * s <= img.width,
                nh * s <= img.height,
                s >= 1,
                img.unit >= 1,
        {
            assert((nw * s) * (nh * s) <= img.width * img.height);
            assert((nw * nh) * (img.unit * (s * s)) == ((nw * s) * (nh * s)) * img.unit);
        }
        assert(r@.top() == img.top() * (s * s)) by (nonlinear_arith)
            requires
                r@.top() == 255 * (img.unit * (s * s)),
                img.top() == 255 * img.unit,
        ;
    }
    r
}

} // verus!
