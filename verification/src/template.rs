//! The profile of a template: what a correlation needs of it, computed once.

use crate::buffer::GrayBuffer;
use crate::ncc::is_floored;
use crate::raster::{max_mass, Raster};
use crate::sums::{
    centered, dot_to, lemma_centered_sums_to_zero, lemma_covariance_bound, lemma_dot_to_bounds,
    lemma_sum_to_bounds, spread, sum, sum_to,
};
use vstd::prelude::*;

verus! {

/// A template's mean-centered samples and its deviation, both kept as whole
/// numbers. With `n` samples of sum `total`, the centered sample `i` is
/// `n * sample[i] - total`, which is `n` times the distance from the mean, and
/// `spread` is `n^2` times the variance. Unchanged once built.
pub struct Template {
    pub(crate) normalized: Vec<i64>,
    pub(crate) width: usize,
    pub(crate) height: usize,
    pub(crate) total: u64,
    pub(crate) spread: u128,
    /// The square of the number of samples times their unit.
    pub(crate) weight_sq: u128,
    /// Whether the deviation lies under its floor.
    pub(crate) floored: bool,
    pub(crate) model: Ghost<Raster>,
}

impl View for Template {
    type V = Raster;

    /// The raster the profile was computed from.
    open(crate) spec fn view(&self) -> Raster {
        self.model@
    }
}

/// The square of the smallest deviation a template is given: `10^-10`, as the
/// ratio `1 / 10^20`.
pub open spec fn deviation_floor_sq_inverse() -> int {
    100_000_000_000_000_000_000
}

/// With whole samples, the floor under a template's deviation is reached by
/// the template without contrast alone, as long as the template has fewer
/// than `10^10` pixels, weighted by their unit: any other such template has
/// a variance of at least `10^-20`.
pub proof fn lemma_deviation_floor(tpl: Raster)
    requires
        tpl.wf(),
        tpl.area() * tpl.unit < 10_000_000_000,
        spread(tpl.samples) >= 1,
    ensures
        spread(tpl.samples) * deviation_floor_sq_inverse() >= (tpl.area() * tpl.unit) * (tpl.area()
            * tpl.unit),
{
    let m = tpl.area() * tpl.unit;
    let d = spread(tpl.samples);
    assert(m >= 0) by (nonlinear_arith)
        requires
            m == tpl.area() * tpl.unit,
            tpl.area() >= 0,
            tpl.unit >= 1,
    ;
    assert(m * m <= 10_000_000_000 * 10_000_000_000) by (nonlinear_arith)
        requires
            0 <= m <= 10_000_000_000,
    ;
    assert(d * 100_000_000_000_000_000_000 >= 100_000_000_000_000_000_000) by (nonlinear_arith)
        requires
            d >= 1,
    ;
}

impl Template {
    /// The centered samples as mathematical integers.
    pub open(crate) spec fn normalized(&self) -> Seq<int> {
        Seq::new(self.normalized@.len(), |i: int| self.normalized@[i] as int)
    }

    /// The profile agrees with the raster it was computed from, which is a
    /// valid raster of a template's size.
    pub open(crate) spec fn wf(&self) -> bool {
        let img = self@;
        &&& img.wf()
        &&& img.has_pixels()
        &&& self.width == img.width
        &&& self.height == img.height
        &&& self.normalized() == centered(img.samples)
        &&& self.total == sum(img.samples)
        &&& self.spread == spread(img.samples)
        &&& self.weight_sq == (img.area() * img.unit) * (img.area() * img.unit)
        &&& self.floored == is_floored(spread(img.samples), img.area() * img.unit)
    }

    /// Computes the profile of a template that holds a pixel.
    pub fn new(tpl: &GrayBuffer) -> (profile: Template)
        requires
            tpl.wf(),
            tpl@.has_pixels(),
        ensures
            profile.wf(),
            profile@ == tpl@,
            sum(profile.normalized()) == 0,
    {
        let ghost img = tpl@;
        let ghost s = img.samples;
        let ghost top = img.top();
        let n: usize = tpl.data.len();
        let ghost mass = n * top;
        proof {
            img.lemma_mass(img.width, img.height);
            assert(n == img.width * img.height);
            assert(mass * mass <= max_mass() * max_mass() && n * (n * (top * top)) == mass * mass
                && n * (top * top) <= mass * mass && 0 <= top * top) by (nonlinear_arith)
                requires
                    mass == n * top,
                    0 <= mass <= max_mass(),
                    n >= 1,
                    top >= 0,
            {
                assert(n * (top * top) <= n * (n * (top * top)));
            }
            assert(max_mass() * max_mass() <= u128::MAX);
        }
        let mut total: u64 = 0;
        let mut squares: u128 = 0;
        let mut i: usize = 0;
        while i < n
            invariant
                tpl.wf(),
                img == tpl@,
                s == img.samples,
                top == img.top(),
                n == tpl.data@.len(),
                n == s.len(),
                mass == n * top,
                0 <= mass <= max_mass(),
                n * (top * top) <= max_mass() * max_mass(),
                top >= 0,
                i <= n,
                total == sum_to(s, i as int),
                squares == dot_to(s, s, i as int),
            decreases n - i,
        {
            let v: u64 = tpl.data[i];
            proof {
                assert(s[i as int] == v);
                lemma_sum_to_bounds(s, i + 1, top);
                lemma_dot_to_bounds(s, s, i + 1, top, top);
                assert((i + 1) * top <= n * top && (i + 1) * (top * top) <= n * (top * top))
                    by (nonlinear_arith)
                    requires
                        0 <= i + 1 <= n,
                        0 <= top,
                {
                    assert(0 <= top * top);
                }
                assert(v * v <= max_mass() * max_mass()) by (nonlinear_arith)
                    requires
                        0 <= v <= max_mass(),
                ;
            }
            total = total + v;
            squares = squares + (v as u128) * (v as u128);
            i += 1;
        }
        proof {
            lemma_covariance_bound(s, s);
            lemma_sum_to_bounds(s, n as int, top);
            lemma_dot_to_bounds(s, s, n as int, top, top);
            assert(total * total <= mass * mass) by (nonlinear_arith)
                requires
                    0 <= total <= mass,
            ;
            assert(n * squares <= n * (n * (top * top))) by (nonlinear_arith)
                requires
                    0 <= squares <= n * (top * top),
                    0 <= n,
            ;
        }
        let count: u128 = n as u128;
        let spread: u128 = count * squares - (total as u128) * (total as u128);
        let mut normalized: Vec<i64> = Vec::with_capacity(n);
        let mut k: usize = 0;
        while k < n
            invariant
                tpl.wf(),
                img == tpl@,
                s == img.samples,
                top == img.top(),
                n == tpl.data@.len(),
                n == s.len(),
                count == n,
                mass == n * top,
                0 <= mass <= max_mass(),
                total == sum(s),
                k <= n,
                normalized@.len() == k,
                forall|j: int| 0 <= j < k ==> normalized@[j] == n * s[j] - total,
            decreases n - k,
        {
            let v: u64 = tpl.data[k];
            proof {
                assert(s[k as int] == v);
                assert(0 <= n * v <= n * top) by (nonlinear_arith)
                    requires
                        0 <= v <= top,
                        0 <= n,
                ;
                lemma_sum_to_bounds(s, n as int, top);
            }
            normalized.push((count * (v as u128)) as i64 - total as i64);
            k += 1;
        }
        let weight: u128 = count * (tpl.unit as u128);
        proof {
            assert(0 <= weight * weight <= 0x100_0000_0000 * 0x100_0000_0000) by (nonlinear_arith)
                requires
                    0 <= weight <= 0x100_0000_0000,
            ;
            if spread >= 16384 {
                assert(spread * 100_000_000_000_000_000_000 >= 16384
                    * 100_000_000_000_000_000_000) by (nonlinear_arith)
                    requires
                        spread >= 16384,
                ;
            } else {
                assert(spread * 100_000_000_000_000_000_000 <= 16384
                    * 100_000_000_000_000_000_000) by (nonlinear_arith)
                    requires
                        0 <= spread < 16384,
                ;
            }
        }
        let weight_sq: u128 = weight * weight;
        let floored: bool = spread < 16384 && spread * 100_000_000_000_000_000_000 < weight_sq;
        let profile = Template {
            normalized,
            width: tpl.width,
            height: tpl.height,
            total,
            spread,
            weight_sq,
            floored,
            model: Ghost(img),
        };
        proof {
            assert(profile.normalized() =~= centered(s));
            lemma_centered_sums_to_zero(s);
        }
        profile
    }

    /// The number of columns.
    pub fn width(&self) -> (w: usize)
        requires
            self.wf(),
        ensures
            w == self@.width,
    {
        self.width
    }

    /// The number of rows.
    pub fn height(&self) -> (h: usize)
        requires
            self.wf(),
        ensures
            h == self@.height,
    {
        self.height
    }
}

} // verus!
