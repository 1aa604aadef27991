//! The normalized cross-correlation of a template with a window of a source.

use crate::buffer::GrayBuffer;
use crate::integral::IntegralImage;
use crate::raster::{flat, lemma_flat_index, max_mass, Raster};
use crate::score::{Corr, Score};
use crate::wide::Wide;
use crate::sums::{
    centered, covariance, dot_to, lemma_covariance_bound, lemma_dot_to_bounds,
    lemma_square_order, lemma_sum_to_bounds, spread, sum, sum_to, within,
};
use crate::template::Template;
use vstd::prelude::*;

verus! {

/// The template's deviation lies under its floor of `10^-10`: its variance,
/// `spread / weight^2`, is below `10^-20`.
pub open spec fn is_floored(spread_t: int, weight: int) -> bool {
    spread_t * 100_000_000_000_000_000_000 < weight * weight
}

/// The Pearson correlation of the samples `s` of a window with the samples
/// `t` of a template, in units of `unit_s` and `unit_t`:
/// `covariance / sqrt(variance(s) * variance(t))`.
/// A window whose luminances have a variance below 1, and a template without
/// contrast, score 0. A template whose deviation is under `10^-10` is scored
/// as if its deviation were `10^-10`.
pub open spec fn pearson(s: Seq<int>, t: Seq<int>, unit_s: int, unit_t: int) -> Corr {
    let n = t.len() as int;
    let weight = n * unit_t;
    if spread(s) < (n * unit_s) * (n * unit_s) || spread(t) == 0 {
        Corr::zero()
    } else if is_floored(spread(t), weight) {
        Corr { num: covariance(s, t) * 10_000_000_000, den_sq: spread(s) * (weight * weight) }
    } else {
        Corr { num: covariance(s, t), den_sq: spread(s) * spread(t) }
    }
}

/// The correlation of the template with the window of its size at `(x, y)`
/// of the source.
pub open spec fn ncc(src: Raster, tpl: Raster, x: int, y: int) -> Corr {
    pearson(src.window(x, y, tpl.width, tpl.height), tpl.samples, src.unit, tpl.unit)
}

/// The template, put at `(x, y)`, lies inside the source.
pub open spec fn admits(src: Raster, tpl: Raster, x: int, y: int) -> bool {
    src.holds(x, y, tpl.width, tpl.height)
}

/// A correlation is a valid score in `[-1, 1]`.
pub proof fn lemma_ncc_range(src: Raster, tpl: Raster, x: int, y: int)
    requires
        src.wf(),
        tpl.wf(),
        tpl.area() >= 1,
        admits(src, tpl, x, y),
    ensures
        ncc(src, tpl, x, y).wf(),
        ncc(src, tpl, x, y).in_unit_range(),
{
    let s = src.window(x, y, tpl.width, tpl.height);
    let t = tpl.samples;
    let n = t.len() as int;
    let weight = n * tpl.unit;
    let c = covariance(s, t);
    let ds = spread(s);
    let dt = spread(t);
    src.lemma_window_within(x, y, tpl.width, tpl.height);
    lemma_covariance_bound(s, t);
    if !(ds < (n * src.unit) * (n * src.unit) || dt == 0) {
        assert((n * src.unit) * (n * src.unit) >= 1 && weight * weight >= 1) by (nonlinear_arith)
            requires
                n >= 1,
                src.unit >= 1,
                tpl.unit >= 1,
                weight == n * tpl.unit,
        ;
        if is_floored(dt, weight) {
            let big = c * 10_000_000_000;
            assert(ds * (weight * weight) >= 1 && big * big <= ds * (weight * weight))
                by (nonlinear_arith)
                requires
                    ds >= 1,
                    weight * weight >= 1,
                    c * c <= ds * dt,
                    dt * 100_000_000_000_000_000_000 < weight * weight,
                    big == c * 10_000_000_000,
            {
                assert(big * big == (c * c) * 100_000_000_000_000_000_000);
                assert((c * c) * 100_000_000_000_000_000_000 <= (ds * dt)
                    * 100_000_000_000_000_000_000);
                assert((ds * dt) * 100_000_000_000_000_000_000 == ds * (dt
                    * 100_000_000_000_000_000_000));
                assert(ds * (dt * 100_000_000_000_000_000_000) <= ds * (weight * weight));
            }
        } else {
            assert(ds * dt >= 1) by (nonlinear_arith)
                requires
                    ds >= 1,
                    dt >= 1,
            ;
        }
    }
}

/// The correlation of the template with the window at `(x, y)` of the source,
/// computed from the window's moments and one pass over its samples.
pub fn compute_ncc(
    src: &GrayBuffer,
    integral: &IntegralImage,
    tpl: &Template,
    x: usize,
    y: usize,
) -> (score: Score)
    requires
        src.wf(),
        integral.wf(),
        integral@ == src@,
        tpl.wf(),
        src@.unit == tpl@.unit,
        admits(src@, tpl@, x as int, y as int),
    ensures
        score@ == ncc(src@, tpl@, x as int, y as int),
        score.wf(),
        score@.in_unit_range(),
{
    let ghost img = src@;
    let ghost t = tpl@.samples;
    let ghost top = img.top();
    let tw: usize = tpl.width;
    let th: usize = tpl.height;
    let ghost win = img.window(x as int, y as int, tw as int, th as int);
    let ghost n = t.len() as int;
    let ghost bound = n * top;
    proof {
        img.lemma_window_within(x as int, y as int, tw as int, th as int);
        lemma_ncc_range(img, tpl@, x as int, y as int);
        lemma_covariance_bound(win, t);
        lemma_sum_to_bounds(win, n, top);
        lemma_dot_to_bounds(win, win, n, top, top);
        lemma_sum_to_bounds(t, n, top);
        assert(n == tw * th);
        img.lemma_mass(tw as int, th as int);
        assert(0 <= bound <= max_mass());
        assert(bound * bound <= max_mass() * max_mass() && n * (n * (top * top)) == bound * bound
            && (n * img.unit) * (n * img.unit) <= bound * bound && n <= bound)
            by (nonlinear_arith)
            requires
                bound == n * top,
                top == 255 * img.unit,
                img.unit >= 1,
                n >= 1,
                0 <= bound <= max_mass(),
        {
            assert(n * img.unit <= bound);
            assert(0 <= n * img.unit);
        }
        assert(max_mass() * max_mass() <= 0xffff_ffff_ffff_ffff_ffff_ffff);
    }
    let len: usize = src.data.len();
    proof {
        assert(tw >= 1 && th >= 1) by (nonlinear_arith)
            requires
                tw * th >= 1,
                tw >= 0,
                th >= 0,
        ;
        assert(tpl.normalized@.len() == tpl.normalized().len());
    }
    let count: u128 = (tw * th) as u128;
    let (s_sum, s_sq_sum) = integral.get_stats(x, y, tw, th);
    proof {
        assert(s_sum == sum(win));
        assert(s_sum * s_sum <= bound * bound) by (nonlinear_arith)
            requires
                0 <= s_sum <= bound,
        ;
        assert(count * s_sq_sum <= n * (n * (top * top))) by (nonlinear_arith)
            requires
                0 <= s_sq_sum <= n * (top * top),
                count == n,
                n >= 0,
        ;
    }
    let s_spread: u128 = count * s_sq_sum - (s_sum as u128) * (s_sum as u128);
    let scale: u128 = count * (src.unit as u128);
    if s_spread < scale * scale || tpl.spread == 0 {
        return Score::zero();
    }
    let mut cross: i128 = 0;
    let mut k: usize = 0;
    let mut ty: usize = 0;
    proof {
        assert(0 * tw == 0) by (nonlinear_arith);
        assert(0 * (top * bound) == 0) by (nonlinear_arith);
    }
    while ty < th
        invariant
            src.wf(),
            img == src@,
            tpl.wf(),
            t == tpl@.samples,
            top == img.top(),
            top == tpl@.top(),
            tw == tpl@.width,
            th == tpl@.height,
            admits(img, tpl@, x as int, y as int),
            win == img.window(x as int, y as int, tw as int, th as int),
            within(win, top),
            n == tw * th,
            n == t.len(),
            n == win.len(),
            bound == n * top,
            0 <= bound <= max_mass(),
            len == src.data@.len(),
            tpl.normalized@.len() == n,
            n <= usize::MAX,
            tw >= 1,
            ty <= th,
            k == ty * tw,
            cross == n * dot_to(win, t, k as int) - sum(t) * sum_to(win, k as int),
            -(k * (top * bound)) <= cross <= k * (top * bound),
        decreases th - ty,
    {
        proof {
            lemma_flat_index(img.width, img.height, x as int, y + ty);
            assert(0 <= (y + ty) * img.width) by (nonlinear_arith)
                requires
                    0 <= y + ty,
                    0 <= img.width,
            ;
        }
        let src_row: usize = (y + ty) * src.width + x;
        let mut tx: usize = 0;
        while tx < tw
            invariant
                src.wf(),
                img == src@,
                tpl.wf(),
                t == tpl@.samples,
                top == img.top(),
                top == tpl@.top(),
                tw == tpl@.width,
                th == tpl@.height,
                admits(img, tpl@, x as int, y as int),
                win == img.window(x as int, y as int, tw as int, th as int),
                within(win, top),
                n == tw * th,
                n == t.len(),
                n == win.len(),
                bound == n * top,
                0 <= bound <= max_mass(),
                len == src.data@.len(),
                tpl.normalized@.len() == n,
                n <= usize::MAX,
                tw >= 1,
                ty < th,
                tx <= tw,
                src_row == flat(img.width, x as int, y + ty),
                k == ty * tw + tx,
                cross == n * dot_to(win, t, k as int) - sum(t) * sum_to(win, k as int),
                -(k * (top * bound)) <= cross <= k * (top * bound),
            decreases tw - tx,
        {
            proof {
                lemma_flat_index(img.width, img.height, x + tx, y + ty);
                lemma_flat_index(tw as int, th as int, tx as int, ty as int);
                img.lemma_window_at(x as int, y as int, tw as int, th as int, tx as int, ty as int);
                assert(tpl.normalized()[k as int] == centered(t)[k as int]);
                lemma_sum_to_bounds(t, n, top);
            }
            let sv: i128 = src.data[src_row + tx] as i128;
            let tv: i128 = tpl.normalized[k] as i128;
            proof {
                let a = win[k as int];
                let b = t[k as int];
                let st = sum(t);
                assert(sv == a);
                assert(tv == n * b - st);
                assert(0 <= n * b <= bound) by (nonlinear_arith)
                    requires
                        0 <= b <= top,
                        n >= 0,
                        bound == n * top,
                ;
                assert(-(top * bound) <= sv * tv <= top * bound) by (nonlinear_arith)
                    requires
                        0 <= sv <= top,
                        -bound <= tv <= bound,
                ;
                assert((k + 1) * (top * bound) == k * (top * bound) + top * bound)
                    by (nonlinear_arith);
                assert((k + 1) * (top * bound) <= n * (top * bound)) by (nonlinear_arith)
                    requires
                        k + 1 <= n,
                        0 <= top * bound,
                ;
                assert(n * (top * bound) == bound * bound) by (nonlinear_arith)
                    requires
                        bound == n * top,
                ;
                assert(bound * bound <= max_mass() * max_mass()) by (nonlinear_arith)
                    requires
                        0 <= bound <= max_mass(),
                ;
                assert(max_mass() * max_mass() <= 0xffff_ffff_ffff_ffff_ffff_ffff);
                let d = dot_to(win, t, k as int);
                let p = sum_to(win, k as int);
                assert(a * (n * b - st) == n * (a * b) - st * a) by (nonlinear_arith);
                assert(n * (d + a * b) == n * d + n * (a * b)) by (nonlinear_arith);
                assert(st * (p + a) == st * p + st * a) by (nonlinear_arith);
            }
            cross = cross + sv * tv;
            tx += 1;
            k += 1;
        }
        proof {
            assert((ty + 1) * tw == ty * tw + tw) by (nonlinear_arith);
        }
        ty += 1;
    }
    proof {
        assert(k == n) by (nonlinear_arith)
            requires
                k == ty * tw,
                ty == th,
                n == tw * th,
        ;
        assert(sum(t) * sum(win) == sum(win) * sum(t)) by (nonlinear_arith);
        assert(cross == covariance(win, t));
        assert(n * (top * bound) == bound * bound) by (nonlinear_arith)
            requires
                bound == n * top,
        ;
        assert(bound * bound <= max_mass() * max_mass()) by (nonlinear_arith)
            requires
                0 <= bound <= max_mass(),
        ;
        assert(max_mass() * max_mass() <= 0xffff_ffff_ffff_ffff_ffff_ffff);
    }
    if tpl.floored {
        proof {
            let limit = 128 * max_mass();
            let dt = tpl.spread as int;
            let weight = n * tpl@.unit;
            tpl@.lemma_mass(tpl@.width, tpl@.height);
            assert(dt < 16384) by (nonlinear_arith)
                requires
                    dt * 100_000_000_000_000_000_000 < weight * weight,
                    0 <= weight <= 0x100_0000_0000,
            {
                assert(weight * weight <= 0x100_0000_0000 * 0x100_0000_0000);
            }
            assert(cross * cross <= limit * limit) by (nonlinear_arith)
                requires
                    cross * cross <= s_spread * dt,
                    0 <= s_spread <= max_mass() * max_mass(),
                    0 <= dt < 16384,
                    limit == 128 * max_mass(),
            {
                assert(s_spread * dt <= (max_mass() * max_mass()) * 16384);
                assert(limit * limit == (max_mass() * max_mass()) * 16384);
            }
            lemma_square_order(cross as int, limit);
            assert((-cross) * (-cross) == cross * cross) by (nonlinear_arith);
            lemma_square_order(-cross, limit);
        }
        return Score {
            num: cross * 10_000_000_000,
            den_sq: Wide::product(s_spread, tpl.weight_sq),
        };
    }
    Score { num: cross, den_sq: Wide::product(s_spread, tpl.spread) }
}

} // verus!
