//! Coarse-to-fine search for the single best match.
//!
//! A large template is first looked for on decimated images, at half the
//! threshold; the match found there is then refined at full resolution in a
//! small rectangle around it.

use crate::buffer::{downsample, GrayBuffer};
use crate::raster::Raster;
use crate::score::Threshold;
use crate::search::{fits, is_search_result, search_best, search_region, MatchResult, Span};
use crate::template::Template;
use vstd::prelude::*;

verus! {

/// The shorter side a decimated template keeps at least.
pub const MIN_TEMPLATE_SIDE: usize = 16;

/// The largest decimation.
pub const MAX_SCALE: usize = 8;

/// The decimation below which the search runs at full resolution only.
pub const MIN_COARSE_SCALE: usize = 4;

/// The margin of the refinement, in decimated pixels.
pub const REFINE_MARGIN: usize = 4;

/// The smaller of two integers.
pub open spec fn least(a: int, b: int) -> int {
    if a <= b {
        a
    } else {
        b
    }
}

/// The greater of two integers.
pub open spec fn greatest(a: int, b: int) -> int {
    if a >= b {
        a
    } else {
        b
    }
}

/// `s` is 1, 2, 4 or 8.
pub open spec fn is_scale(s: int) -> bool {
    s == 1 || s == 2 || s == 4 || s == 8
}

/// The decimation for a template of `tw` by `th` pixels: the shorter side
/// over 16, capped at 8, rounded up to a power of two, and at least 1.
pub open spec fn pyramid_scale(tw: int, th: int) -> int {
    let most = least(least(tw, th) / 16, 8);
    if most <= 1 {
        1
    } else if most <= 2 {
        2
    } else if most <= 4 {
        4
    } else {
        8
    }
}

/// The decimation is the least power of two that is no less than the capped
/// ratio.
pub proof fn lemma_pyramid_scale(tw: int, th: int)
    requires
        0 <= tw,
        0 <= th,
    ensures
        is_scale(pyramid_scale(tw, th)),
        pyramid_scale(tw, th) >= least(least(tw, th) / 16, 8),
        pyramid_scale(tw, th) > 1 ==> pyramid_scale(tw, th) / 2 < least(least(tw, th) / 16, 8),
        pyramid_scale(tw, th) >= 4 <==> least(tw, th) >= 48,
{
}

/// The rectangle in which a coarse match at `(cx, cy)` is refined: four
/// decimated pixels around the match at full resolution, cut to the
/// alignments at which the template lies inside the source.
pub open spec fn refinement(src: Raster, tpl: Raster, scale: int, cx: int, cy: int) -> Span {
    let margin = scale * 4;
    Span {
        x1: greatest(0, cx * scale - margin),
        y1: greatest(0, cy * scale - margin),
        x2: least(cx * scale + margin, src.width - tpl.width),
        y2: least(cy * scale + margin, src.height - tpl.height),
    }
}

/// What the coarse-to-fine search returns.
///
/// A template that is empty, or wider or higher than the source, is not
/// found. A template whose shorter side is below 48 is searched for at every
/// alignment. Any other is searched for on the decimated images at half the
/// threshold; without a match there it is not found, and with one it is
/// searched for in the refinement rectangle of that match.
pub open spec fn is_pyramid_result(
    src: Raster,
    tpl: Raster,
    threshold: Threshold,
    r: Option<MatchResult>,
) -> bool {
    if !fits(src, tpl) || tpl.area() == 0 {
        r.is_none()
    } else if pyramid_scale(tpl.width, tpl.height) < 4 {
        is_search_result(src, tpl, Span::all(src, tpl), threshold.level(), r)
    } else {
        exists|coarse: Option<MatchResult>| #[trigger] is_refined(src, tpl, threshold, coarse, r)
    }
}

/// `coarse` is what the search on the decimated images returns at half the
/// threshold, and `r` is what is made of it: nothing where `coarse` is
/// nothing, and else what the search of the refinement rectangle returns.
pub open spec fn is_refined(
    src: Raster,
    tpl: Raster,
    threshold: Threshold,
    coarse: Option<MatchResult>,
    r: Option<MatchResult>,
) -> bool {
    let scale = pyramid_scale(tpl.width, tpl.height);
    let small_src = src.decimate(scale);
    let small_tpl = tpl.decimate(scale);
    &&& is_search_result(
        small_src,
        small_tpl,
        Span::all(small_src, small_tpl),
        threshold.half_level(),
        coarse,
    )
    &&& match coarse {
        None => r.is_none(),
        Some(c) => is_search_result(
            src,
            tpl,
            refinement(src, tpl, scale, c.x as int, c.y as int),
            threshold.level(),
            r,
        ),
    }
}

/// The coarse result behind the result of a search that went through the
/// decimated images.
pub proof fn lemma_coarse_result(
    src: Raster,
    tpl: Raster,
    threshold: Threshold,
    r: Option<MatchResult>,
) -> (coarse: Option<MatchResult>)
    requires
        fits(src, tpl),
        tpl.area() != 0,
        pyramid_scale(tpl.width, tpl.height) >= 4,
        is_pyramid_result(src, tpl, threshold, r),
    ensures
        is_refined(src, tpl, threshold, coarse, r),
{
    choose|coarse: Option<MatchResult>| #[trigger] is_refined(src, tpl, threshold, coarse, r)
}

/// The decimation for a template of `tw` by `th` pixels.
pub fn choose_scale(tw: usize, th: usize) -> (scale: usize)
    ensures
        scale == pyramid_scale(tw as int, th as int),
{
    let shorter: usize = if tw <= th {
        tw
    } else {
        th
    };
    let ratio: usize = shorter / MIN_TEMPLATE_SIDE;
    let most: usize = if ratio <= MAX_SCALE {
        ratio
    } else {
        MAX_SCALE
    };
    let mut scale: usize = 1;
    while scale < most
        invariant
            most <= 8,
            is_scale(scale as int),
            scale > 1 ==> scale / 2 < most,
        decreases 16 - scale,
    {
        scale = scale * 2;
    }
    scale
}

/// A template that is decimated by no more than its shorter side keeps a
/// pixel.
pub proof fn lemma_decimate_template(tpl: Raster, scale: int)
    requires
        1 <= scale,
        scale <= tpl.width,
        scale <= tpl.height,
    ensures
        tpl.decimate(scale).has_pixels(),
{
    let w = tpl.width / scale;
    let h = tpl.height / scale;
    vstd::arithmetic::div_mod::lemma_fundamental_div_mod(tpl.width, scale);
    vstd::arithmetic::div_mod::lemma_fundamental_div_mod(tpl.height, scale);
    assert(w >= 1 && h >= 1) by (nonlinear_arith)
        requires
            tpl.width == scale * w + tpl.width % scale,
            tpl.height == scale * h + tpl.height % scale,
            0 <= tpl.width % scale < scale,
            0 <= tpl.height % scale < scale,
            scale <= tpl.width,
            scale <= tpl.height,
            scale >= 1,
    ;
    assert(w * h >= 1) by (nonlinear_arith)
        requires
            w >= 1,
            h >= 1,
    ;
}

/// Finds the single best match of a template in a source: coarse to fine for
/// a template whose shorter side is at least 48, at every alignment for a
/// smaller one.
pub fn pyramid_match(src: &GrayBuffer, tpl: &GrayBuffer, threshold: Threshold) -> (r: Option<
    MatchResult,
>)
    requires
        src.wf(),
        tpl.wf(),
        src@.unit == tpl@.unit,
    ensures
        is_pyramid_result(src@, tpl@, threshold, r),
{
    let sw: usize = src.width();
    let sh: usize = src.height();
    let tw: usize = tpl.width();
    let th: usize = tpl.height();
    if tw > sw || th > sh || tw == 0 || th == 0 {
        proof {
            if tw == 0 || th == 0 {
                assert(tw * th == 0) by (nonlinear_arith)
                    requires
                        tw == 0 || th == 0,
                ;
            }
        }
        return None;
    }
    proof {
        assert(tw * th >= 1) by (nonlinear_arith)
            requires
                tw >= 1,
                th >= 1,
        ;
        lemma_pyramid_scale(tw as int, th as int);
    }
    let scale: usize = choose_scale(tw, th);
    if scale >= MIN_COARSE_SCALE {
        proof {
            lemma_decimate_template(tpl@, scale as int);
        }
        let small_src = downsample(src, scale);
        let small_tpl = downsample(tpl, scale);
        proof {
            vstd::arithmetic::div_mod::lemma_div_is_ordered(tw as int, sw as int, scale as int);
            vstd::arithmetic::div_mod::lemma_div_is_ordered(th as int, sh as int, scale as int);
            lemma_decimate_template(src@, scale as int);
            assert(fits(small_src@, small_tpl@));
        }
        let small_template = Template::new(&small_tpl);
        let coarse = search_best(&small_src, &small_template, &threshold.half());
        match coarse {
            None => {
                proof {
                    assert(is_refined(src@, tpl@, threshold, coarse, None));
                }
                None
            },
            Some(c) => {
                let end_x: usize = sw - tw;
                let end_y: usize = sh - th;
                let margin: usize = scale * REFINE_MARGIN;
                proof {
                    let s = scale as int;
                    let qx = (sw as int) / s;
                    let qy = (sh as int) / s;
                    let rx = (sw as int) % s;
                    let ry = (sh as int) % s;
                    vstd::arithmetic::div_mod::lemma_fundamental_div_mod(sw as int, s);
                    vstd::arithmetic::div_mod::lemma_fundamental_div_mod(sh as int, s);
                    assert(c.x * s <= sw && c.y * s <= sh && 0 <= c.x * s && 0 <= c.y * s)
                        by (nonlinear_arith)
                        requires
                            0 <= c.x <= qx,
                            0 <= c.y <= qy,
                            sw == s * qx + rx,
                            sh == s * qy + ry,
                            0 <= rx,
                            0 <= ry,
                            s >= 1,
                    {
                        assert(c.x * s <= qx * s);
                        assert(c.y * s <= qy * s);
                    }
                }
                let cx: usize = c.x as usize * scale;
                let cy: usize = c.y as usize * scale;
                let x1: usize = if cx >= margin {
                    cx - margin
                } else {
                    0
                };
                let y1: usize = if cy >= margin {
                    cy - margin
                } else {
                    0
                };
                let x2: usize = if end_x >= margin && cx <= end_x - margin {
                    cx + margin
                } else {
                    end_x
                };
                let y2: usize = if end_y >= margin && cy <= end_y - margin {
                    cy + margin
                } else {
                    end_y
                };
                let profile = Template::new(tpl);
                let r = search_region(src, &profile, x1, y1, x2, y2, &threshold.score());
                proof {
                    let span = refinement(src@, tpl@, scale as int, c.x as int, c.y as int);
                    assert(span == Span {
                        x1: x1 as int,
                        y1: y1 as int,
                        x2: x2 as int,
                        y2: y2 as int,
                    });
                    assert(is_refined(src@, tpl@, threshold, coarse, r));
                }
                r
            },
        }
    } else {
        let profile = Template::new(tpl);
        search_best(src, &profile, &threshold.score())
    }
}

} // verus!
