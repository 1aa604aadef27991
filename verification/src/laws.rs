//! What holds of every search, whatever the images.

use crate::multi::{is_hit, is_multi_result, is_ranking};
use crate::ncc::{admits, lemma_ncc_range, ncc, pearson};
use crate::pyramid::{
    is_pyramid_result, lemma_coarse_result, lemma_pyramid_scale, pyramid_scale, refinement,
};
use crate::rank::suppress;
use crate::raster::Raster;
use crate::score::{lemma_unit_range_below, signed_square, Corr, Threshold};
use crate::search::{is_search_result, lemma_first_best_unique, MatchResult, Span};
use crate::sums::{covariance, spread, sq_sum, sum};
use vstd::prelude::*;

verus! {

/// The moments of the window that covers a whole buffer are the sum of its
/// samples and the sum of their squares.
pub proof fn whole_window_is_total(img: Raster)
    requires
        img.wf(),
    ensures
        img.window_sum(0, 0, img.width, img.height) == sum(img.samples),
        img.window_sq_sum(0, 0, img.width, img.height) == sq_sum(img.samples),
{
    img.lemma_window_full();
}

/// Decimation by 1 changes nothing.
pub proof fn decimate_by_one_is_identity(img: Raster)
    requires
        img.wf(),
    ensures
        img.decimate(1) == img,
{
    let d = img.decimate(1);
    assert(img.unit * (1 * 1) == img.unit) by (nonlinear_arith);
    assert forall|k: int| 0 <= k < d.samples.len() implies d.samples[k] == img.samples[k] by {
        crate::raster::lemma_flat_pixel(img.width, img.height, k);
        let x = k % img.width;
        let y = k / img.width;
        let one = img.window(x, y, 1, 1);
        assert(one.len() == 1);
        assert(one[0] == img.at(x, y));
        assert(crate::sums::sum_to(one, 0) == 0);
        assert(sum(one) == img.at(x, y));
        assert(x * 1 == x && y * 1 == y);
    }
    assert(d.samples =~= img.samples);
}

/// The threshold is above 1.
pub open spec fn above_one(threshold: Threshold) -> bool {
    threshold.billionths > 1_000_000_000
}

/// No alignment scores above 1, so none reaches a threshold above 1.
pub proof fn no_score_above_one(src: Raster, tpl: Raster, threshold: Threshold, x: int, y: int)
    requires
        src.wf(),
        tpl.wf(),
        tpl.area() >= 1,
        admits(src, tpl, x, y),
        above_one(threshold),
    ensures
        !ncc(src, tpl, x, y).ge(threshold.level()),
{
    lemma_ncc_range(src, tpl, x, y);
    lemma_unit_range_below(ncc(src, tpl, x, y), threshold.billionths as int, 1_000_000_000);
}

/// A search of a rectangle with a threshold above 1 finds nothing.
pub proof fn search_above_one_is_empty(
    src: Raster,
    tpl: Raster,
    span: Span,
    threshold: Threshold,
    r: Option<MatchResult>,
)
    requires
        src.wf(),
        tpl.wf(),
        tpl.area() >= 1,
        span.admitted(src, tpl),
        above_one(threshold),
        is_search_result(src, tpl, span, threshold.level(), r),
    ensures
        r.is_none(),
{
    if let Some(m) = r {
        no_score_above_one(src, tpl, threshold, m.x as int, m.y as int);
    }
}

/// The rectangle in which a coarse match is refined holds only alignments at
/// which the template lies inside the source.
pub proof fn refinement_is_admitted(src: Raster, tpl: Raster, scale: int, cx: int, cy: int)
    requires
        0 <= tpl.width <= src.width,
        0 <= tpl.height <= src.height,
    ensures
        refinement(src, tpl, scale, cx, cy).admitted(src, tpl),
{
}

/// The search for the single best match finds nothing with a threshold
/// above 1.
pub proof fn single_above_one_is_none(
    src: Raster,
    tpl: Raster,
    threshold: Threshold,
    r: Option<MatchResult>,
)
    requires
        src.wf(),
        tpl.wf(),
        above_one(threshold),
        is_pyramid_result(src, tpl, threshold, r),
    ensures
        r.is_none(),
{
    let scale = pyramid_scale(tpl.width, tpl.height);
    if !(tpl.width <= src.width && tpl.height <= src.height) || tpl.area() == 0 {
    } else if scale < 4 {
        search_above_one_is_empty(src, tpl, Span::all(src, tpl), threshold, r);
    } else {
        let small_src = src.decimate(scale);
        let small_tpl = tpl.decimate(scale);
        let coarse = lemma_coarse_result(src, tpl, threshold, r);
        if let Some(c) = coarse {
            refinement_is_admitted(src, tpl, scale, c.x as int, c.y as int);
            search_above_one_is_empty(
                src,
                tpl,
                refinement(src, tpl, scale, c.x as int, c.y as int),
                threshold,
                r,
            );
        }
    }
}

/// The search for every occurrence finds nothing with a threshold above 1.
pub proof fn multi_above_one_is_empty(
    src: Raster,
    tpl: Raster,
    threshold: Threshold,
    max_count: int,
    r: Seq<MatchResult>,
)
    requires
        src.wf(),
        tpl.wf(),
        above_one(threshold),
        is_multi_result(src, tpl, threshold, max_count, r),
    ensures
        r.len() == 0,
{
    if !(tpl.width <= src.width && tpl.height <= src.height) || tpl.area() == 0 {
    } else {
        let ranked = choose|ranked: Seq<MatchResult>|
            #[trigger] is_ranking(src, tpl, threshold, ranked) && r == suppress(
                ranked,
                tpl.width / 2,
                tpl.height / 2,
                max_count,
            );
        if ranked.len() > 0 {
            let m = ranked[0];
            assert(ranked.contains(m));
            assert(is_hit(src, tpl, threshold, m));
            no_score_above_one(src, tpl, threshold, m.x as int, m.y as int);
        }
        assert(ranked =~= Seq::<MatchResult>::empty());
    }
}

/// A template that is wider or higher than the source is found nowhere.
pub proof fn oversized_template_is_not_found(
    src: Raster,
    tpl: Raster,
    threshold: Threshold,
    max_count: int,
    single: Option<MatchResult>,
    every: Seq<MatchResult>,
)
    requires
        tpl.width > src.width || tpl.height > src.height,
        is_pyramid_result(src, tpl, threshold, single),
        is_multi_result(src, tpl, threshold, max_count, every),
    ensures
        single.is_none(),
        every.len() == 0,
{
}

/// The match that the search for the single best match reports lies inside
/// the source, carries the correlation of the template with the window at
/// its position, computed directly from the samples, and reaches the
/// threshold.
pub proof fn single_reports_direct_correlation(
    src: Raster,
    tpl: Raster,
    threshold: Threshold,
    m: MatchResult,
)
    requires
        src.wf(),
        tpl.wf(),
        is_pyramid_result(src, tpl, threshold, Some(m)),
    ensures
        admits(src, tpl, m.x as int, m.y as int),
        m.confidence@ == pearson(
            src.window(m.x as int, m.y as int, tpl.width, tpl.height),
            tpl.samples,
            src.unit,
            tpl.unit,
        ),
        m.confidence@.ge(threshold.level()),
        m.confidence@.in_unit_range(),
{
    let scale = pyramid_scale(tpl.width, tpl.height);
    let r = Some(m);
    if scale >= 4 {
        let small_src = src.decimate(scale);
        let small_tpl = tpl.decimate(scale);
        let coarse = lemma_coarse_result(src, tpl, threshold, r);
        let c = coarse->Some_0;
        refinement_is_admitted(src, tpl, scale, c.x as int, c.y as int);
    }
    assert(tpl.area() >= 1) by (nonlinear_arith)
        requires
            tpl.area() == tpl.width * tpl.height,
            tpl.area() != 0,
            tpl.width >= 0,
            tpl.height >= 0,
    ;
    lemma_ncc_range(src, tpl, m.x as int, m.y as int);
}

/// Every match that the search for every occurrence reports lies inside the
/// source, carries the correlation of the template with the window at its
/// position, computed directly from the samples, and reaches the threshold.
pub proof fn hit_reports_direct_correlation(
    src: Raster,
    tpl: Raster,
    threshold: Threshold,
    m: MatchResult,
)
    requires
        src.wf(),
        tpl.wf(),
        tpl.area() >= 1,
        tpl.width <= src.width,
        tpl.height <= src.height,
        is_hit(src, tpl, threshold, m),
    ensures
        admits(src, tpl, m.x as int, m.y as int),
        m.confidence@ == pearson(
            src.window(m.x as int, m.y as int, tpl.width, tpl.height),
            tpl.samples,
            src.unit,
            tpl.unit,
        ),
        m.confidence@.ge(threshold.level()),
        m.confidence@.in_unit_range(),
{
    lemma_ncc_range(src, tpl, m.x as int, m.y as int);
}

/// A search of a rectangle has one result.
pub proof fn search_result_is_unique(
    src: Raster,
    tpl: Raster,
    span: Span,
    threshold: Corr,
    first: Option<MatchResult>,
    second: Option<MatchResult>,
)
    requires
        is_search_result(src, tpl, span, threshold, first),
        is_search_result(src, tpl, span, threshold, second),
    ensures
        first == second,
{
    match (first, second) {
        (Some(a), Some(b)) => {
            lemma_first_best_unique(src, tpl, span, a.x as int, a.y as int, b.x as int, b.y as int);
            assert(a.confidence@ == b.confidence@);
            assert(a.confidence == b.confidence);
        },
        (Some(a), None) => {
            assert(span.has(a.x as int, a.y as int));
        },
        (None, Some(b)) => {
            assert(span.has(b.x as int, b.y as int));
        },
        (None, None) => {},
    }
}

/// The search for the single best match has one result: what it returns is
/// a function of the two images and the threshold.
pub proof fn single_result_is_unique(
    src: Raster,
    tpl: Raster,
    threshold: Threshold,
    first: Option<MatchResult>,
    second: Option<MatchResult>,
)
    requires
        is_pyramid_result(src, tpl, threshold, first),
        is_pyramid_result(src, tpl, threshold, second),
    ensures
        first == second,
{
    let scale = pyramid_scale(tpl.width, tpl.height);
    if !(tpl.width <= src.width && tpl.height <= src.height) || tpl.area() == 0 {
    } else if scale < 4 {
        search_result_is_unique(src, tpl, Span::all(src, tpl), threshold.level(), first, second);
    } else {
        let small_src = src.decimate(scale);
        let small_tpl = tpl.decimate(scale);
        let all = Span::all(small_src, small_tpl);
        let a = lemma_coarse_result(src, tpl, threshold, first);
        let b = lemma_coarse_result(src, tpl, threshold, second);
        search_result_is_unique(small_src, small_tpl, all, threshold.half_level(), a, b);
        if let Some(c) = a {
            search_result_is_unique(
                src,
                tpl,
                refinement(src, tpl, scale, c.x as int, c.y as int),
                threshold.level(),
                first,
                second,
            );
        }
    }
}

/// The luminances of the raster have a variance of at least 1.
pub open spec fn has_contrast(img: Raster) -> bool {
    spread(img.samples) >= (img.area() * img.unit) * (img.area() * img.unit)
}

/// An image with contrast correlates with itself at exactly 1, and that
/// reaches every threshold up to 1.
pub proof fn self_correlation_is_one(img: Raster, threshold: Threshold)
    requires
        0 <= img.width,
        0 <= img.height,
        img.samples.len() == img.width * img.height,
        img.area() >= 1,
        img.unit >= 1,
        has_contrast(img),
        threshold.billionths <= 1_000_000_000,
    ensures
        ncc(img, img, 0, 0).is_one(),
        ncc(img, img, 0, 0) == (Corr {
            num: spread(img.samples),
            den_sq: spread(img.samples) * spread(img.samples),
        }),
        ncc(img, img, 0, 0).ge(threshold.level()),
        ncc(img, img, 0, 0).ge(threshold.half_level()),
{
    img.lemma_window_full();
    let s = img.samples;
    let d = spread(s);
    let b = threshold.billionths as int;
    assert(img.window(0, 0, img.width, img.height) == s);
    assert(covariance(s, s) == d);
    assert(d >= 1) by (nonlinear_arith)
        requires
            d >= (img.area() * img.unit) * (img.area() * img.unit),
            img.area() >= 1,
            img.unit >= 1,
    ;
    assert(signed_square(b) <= 1_000_000_000_000_000_000) by (nonlinear_arith)
        requires
            b <= 1_000_000_000,
            signed_square(b) == if b >= 0 {
                b * b
            } else {
                -(b * b)
            },
    ;
    let sq = signed_square(b);
    assert(d * d >= 1 && (d * d) * 1_000_000_000_000_000_000 >= sq * (d * d) && (d * d)
        * 4_000_000_000_000_000_000 >= sq * (d * d)) by (nonlinear_arith)
        requires
            d >= 1,
            sq <= 1_000_000_000_000_000_000,
    ;
    assert(signed_square(d) == d * d);
}

/// Searching an image for itself: where the image has contrast, and, if the
/// search goes through a decimation, that has contrast too or the threshold
/// is at most 0, the search for the single best match with a threshold up to
/// 1 finds the image at `(0, 0)` with a confidence of exactly 1.
pub proof fn self_match_is_exact(img: Raster, threshold: Threshold, r: Option<MatchResult>)
    requires
        img.wf(),
        img.area() >= 1,
        has_contrast(img),
        pyramid_scale(img.width, img.height) >= 4 ==> threshold.billionths <= 0 || has_contrast(
            img.decimate(pyramid_scale(img.width, img.height)),
        ),
        threshold.billionths <= 1_000_000_000,
        is_pyramid_result(img, img, threshold, r),
    ensures
        r.is_some(),
        r->Some_0.x == 0,
        r->Some_0.y == 0,
        r->Some_0.confidence@.is_one(),
{
    let scale = pyramid_scale(img.width, img.height);
    let only = Span { x1: 0, y1: 0, x2: 0, y2: 0 };
    self_correlation_is_one(img, threshold);
    assert(img.area() != 0);
    if scale < 4 {
        assert(Span::all(img, img) == only);
        assert(only.has(0, 0));
    } else {
        let small = img.decimate(scale);
        lemma_pyramid_scale(img.width, img.height);
        let w = img.width / scale;
        let h = img.height / scale;
        assert(w >= 1 && h >= 1);
        assert(w * h >= 1) by (nonlinear_arith)
            requires
                w >= 1,
                h >= 1,
        ;
        assert(small.unit >= 1) by (nonlinear_arith)
            requires
                small.unit == img.unit * (scale * scale),
                img.unit >= 1,
                scale >= 1,
        ;
        if has_contrast(small) {
            self_correlation_is_one(small, threshold);
        } else {
            small.lemma_window_full();
            assert(small.window(0, 0, small.width, small.height) == small.samples);
            assert(ncc(small, small, 0, 0) == Corr::zero());
            assert(signed_square(threshold.billionths as int) <= 0) by (nonlinear_arith)
                requires
                    threshold.billionths <= 0,
                    signed_square(threshold.billionths as int) == if threshold.billionths >= 0 {
                        threshold.billionths * threshold.billionths
                    } else {
                        -(threshold.billionths * threshold.billionths)
                    },
            ;
            let sq = signed_square(threshold.billionths as int);
            assert(signed_square(0) == 0 && sq * 1 == sq) by (nonlinear_arith)
                requires
                    signed_square(0) == 0 * 0,
            ;
            assert(Corr::zero().ge(threshold.half_level()));
        }
        let coarse = lemma_coarse_result(img, img, threshold, r);
        assert(Span::all(small, small) == only);
        assert(only.has(0, 0));
        assert(coarse.is_some());
        let c = coarse->Some_0;
        assert(c.x == 0 && c.y == 0);
        assert(0 * scale == 0);
        assert(refinement(img, img, scale, 0, 0) == only);
    }
}

} // verus!
