//! Search for every occurrence of a template.
//!
//! The alignments on a grid of stride 2 are scored first. Where the score
//! comes near the threshold, the best alignment of the block of 2 by 2
//! alignments at that grid point is looked up. The blocks' best alignments
//! that reach the threshold are ranked by confidence and thinned out so that
//! no two reported matches lie within half a template of each other.

use crate::buffer::GrayBuffer;
use crate::integral::IntegralImage;
use crate::ncc::{compute_ncc, ncc};
use crate::parallel::sweep_rows;
use crate::pyramid::least;
use crate::rank::{
    all_scored, lemma_suppress_properties, pairwise_separated, sort_by_confidence, sorted_desc,
    suppress, suppress_ranked,
};
use crate::raster::Raster;
use crate::score::{Corr, Score, Threshold};
use crate::search::{
    fits, is_best_match, lemma_first_best_unique, scan_region, scanned_before, MatchResult, Span,
};
use crate::template::Template;
use vstd::prelude::*;

verus! {

/// The spacing of the grid that is scored first.
pub const STRIDE: usize = 2;

/// The number of matches reported where the caller names none.
pub const DEFAULT_MAX_COUNT: usize = 10;

/// The grid point whose block holds the coordinate `v`.
pub open spec fn origin(v: int) -> int {
    v - v % 2
}

/// The block of alignments at the grid point `(cx, cy)`: two columns and two
/// rows, cut to the alignments at which the template lies inside the source.
pub open spec fn block(src: Raster, tpl: Raster, cx: int, cy: int) -> Span {
    Span {
        x1: cx,
        y1: cy,
        x2: least(cx + 1, src.width - tpl.width),
        y2: least(cy + 1, src.height - tpl.height),
    }
}

/// `(cx, cy)` is a grid point at which the template lies inside the source
/// and scores at least `level`.
pub open spec fn is_candidate(src: Raster, tpl: Raster, level: Corr, cx: int, cy: int) -> bool {
    &&& 0 <= cx <= src.width - tpl.width
    &&& 0 <= cy <= src.height - tpl.height
    &&& cx % 2 == 0
    &&& cy % 2 == 0
    &&& ncc(src, tpl, cx, cy).ge(level)
}

/// `m` is a hit: the grid point of its block scores at least nine tenths of
/// the threshold, `m` is the first best alignment of the block, and its
/// score reaches the threshold.
pub open spec fn is_hit(src: Raster, tpl: Raster, threshold: Threshold, m: MatchResult) -> bool {
    let cx = origin(m.x as int);
    let cy = origin(m.y as int);
    &&& is_candidate(src, tpl, threshold.candidate_level(), cx, cy)
    &&& is_best_match(src, tpl, block(src, tpl, cx, cy), m)
    &&& m.confidence@.ge(threshold.level())
}

/// `ranked` lists every hit once, the most confident first.
pub open spec fn is_ranking(
    src: Raster,
    tpl: Raster,
    threshold: Threshold,
    ranked: Seq<MatchResult>,
) -> bool {
    &&& ranked.no_duplicates()
    &&& sorted_desc(ranked)
    &&& forall|m: MatchResult| ranked.contains(m) <==> is_hit(src, tpl, threshold, m)
}

/// What the search for every occurrence returns: nothing for a template that
/// is empty, or wider or higher than the source; else what non-maximum
/// suppression keeps of a ranking of the hits, at half the template's width
/// and height and with `max_count` as the limit.
pub open spec fn is_multi_result(
    src: Raster,
    tpl: Raster,
    threshold: Threshold,
    max_count: int,
    r: Seq<MatchResult>,
) -> bool {
    if !fits(src, tpl) || tpl.area() == 0 {
        r.len() == 0
    } else {
        exists|ranked: Seq<MatchResult>|
            #[trigger] is_ranking(src, tpl, threshold, ranked) && r == suppress(
                ranked,
                tpl.width / 2,
                tpl.height / 2,
                max_count,
            )
    }
}

/// `xs` lists, from left to right, the columns of the grid points of row `y`
/// that are candidates.
pub open spec fn is_row_sweep(
    src: Raster,
    tpl: Raster,
    level: Corr,
    y: int,
    xs: Seq<usize>,
) -> bool {
    &&& forall|i: int, j: int| 0 <= i < j < xs.len() ==> xs[i] < xs[j]
    &&& forall|i: int| 0 <= i < xs.len() ==> is_candidate(src, tpl, level, #[trigger] xs[i] as int, y)
    &&& forall|x: int| #[trigger]
        is_candidate(src, tpl, level, x, y) ==> exists|i: int| 0 <= i < xs.len() && xs[i] == x
}

/// The candidates of the grid row `yi`, which is row `2 * yi` of alignments.
pub fn sweep_row(
    src: &GrayBuffer,
    integral: &IntegralImage,
    tpl: &Template,
    end_x: usize,
    yi: usize,
    level: &Score,
) -> (xs: Vec<usize>)
    requires
        src.wf(),
        integral.wf(),
        integral@ == src@,
        tpl.wf(),
        src@.unit == tpl@.unit,
        level.wf(),
        end_x + tpl@.width == src@.width,
        2 * yi + tpl@.height <= src@.height,
    ensures
        is_row_sweep(src@, tpl@, level@, 2 * yi, xs@),
{
    let y: usize = yi * STRIDE;
    let count: usize = end_x / STRIDE + 1;
    let mut xs: Vec<usize> = Vec::new();
    let mut xi: usize = 0;
    while xi < count
        invariant
            src.wf(),
            integral.wf(),
            integral@ == src@,
            tpl.wf(),
            src@.unit == tpl@.unit,
            level.wf(),
            end_x + tpl@.width == src@.width,
            y + tpl@.height <= src@.height,
            y == 2 * yi,
            count == end_x / 2 + 1,
            xi <= count,
            forall|i: int, j: int| 0 <= i < j < xs@.len() ==> xs@[i] < xs@[j],
            forall|i: int|
                0 <= i < xs@.len() ==> is_candidate(
                    src@,
                    tpl@,
                    level@,
                    #[trigger] xs@[i] as int,
                    y as int,
                ) && xs@[i] < 2 * xi,
            forall|x: int| #[trigger]
                is_candidate(src@, tpl@, level@, x, y as int) && x < 2 * xi ==> exists|i: int|
                    0 <= i < xs@.len() && xs@[i] == x,
        decreases count - xi,
    {
        let x: usize = xi * STRIDE;
        let score = compute_ncc(src, integral, tpl, x, y);
        let ghost before = xs@;
        if score.ge(level) {
            xs.push(x);
            proof {
                assert(xs@[before.len() as int] == x);
                assert forall|v: int| #[trigger]
                    is_candidate(src@, tpl@, level@, v, y as int) && v < 2 * (xi + 1) implies exists|
                    i: int,
                | 0 <= i < xs@.len() && xs@[i] == v by {
                    if v < 2 * xi {
                        let i = choose|i: int| 0 <= i < before.len() && before[i] == v;
                        assert(xs@[i] == v);
                    } else {
                        assert(xs@[before.len() as int] == v);
                    }
                }
            }
        }
        xi += 1;
    }
    xs
}

/// The matches gathered so far are the hits of the blocks scanned so far:
/// those in rows above `fy`, and those in row `fy` left of `fx`. They stand
/// in the order of their blocks.
pub open spec fn gathered(
    src: Raster,
    tpl: Raster,
    threshold: Threshold,
    found: Seq<MatchResult>,
    fy: int,
    fx: int,
) -> bool {
    &&& forall|k: int|
        0 <= k < found.len() ==> {
            &&& is_hit(src, tpl, threshold, #[trigger] found[k])
            &&& scanned_before(origin(found[k].x as int), origin(found[k].y as int), fx, fy)
        }
    &&& forall|k: int, l: int|
        0 <= k < l < found.len() ==> scanned_before(
            origin((#[trigger] found[k]).x as int),
            origin(found[k].y as int),
            origin((#[trigger] found[l]).x as int),
            origin(found[l].y as int),
        )
    &&& forall|m: MatchResult| #[trigger]
        is_hit(src, tpl, threshold, m) && scanned_before(
            origin(m.x as int),
            origin(m.y as int),
            fx,
            fy,
        ) ==> found.contains(m)
}

/// Matches that stand in the order of their blocks are all different.
proof fn lemma_gathered_distinct(
    src: Raster,
    tpl: Raster,
    threshold: Threshold,
    found: Seq<MatchResult>,
    fy: int,
    fx: int,
)
    requires
        gathered(src, tpl, threshold, found, fy, fx),
    ensures
        found.no_duplicates(),
        all_scored(found),
{
    assert forall|i: int, j: int| 0 <= i < found.len() && 0 <= j < found.len() && i != j implies found[i]
        != found[j] by {
        if i < j {
            assert(scanned_before(
                origin(found[i].x as int),
                origin(found[i].y as int),
                origin(found[j].x as int),
                origin(found[j].y as int),
            ));
        } else {
            assert(scanned_before(
                origin(found[j].x as int),
                origin(found[j].y as int),
                origin(found[i].x as int),
                origin(found[i].y as int),
            ));
        }
    }
    assert forall|i: int| 0 <= i < found.len() implies (#[trigger] found[i]).confidence.wf() by {
        assert(is_hit(src, tpl, threshold, found[i]));
    }
}

/// Looks up the best alignment of the block of each candidate of one grid
/// row, and gathers those that reach the threshold.
fn refine_row(
    src: &GrayBuffer,
    integral: &IntegralImage,
    tpl: &Template,
    end_x: usize,
    end_y: usize,
    yi: usize,
    xs: &Vec<usize>,
    threshold: Threshold,
    found: &mut Vec<MatchResult>,
)
    requires
        src.wf(),
        integral.wf(),
        integral@ == src@,
        tpl.wf(),
        src@.unit == tpl@.unit,
        end_x + tpl@.width == src@.width,
        end_y + tpl@.height == src@.height,
        2 * yi <= end_y,
        is_row_sweep(src@, tpl@, threshold.candidate_level(), 2 * yi, xs@),
        gathered(src@, tpl@, threshold, old(found)@, 2 * yi, 0),
    ensures
        gathered(src@, tpl@, threshold, final(found)@, 2 * yi + 2, 0),
{
    let ghost img = src@;
    let ghost t = tpl@;
    let ghost level = threshold.candidate_level();
    let bar = threshold.score();
    let cy: usize = yi * STRIDE;
    let y2: usize = if cy < end_y {
        cy + 1
    } else {
        end_y
    };
    let n: usize = xs.len();
    let mut j: usize = 0;
    let ghost mut fx: int = 0;
    while j < n
        invariant
            src.wf(),
            integral.wf(),
            integral@ == src@,
            tpl.wf(),
            img == src@,
            t == tpl@,
            img.unit == t.unit,
            level == threshold.candidate_level(),
            bar.wf(),
            bar@ == threshold.level(),
            end_x + t.width == img.width,
            end_y + t.height == img.height,
            cy == 2 * yi,
            cy <= end_y,
            y2 == least(cy + 1, end_y as int),
            n == xs@.len(),
            j <= n,
            is_row_sweep(img, t, level, cy as int, xs@),
            fx >= 0,
            j > 0 ==> fx == xs@[j - 1] + 1,
            j == 0 ==> fx == 0,
            gathered(img, t, threshold, found@, cy as int, fx),
        decreases n - j,
    {
        let cx: usize = xs[j];
        proof {
            assert(is_candidate(img, t, level, xs@[j as int] as int, cy as int));
        }
        let x2: usize = if cx < end_x {
            cx + 1
        } else {
            end_x
        };
        let best = scan_region(src, integral, tpl, cx, cy, x2, y2);
        let ghost before = found@;
        let ghost span = block(img, t, cx as int, cy as int);
        let keep = best.confidence.ge(&bar);
        if keep {
            found.push(best);
        }
        proof {
            assert(span == Span { x1: cx as int, y1: cy as int, x2: x2 as int, y2: y2 as int });
            assert(origin(best.x as int) == cx && origin(best.y as int) == cy);
            let after = found@;
            let nfx = cx + 1;
            assert forall|k: int| 0 <= k < after.len() implies {
                &&& is_hit(img, t, threshold, #[trigger] after[k])
                &&& scanned_before(origin(after[k].x as int), origin(after[k].y as int), nfx, cy as int)
            } by {
                if k < before.len() {
                    assert(after[k] == before[k]);
                    assert(is_hit(img, t, threshold, before[k]));
                    lemma_frontier(img, t, level, cy as int, xs@, j as int, fx, before[k]);
                }
            }
            assert forall|k: int, l: int| 0 <= k < l < after.len() implies scanned_before(
                origin((#[trigger] after[k]).x as int),
                origin(after[k].y as int),
                origin((#[trigger] after[l]).x as int),
                origin(after[l].y as int),
            ) by {
                assert(after[k] == before[k]);
                if l < before.len() {
                    assert(after[l] == before[l]);
                } else {
                    assert(is_hit(img, t, threshold, before[k]));
                    lemma_frontier(img, t, level, cy as int, xs@, j as int, fx, before[k]);
                }
            }
            assert forall|m: MatchResult| #[trigger]
                is_hit(img, t, threshold, m) && scanned_before(
                    origin(m.x as int),
                    origin(m.y as int),
                    nfx,
                    cy as int,
                ) implies after.contains(m) by {
                if scanned_before(origin(m.x as int), origin(m.y as int), fx, cy as int) {
                    assert(before.contains(m));
                    let k = choose|k: int| 0 <= k < before.len() && before[k] == m;
                    assert(after[k] == m);
                } else {
                    lemma_frontier(img, t, level, cy as int, xs@, j as int, fx, m);
                    assert(origin(m.x as int) == cx);
                    lemma_first_best_unique(
                        img,
                        t,
                        span,
                        m.x as int,
                        m.y as int,
                        best.x as int,
                        best.y as int,
                    );
                    assert(m.confidence@ == best.confidence@);
                    assert(m.confidence == best.confidence);
                    assert(m == best);
                    assert(after[before.len() as int] == m);
                }
            }
            fx = nfx;
        }
        j += 1;
    }
    proof {
        let after = found@;
        assert forall|k: int| 0 <= k < after.len() implies scanned_before(
            origin((#[trigger] after[k]).x as int),
            origin(after[k].y as int),
            0,
            cy + 2,
        ) by {}
        assert forall|m: MatchResult| #[trigger]
            is_hit(img, t, threshold, m) && scanned_before(
                origin(m.x as int),
                origin(m.y as int),
                0,
                cy + 2,
            ) implies after.contains(m) by {
            if !scanned_before(origin(m.x as int), origin(m.y as int), fx, cy as int) {
                lemma_row_end(img, t, level, cy as int, xs@, fx, m);
            }
        }
    }
}

/// A hit at or beyond the frontier of a row lies in the block of the next
/// candidate or right of it; a hit before the frontier lies left of that
/// block.
proof fn lemma_frontier(
    src: Raster,
    tpl: Raster,
    level: Corr,
    cy: int,
    xs: Seq<usize>,
    j: int,
    fx: int,
    m: MatchResult,
)
    requires
        is_row_sweep(src, tpl, level, cy, xs),
        0 <= j < xs.len(),
        j > 0 ==> fx == xs[j - 1] + 1,
        j == 0 ==> fx == 0,
        cy % 2 == 0,
        is_candidate(src, tpl, level, origin(m.x as int), origin(m.y as int)),
    ensures
        scanned_before(origin(m.x as int), origin(m.y as int), fx, cy) ==> scanned_before(
            origin(m.x as int),
            origin(m.y as int),
            xs[j] as int,
            cy,
        ),
        !scanned_before(origin(m.x as int), origin(m.y as int), fx, cy) && scanned_before(
            origin(m.x as int),
            origin(m.y as int),
            xs[j] + 1,
            cy,
        ) ==> origin(m.x as int) == xs[j] && origin(m.y as int) == cy,
{
    let ox = origin(m.x as int);
    let oy = origin(m.y as int);
    if oy == cy {
        assert(is_candidate(src, tpl, level, ox, cy));
        let i = choose|i: int| 0 <= i < xs.len() && xs[i] == ox;
        if i < j {
            if j > 0 && i < j - 1 {
                assert(xs[i] < xs[j - 1]);
            }
        } else if i > j {
            assert(xs[j] < xs[i]);
        }
        if j > 0 {
            assert(xs[j - 1] < xs[j]);
        }
    }
}

/// No hit of a row lies at or beyond the frontier once every candidate of
/// the row is dealt with.
proof fn lemma_row_end(
    src: Raster,
    tpl: Raster,
    level: Corr,
    cy: int,
    xs: Seq<usize>,
    fx: int,
    m: MatchResult,
)
    requires
        is_row_sweep(src, tpl, level, cy, xs),
        xs.len() > 0 ==> fx == xs[xs.len() - 1] + 1,
        xs.len() == 0 ==> fx == 0,
        cy % 2 == 0,
        is_candidate(src, tpl, level, origin(m.x as int), origin(m.y as int)),
        scanned_before(origin(m.x as int), origin(m.y as int), 0, cy + 2),
    ensures
        scanned_before(origin(m.x as int), origin(m.y as int), fx, cy),
{
    let ox = origin(m.x as int);
    let oy = origin(m.y as int);
    if oy == cy {
        assert(is_candidate(src, tpl, level, ox, cy));
        let i = choose|i: int| 0 <= i < xs.len() && xs[i] == ox;
        if i < xs.len() - 1 {
            assert(xs[i] < xs[xs.len() - 1]);
        }
    }
}

/// Finds up to `max_count` matches of a template in a source that reach the
/// threshold, the most confident first, no two of them within half the
/// template's width and half its height of each other.
pub fn match_multi(
    src: &GrayBuffer,
    tpl: &GrayBuffer,
    threshold: Threshold,
    max_count: usize,
) -> (r: Vec<MatchResult>)
    requires
        src.wf(),
        tpl.wf(),
        src@.unit == tpl@.unit,
    ensures
        is_multi_result(src@, tpl@, threshold, max_count as int, r@),
        r@.len() <= max_count,
        sorted_desc(r@),
        pairwise_separated(r@, tpl@.width / 2, tpl@.height / 2),
        forall|i: int| 0 <= i < r@.len() ==> is_hit(src@, tpl@, threshold, #[trigger] r@[i]),
{
    let sw: usize = src.width();
    let sh: usize = src.height();
    let tw: usize = tpl.width();
    let th: usize = tpl.height();
    if tw > sw || th > sh || tw == 0 || th == 0 {
        proof {
            if tw == 0 || th == 0 {
                assert(tw * th == 0) by (nonlinear_arith)
                    requires
                        tw == 0 || th == 0,
                ;
            }
        }
        return Vec::new();
    }
    proof {
        assert(tw * th >= 1) by (nonlinear_arith)
            requires
                tw >= 1,
                th >= 1,
        ;
    }
    let integral = IntegralImage::new(src);
    let profile = Template::new(tpl);
    let end_x: usize = sw - tw;
    let end_y: usize = sh - th;
    let level = threshold.nine_tenths();
    let last_row: usize = end_y / STRIDE;
    let rows = sweep_rows(src, &integral, &profile, end_x, last_row, &level);
    let mut found: Vec<MatchResult> = Vec::new();
    let count: usize = rows.len();
    let mut yi: usize = 0;
    while yi < count
        invariant
            src.wf(),
            integral.wf(),
            integral@ == src@,
            profile.wf(),
            profile@ == tpl@,
            src@.unit == tpl@.unit,
            end_x + tpl@.width == src@.width,
            end_y + tpl@.height == src@.height,
            count == rows@.len(),
            count == end_y / 2 + 1,
            yi <= count,
            forall|i: int|
                0 <= i < rows@.len() ==> is_row_sweep(
                    src@,
                    tpl@,
                    threshold.candidate_level(),
                    2 * i,
                    (#[trigger] rows@[i])@,
                ),
            gathered(src@, tpl@, threshold, found@, 2 * yi, 0),
        decreases count - yi,
    {
        refine_row(src, &integral, &profile, end_x, end_y, yi, &rows[yi], threshold, &mut found);
        yi += 1;
    }
    proof {
        lemma_gathered_distinct(src@, tpl@, threshold, found@, 2 * count, 0);
    }
    let ranked = sort_by_confidence(&found);
    proof {
        let hits = found@;
        let order = ranked@;
        assert forall|m: MatchResult| order.contains(m) <==> is_hit(src@, tpl@, threshold, m) by {
            vstd::seq_lib::to_multiset_contains(order, m);
            vstd::seq_lib::to_multiset_contains(hits, m);
            if hits.contains(m) {
                let k = choose|k: int| 0 <= k < hits.len() && hits[k] == m;
                assert(is_hit(src@, tpl@, threshold, hits[k]));
            }
        }
        hits.lemma_multiset_has_no_duplicates();
        order.lemma_multiset_has_no_duplicates_conv();
        assert(is_ranking(src@, tpl@, threshold, order));
        let hw = (tw as int) / 2;
        let hh = (th as int) / 2;
        lemma_suppress_properties(order, hw, hh, max_count as int);
        let kept = suppress(order, hw, hh, max_count as int);
        assert forall|i: int| 0 <= i < kept.len() implies is_hit(
            src@,
            tpl@,
            threshold,
            #[trigger] kept[i],
        ) by {
            assert(order.contains(kept[i]));
        }
    }
    suppress_ranked(&ranked, (tw / STRIDE) as u32, (th / STRIDE) as u32, max_count)
}

} // verus!
