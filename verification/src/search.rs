//! Exhaustive search for the best alignment in a rectangle of alignments.
//!
//! Ties are broken by scan order: rows from the top, each row from the left,
//! and the first alignment with the greatest score wins.

use crate::buffer::GrayBuffer;
use crate::integral::IntegralImage;
use crate::ncc::{compute_ncc, lemma_ncc_range, ncc};
use crate::parallel::scan_rows;
use crate::raster::Raster;
use crate::score::{lemma_ge_transitive, lemma_gt_ge_transitive, Corr, Score};
use crate::template::Template;
use vstd::prelude::*;

verus! {

/// Where a template was found, and how well it correlates there.
#[derive(Clone, Copy, Debug, PartialEq, Eq)]
pub struct MatchResult {
    /// The column of the template's left edge in the source.
    pub x: u32,
    /// The row of the template's top edge in the source.
    pub y: u32,
    /// The correlation at that alignment.
    pub confidence: Score,
}

impl MatchResult {
    /// The position and the score as a triple.
    pub fn to_tuple(&self) -> (t: (u32, u32, Score))
        ensures
            t == (self.x, self.y, self.confidence),
    {
        (self.x, self.y, self.confidence)
    }

    /// The rectangle a template of `width` by `height` pixels covers at the
    /// match: left, top, width, height.
    pub fn bbox(&self, width: u32, height: u32) -> (b: (u32, u32, u32, u32))
        ensures
            b == (self.x, self.y, width, height),
    {
        (self.x, self.y, width, height)
    }
}

/// An inclusive rectangle of alignments.
pub struct Span {
    pub x1: int,
    pub y1: int,
    pub x2: int,
    pub y2: int,
}

impl Span {
    /// The alignment `(x, y)` lies in the rectangle.
    pub open spec fn has(self, x: int, y: int) -> bool {
        self.x1 <= x <= self.x2 && self.y1 <= y <= self.y2
    }

    /// The template lies inside the source at every alignment of the
    /// rectangle.
    pub open spec fn admitted(self, src: Raster, tpl: Raster) -> bool {
        &&& 0 <= self.x1
        &&& 0 <= self.y1
        &&& self.x2 + tpl.width <= src.width
        &&& self.y2 + tpl.height <= src.height
        &&& 0 <= tpl.width
        &&& 0 <= tpl.height
    }

    /// Every alignment at which the template lies inside the source.
    pub open spec fn all(src: Raster, tpl: Raster) -> Span {
        Span { x1: 0, y1: 0, x2: src.width - tpl.width, y2: src.height - tpl.height }
    }
}

/// The alignment `(x, y)` is scanned before `(bx, by)`.
pub open spec fn scanned_before(x: int, y: int, bx: int, by: int) -> bool {
    y < by || (y == by && x < bx)
}

/// `(bx, by)` is the first alignment of the rectangle, in scan order, whose
/// score no alignment of the rectangle exceeds.
pub open spec fn is_first_best(src: Raster, tpl: Raster, span: Span, bx: int, by: int) -> bool {
    &&& span.has(bx, by)
    &&& forall|x: int, y: int|
        span.has(x, y) ==> ncc(src, tpl, bx, by).ge(#[trigger] ncc(src, tpl, x, y))
    &&& forall|x: int, y: int|
        span.has(x, y) && scanned_before(x, y, bx, by) ==> ncc(src, tpl, bx, by).gt(
            #[trigger] ncc(src, tpl, x, y),
        )
}

/// `m` reports the first best alignment of the rectangle with its score.
pub open spec fn is_best_match(src: Raster, tpl: Raster, span: Span, m: MatchResult) -> bool {
    &&& is_first_best(src, tpl, span, m.x as int, m.y as int)
    &&& m.confidence@ == ncc(src, tpl, m.x as int, m.y as int)
    &&& m.confidence.wf()
}

/// What a search of the rectangle returns: the first best alignment if its
/// score reaches the threshold, and nothing if no score does.
pub open spec fn is_search_result(
    src: Raster,
    tpl: Raster,
    span: Span,
    threshold: Corr,
    r: Option<MatchResult>,
) -> bool {
    match r {
        Some(m) => is_best_match(src, tpl, span, m) && m.confidence@.ge(threshold),
        None => forall|x: int, y: int|
            span.has(x, y) ==> !(#[trigger] ncc(src, tpl, x, y)).ge(threshold),
    }
}

/// A rectangle has one first best alignment.
pub proof fn lemma_first_best_unique(
    src: Raster,
    tpl: Raster,
    span: Span,
    ax: int,
    ay: int,
    bx: int,
    by: int,
)
    requires
        is_first_best(src, tpl, span, ax, ay),
        is_first_best(src, tpl, span, bx, by),
    ensures
        ax == bx,
        ay == by,
{
    if scanned_before(ax, ay, bx, by) {
        assert(ncc(src, tpl, bx, by).gt(ncc(src, tpl, ax, ay)));
        assert(ncc(src, tpl, ax, ay).ge(ncc(src, tpl, bx, by)));
    } else if scanned_before(bx, by, ax, ay) {
        assert(ncc(src, tpl, ax, ay).gt(ncc(src, tpl, bx, by)));
        assert(ncc(src, tpl, bx, by).ge(ncc(src, tpl, ax, ay)));
    }
}

/// Joining a rectangle with a rectangle scanned after it: the later best
/// takes over only where it is strictly better.
proof fn lemma_join(
    src: Raster,
    tpl: Raster,
    first: Span,
    second: Span,
    joined: Span,
    ax: int,
    ay: int,
    bx: int,
    by: int,
)
    requires
        src.wf(),
        tpl.wf(),
        tpl.area() >= 1,
        joined.admitted(src, tpl),
        is_first_best(src, tpl, first, ax, ay),
        is_first_best(src, tpl, second, bx, by),
        forall|x: int, y: int| joined.has(x, y) <==> first.has(x, y) || second.has(x, y),
        forall|x: int, y: int, u: int, v: int|
            first.has(x, y) && second.has(u, v) ==> scanned_before(x, y, u, v),
    ensures
        ncc(src, tpl, bx, by).gt(ncc(src, tpl, ax, ay)) ==> is_first_best(
            src,
            tpl,
            joined,
            bx,
            by,
        ),
        !ncc(src, tpl, bx, by).gt(ncc(src, tpl, ax, ay)) ==> is_first_best(
            src,
            tpl,
            joined,
            ax,
            ay,
        ),
{
    let a = ncc(src, tpl, ax, ay);
    let b = ncc(src, tpl, bx, by);
    assert(joined.has(ax, ay) && joined.has(bx, by));
    lemma_ncc_range(src, tpl, ax, ay);
    lemma_ncc_range(src, tpl, bx, by);
    if b.gt(a) {
        assert forall|x: int, y: int| joined.has(x, y) implies b.ge(
            #[trigger] ncc(src, tpl, x, y),
        ) by {
            lemma_ncc_range(src, tpl, x, y);
            if first.has(x, y) {
                lemma_ge_transitive(b, a, ncc(src, tpl, x, y));
            }
        }
        assert forall|x: int, y: int|
            joined.has(x, y) && scanned_before(x, y, bx, by) implies b.gt(
            #[trigger] ncc(src, tpl, x, y),
        ) by {
            lemma_ncc_range(src, tpl, x, y);
            if first.has(x, y) {
                lemma_gt_ge_transitive(b, a, ncc(src, tpl, x, y));
            }
        }
    } else {
        assert forall|x: int, y: int| joined.has(x, y) implies a.ge(
            #[trigger] ncc(src, tpl, x, y),
        ) by {
            lemma_ncc_range(src, tpl, x, y);
            if second.has(x, y) {
                lemma_ge_transitive(a, b, ncc(src, tpl, x, y));
            }
        }
        assert forall|x: int, y: int|
            joined.has(x, y) && scanned_before(x, y, ax, ay) implies a.gt(
            #[trigger] ncc(src, tpl, x, y),
        ) by {
            if second.has(x, y) {
                assert(scanned_before(ax, ay, x, y));
            }
        }
    }
}

/// The best alignment of row `y` from column `x1` to column `x2`.
pub fn scan_row(
    src: &GrayBuffer,
    integral: &IntegralImage,
    tpl: &Template,
    x1: usize,
    x2: usize,
    y: usize,
) -> (best: MatchResult)
    requires
        src.wf(),
        integral.wf(),
        integral@ == src@,
        tpl.wf(),
        src@.unit == tpl@.unit,
        x1 <= x2,
        (Span { x1: x1 as int, y1: y as int, x2: x2 as int, y2: y as int }).admitted(src@, tpl@),
    ensures
        is_best_match(
            src@,
            tpl@,
            Span { x1: x1 as int, y1: y as int, x2: x2 as int, y2: y as int },
            best,
        ),
{
    let ghost img = src@;
    let ghost t = tpl@;
    proof {
        t.lemma_pixel_sides();
        img.lemma_sides();
    }
    let first = compute_ncc(src, integral, tpl, x1, y);
    let mut best = MatchResult { x: x1 as u32, y: y as u32, confidence: first };
    let mut x: usize = x1;
    while x < x2
        invariant
            src.wf(),
            integral.wf(),
            integral@ == src@,
            tpl.wf(),
            img == src@,
            t == tpl@,
            img.unit == t.unit,
            img.width <= u32::MAX,
            img.height <= u32::MAX,
            x1 <= x <= x2,
            (Span { x1: x1 as int, y1: y as int, x2: x2 as int, y2: y as int }).admitted(img, t),
            is_best_match(
                img,
                t,
                Span { x1: x1 as int, y1: y as int, x2: x as int, y2: y as int },
                best,
            ),
        decreases x2 - x,
    {
        x += 1;
        let score = compute_ncc(src, integral, tpl, x, y);
        proof {
            let done = Span { x1: x1 as int, y1: y as int, x2: x - 1, y2: y as int };
            let next = Span { x1: x as int, y1: y as int, x2: x as int, y2: y as int };
            let both = Span { x1: x1 as int, y1: y as int, x2: x as int, y2: y as int };
            assert(is_first_best(img, t, next, x as int, y as int));
            lemma_join(img, t, done, next, both, best.x as int, best.y as int, x as int, y as int);
        }
        if score.gt(&best.confidence) {
            best = MatchResult { x: x as u32, y: y as u32, confidence: score };
        }
    }
    best
}

/// The better of the best of some rows and the best of the row below them.
fn join_rows(
    above: MatchResult,
    below: MatchResult,
    Ghost(src): Ghost<Raster>,
    Ghost(tpl): Ghost<Raster>,
    Ghost(x1): Ghost<int>,
    Ghost(x2): Ghost<int>,
    Ghost(y1): Ghost<int>,
    Ghost(y): Ghost<int>,
) -> (best: MatchResult)
    requires
        src.wf(),
        tpl.wf(),
        tpl.area() >= 1,
        y1 < y,
        (Span { x1, y1, x2, y2: y }).admitted(src, tpl),
        is_best_match(src, tpl, Span { x1, y1, x2, y2: y - 1 }, above),
        is_best_match(src, tpl, Span { x1, y1: y, x2, y2: y }, below),
    ensures
        is_best_match(src, tpl, Span { x1, y1, x2, y2: y }, best),
{
    proof {
        lemma_join(
            src,
            tpl,
            Span { x1, y1, x2, y2: y - 1 },
            Span { x1, y1: y, x2, y2: y },
            Span { x1, y1, x2, y2: y },
            above.x as int,
            above.y as int,
            below.x as int,
            below.y as int,
        );
    }
    if below.confidence.gt(&above.confidence) {
        below
    } else {
        above
    }
}

/// The best alignment of a rectangle that is not empty, rows scanned one
/// after the other.
pub fn scan_region(
    src: &GrayBuffer,
    integral: &IntegralImage,
    tpl: &Template,
    x1: usize,
    y1: usize,
    x2: usize,
    y2: usize,
) -> (best: MatchResult)
    requires
        src.wf(),
        integral.wf(),
        integral@ == src@,
        tpl.wf(),
        src@.unit == tpl@.unit,
        x1 <= x2,
        y1 <= y2,
        (Span { x1: x1 as int, y1: y1 as int, x2: x2 as int, y2: y2 as int }).admitted(
            src@,
            tpl@,
        ),
    ensures
        is_best_match(
            src@,
            tpl@,
            Span { x1: x1 as int, y1: y1 as int, x2: x2 as int, y2: y2 as int },
            best,
        ),
{
    let mut best = scan_row(src, integral, tpl, x1, x2, y1);
    let mut y: usize = y1;
    while y < y2
        invariant
            src.wf(),
            integral.wf(),
            integral@ == src@,
            tpl.wf(),
            src@.unit == tpl@.unit,
            x1 <= x2,
            y1 <= y <= y2,
            (Span { x1: x1 as int, y1: y1 as int, x2: x2 as int, y2: y2 as int }).admitted(
                src@,
                tpl@,
            ),
            is_best_match(
                src@,
                tpl@,
                Span { x1: x1 as int, y1: y1 as int, x2: x2 as int, y2: y as int },
                best,
            ),
        decreases y2 - y,
    {
        y += 1;
        let row = scan_row(src, integral, tpl, x1, x2, y);
        best =
        join_rows(
            best,
            row,
            Ghost(src@),
            Ghost(tpl@),
            Ghost(x1 as int),
            Ghost(x2 as int),
            Ghost(y1 as int),
            Ghost(y as int),
        );
    }
    best
}

/// The template is no wider and no higher than the source.
pub open spec fn fits(src: Raster, tpl: Raster) -> bool {
    tpl.width <= src.width && tpl.height <= src.height
}

/// Searches every alignment of the template in the source, the rows in
/// parallel, and returns the first best one if its score reaches the
/// threshold. A template that is wider or higher than the source is not
/// found.
pub fn search_best(src: &GrayBuffer, tpl: &Template, threshold: &Score) -> (r: Option<
    MatchResult,
>)
    requires
        src.wf(),
        tpl.wf(),
        src@.unit == tpl@.unit,
        threshold.wf(),
    ensures
        !fits(src@, tpl@) ==> r.is_none(),
        fits(src@, tpl@) ==> is_search_result(
            src@,
            tpl@,
            Span::all(src@, tpl@),
            threshold@,
            r,
        ),
{
    let tw: usize = tpl.width();
    let th: usize = tpl.height();
    if tw > src.width || th > src.height {
        return None;
    }
    let integral = IntegralImage::new(src);
    let end_x: usize = src.width - tw;
    let end_y: usize = src.height - th;
    let rows = scan_rows(src, &integral, tpl, end_x, end_y);
    let mut best = rows[0];
    let mut y: usize = 0;
    while y < end_y
        invariant
            src.wf(),
            tpl.wf(),
            src@.unit == tpl@.unit,
            end_x + tpl@.width == src@.width,
            end_y + tpl@.height == src@.height,
            0 <= tpl@.width,
            0 <= tpl@.height,
            y <= end_y,
            rows@.len() == end_y + 1,
            forall|j: int|
                0 <= j <= end_y ==> is_best_match(
                    src@,
                    tpl@,
                    Span { x1: 0, y1: j, x2: end_x as int, y2: j },
                    #[trigger] rows@[j],
                ),
            is_best_match(src@, tpl@, Span { x1: 0, y1: 0, x2: end_x as int, y2: y as int }, best),
        decreases end_y - y,
    {
        y += 1;
        best =
        join_rows(
            best,
            rows[y],
            Ghost(src@),
            Ghost(tpl@),
            Ghost(0),
            Ghost(end_x as int),
            Ghost(0),
            Ghost(y as int),
        );
    }
    finish(best, threshold, Ghost(src@), Ghost(tpl@), Ghost(Span::all(src@, tpl@)))
}

/// Holds the best alignment of a rectangle against the threshold.
fn finish(
    best: MatchResult,
    threshold: &Score,
    Ghost(src): Ghost<Raster>,
    Ghost(tpl): Ghost<Raster>,
    Ghost(span): Ghost<Span>,
) -> (r: Option<MatchResult>)
    requires
        src.wf(),
        tpl.wf(),
        tpl.area() >= 1,
        span.admitted(src, tpl),
        threshold.wf(),
        is_best_match(src, tpl, span, best),
    ensures
        is_search_result(src, tpl, span, threshold@, r),
{
    if best.confidence.ge(threshold) {
        Some(best)
    } else {
        proof {
            assert forall|x: int, y: int| span.has(x, y) implies !(#[trigger] ncc(
                src,
                tpl,
                x,
                y,
            )).ge(threshold@) by {
                lemma_ncc_range(src, tpl, x, y);
                if ncc(src, tpl, x, y).ge(threshold@) {
                    lemma_ge_transitive(best.confidence@, ncc(src, tpl, x, y), threshold@);
                }
            }
        }
        None
    }
}

/// Searches the alignments of an inclusive rectangle, one row after the
/// other, and returns the first best one if its score reaches the threshold.
/// An empty rectangle holds no match.
pub fn search_region(
    src: &GrayBuffer,
    tpl: &Template,
    x1: usize,
    y1: usize,
    x2: usize,
    y2: usize,
    threshold: &Score,
) -> (r: Option<MatchResult>)
    requires
        src.wf(),
        tpl.wf(),
        src@.unit == tpl@.unit,
        threshold.wf(),
        x2 + tpl@.width <= src@.width,
        y2 + tpl@.height <= src@.height,
    ensures
        is_search_result(
            src@,
            tpl@,
            Span { x1: x1 as int, y1: y1 as int, x2: x2 as int, y2: y2 as int },
            threshold@,
            r,
        ),
{
    if x1 > x2 || y1 > y2 {
        return None;
    }
    let integral = IntegralImage::new(src);
    let best = scan_region(src, &integral, tpl, x1, y1, x2, y2);
    finish(
        best,
        threshold,
        Ghost(src@),
        Ghost(tpl@),
        Ghost(Span { x1: x1 as int, y1: y1 as int, x2: x2 as int, y2: y2 as int }),
    )
}

} // verus!
