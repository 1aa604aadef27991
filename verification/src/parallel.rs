//! Rows handed out to the worker pool.

use crate::buffer::GrayBuffer;
use crate::integral::IntegralImage;
use crate::multi::{is_row_sweep, sweep_row};
use crate::score::Score;
use crate::search::{is_best_match, scan_row, MatchResult, Span};
use crate::template::Template;
use rayon::iter::{IntoParallelIterator, ParallelIterator};
use vstd::prelude::*;

verus! {

/// The best alignment of each row from 0 to `end_y`, over the columns from 0
/// to `end_x`, computed by `rayon`: `into_par_iter` on the inclusive range of
/// rows, `map` with `scan_row`, and `collect` into a vector. The contract
/// claims of `rayon` that the vector holds one entry for each row, in the
/// order of the rows, and that the entry of a row is what `scan_row` returned
/// for that row.
#[verifier::external_body]
pub(crate) fn scan_rows(
    src: &GrayBuffer,
    integral: &IntegralImage,
    tpl: &Template,
    end_x: usize,
    end_y: usize,
) -> (rows: Vec<MatchResult>)
    requires
        src.wf(),
        integral.wf(),
        integral@ == src@,
        tpl.wf(),
        src@.unit == tpl@.unit,
        end_x + tpl@.width <= src@.width,
        end_y + tpl@.height <= src@.height,
    ensures
        rows@.len() == end_y + 1,
        forall|y: int|
            0 <= y <= end_y ==> is_best_match(
                src@,
                tpl@,
                Span { x1: 0, y1: y, x2: end_x as int, y2: y },
                #[trigger] rows@[y],
            ),
{
    (0..=end_y).into_par_iter().map(|y| scan_row(src, integral, tpl, 0, end_x, y)).collect()
}

/// The candidates of each grid row from 0 to `last_row`, computed by `rayon`:
/// `into_par_iter` on the inclusive range of grid rows, `map` with
/// `sweep_row`, and `collect` into a vector. The contract claims of `rayon`
/// that the vector holds one entry for each grid row, in the order of the
/// rows, and that the entry of a row is what `sweep_row` returned for that
/// row.
#[verifier::external_body]
pub(crate) fn sweep_rows(
    src: &GrayBuffer,
    integral: &IntegralImage,
    tpl: &Template,
    end_x: usize,
    last_row: usize,
    level: &Score,
) -> (rows: Vec<Vec<usize>>)
    requires
        src.wf(),
        integral.wf(),
        integral@ == src@,
        tpl.wf(),
        src@.unit == tpl@.unit,
        level.wf(),
        end_x + tpl@.width == src@.width,
        2 * last_row + tpl@.height <= src@.height,
    ensures
        rows@.len() == last_row + 1,
        forall|yi: int|
            0 <= yi < rows@.len() ==> is_row_sweep(
                src@,
                tpl@,
                level@,
                2 * yi,
                (#[trigger] rows@[yi])@,
            ),
{
    (0..=last_row).into_par_iter().map(|yi| sweep_row(src, integral, tpl, end_x, yi, level)).collect()
}

} // verus!
