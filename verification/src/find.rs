//! The entry points: a template is looked for in a source, both given as
//! pixels, as encoded images, or as buffers loaded before.

use crate::buffer::{loaded, raw_load, GrayBuffer};
use crate::decode::{from_decoded, is_load_outcome};
use crate::error::{ImageFault, MatchError};
use crate::multi::{is_multi_result, match_multi};
use crate::pyramid::{is_pyramid_result, pyramid_match};
use crate::raster::Raster;
use crate::score::Threshold;
use crate::search::MatchResult;
use vstd::prelude::*;

verus! {

/// The error of a search, if it ends in one: the source's fault, else the
/// template's.
pub open spec fn search_error(
    source: Result<Raster, ImageFault>,
    template: Result<Raster, ImageFault>,
) -> Option<MatchError> {
    match source {
        Err(fault) => Some(MatchError::Source(fault)),
        Ok(_) => match template {
            Err(fault) => Some(MatchError::Template(fault)),
            Ok(_) => None,
        },
    }
}

/// What the search for the single best match returns for two images that were
/// loaded or refused.
pub open spec fn is_single_outcome(
    source: Result<Raster, ImageFault>,
    template: Result<Raster, ImageFault>,
    threshold: Threshold,
    r: Result<Option<MatchResult>, MatchError>,
) -> bool {
    match search_error(source, template) {
        Some(error) => r == Err::<Option<MatchResult>, MatchError>(error),
        None => r matches Ok(found) && is_pyramid_result(
            source->Ok_0,
            template->Ok_0,
            threshold,
            found,
        ),
    }
}

/// What the search for every occurrence returns for two images that were
/// loaded or refused.
pub open spec fn is_every_outcome(
    source: Result<Raster, ImageFault>,
    template: Result<Raster, ImageFault>,
    threshold: Threshold,
    max_count: int,
    r: Result<Vec<MatchResult>, MatchError>,
) -> bool {
    match search_error(source, template) {
        Some(error) => r == Err::<Vec<MatchResult>, MatchError>(error),
        None => r matches Ok(found) && is_multi_result(
            source->Ok_0,
            template->Ok_0,
            threshold,
            max_count,
            found@,
        ),
    }
}

/// Each image, where it was loaded, is valid, and the two are in the same
/// unit.
pub open spec fn comparable(
    source: Result<GrayBuffer, ImageFault>,
    template: Result<GrayBuffer, ImageFault>,
) -> bool {
    &&& source matches Ok(buffer) ==> buffer.wf()
    &&& template matches Ok(buffer) ==> buffer.wf()
    &&& source is Ok && template is Ok ==> source->Ok_0@.unit == template->Ok_0@.unit
}

/// Finds the single best match of a template in a source, each loaded or
/// refused before.
pub fn find_template_in(
    source: Result<GrayBuffer, ImageFault>,
    template: Result<GrayBuffer, ImageFault>,
    threshold: Threshold,
) -> (r: Result<Option<MatchResult>, MatchError>)
    requires
        comparable(source, template),
    ensures
        is_single_outcome(loaded(source), loaded(template), threshold, r),
{
    match source {
        Err(fault) => Err(MatchError::Source(fault)),
        Ok(src) => match template {
            Err(fault) => Err(MatchError::Template(fault)),
            Ok(tpl) => Ok(pyramid_match(&src, &tpl, threshold)),
        },
    }
}

/// Finds up to `max_count` matches of a template in a source, each loaded or
/// refused before.
pub fn find_all_templates_in(
    source: Result<GrayBuffer, ImageFault>,
    template: Result<GrayBuffer, ImageFault>,
    threshold: Threshold,
    max_count: usize,
) -> (r: Result<Vec<MatchResult>, MatchError>)
    requires
        comparable(source, template),
    ensures
        is_every_outcome(loaded(source), loaded(template), threshold, max_count as int, r),
{
    match source {
        Err(fault) => Err(MatchError::Source(fault)),
        Ok(src) => match template {
            Err(fault) => Err(MatchError::Template(fault)),
            Ok(tpl) => Ok(match_multi(&src, &tpl, threshold, max_count)),
        },
    }
}

/// Finds the single best match of a template in a source, both given as
/// 8-bit pixels, row after row.
pub fn find_template_raw(
    source_pixels: Vec<u8>,
    source_width: usize,
    source_height: usize,
    template_pixels: Vec<u8>,
    template_width: usize,
    template_height: usize,
    threshold: Threshold,
) -> (r: Result<Option<MatchResult>, MatchError>)
    ensures
        is_single_outcome(
            raw_load(source_pixels@, source_width, source_height),
            raw_load(template_pixels@, template_width, template_height),
            threshold,
            r,
        ),
{
    let source = GrayBuffer::from_raw(source_pixels, source_width, source_height);
    let template = GrayBuffer::from_raw(template_pixels, template_width, template_height);
    find_template_in(source, template, threshold)
}

/// Finds up to `max_count` matches of a template in a source, both given as
/// 8-bit pixels, row after row.
pub fn find_all_templates_raw(
    source_pixels: Vec<u8>,
    source_width: usize,
    source_height: usize,
    template_pixels: Vec<u8>,
    template_width: usize,
    template_height: usize,
    threshold: Threshold,
    max_count: usize,
) -> (r: Result<Vec<MatchResult>, MatchError>)
    ensures
        is_every_outcome(
            raw_load(source_pixels@, source_width, source_height),
            raw_load(template_pixels@, template_width, template_height),
            threshold,
            max_count as int,
            r,
        ),
{
    let source = GrayBuffer::from_raw(source_pixels, source_width, source_height);
    let template = GrayBuffer::from_raw(template_pixels, template_width, template_height);
    find_all_templates_in(source, template, threshold, max_count)
}

/// Finds the single best match of a template in a source, both given as
/// encoded images. What is found is what `find_template_in` finds for what
/// `from_decoded` makes of the decoder's two answers.
pub fn find_template_bytes(source_bytes: &[u8], template_bytes: &[u8], threshold: Threshold) -> (r:
    Result<Option<MatchResult>, MatchError>)
    ensures
        exists|
            source_answer: Result<image::DynamicImage, image::ImageError>,
            template_answer: Result<image::DynamicImage, image::ImageError>,
            source: Result<GrayBuffer, ImageFault>,
            template: Result<GrayBuffer, ImageFault>,
        |
            #![trigger is_load_outcome(source_answer, source), is_load_outcome(template_answer, template)]
            {
                &&& is_load_outcome(source_answer, source)
                &&& is_load_outcome(template_answer, template)
                &&& is_single_outcome(loaded(source), loaded(template), threshold, r)
            },
{
    let source_answer = image::load_from_memory(source_bytes);
    let template_answer = image::load_from_memory(template_bytes);
    let source = from_decoded(source_answer);
    let template = from_decoded(template_answer);
    let r = find_template_in(source, template, threshold);
    proof {
        assert(is_load_outcome(source_answer, source) && is_load_outcome(
            template_answer,
            template,
        ) && is_single_outcome(loaded(source), loaded(template), threshold, r));
    }
    r
}

/// Finds up to `max_count` matches of a template in a source, both given as
/// encoded images. What is found is what `find_all_templates_in` finds for
/// what `from_decoded` makes of the decoder's two answers.
pub fn find_all_templates_bytes(
    source_bytes: &[u8],
    template_bytes: &[u8],
    threshold: Threshold,
    max_count: usize,
) -> (r: Result<Vec<MatchResult>, MatchError>)
    ensures
        exists|
            source_answer: Result<image::DynamicImage, image::ImageError>,
            template_answer: Result<image::DynamicImage, image::ImageError>,
            source: Result<GrayBuffer, ImageFault>,
            template: Result<GrayBuffer, ImageFault>,
        |
            #![trigger is_load_outcome(source_answer, source), is_load_outcome(template_answer, template)]
            {
                &&& is_load_outcome(source_answer, source)
                &&& is_load_outcome(template_answer, template)
                &&& is_every_outcome(
                    loaded(source),
                    loaded(template),
                    threshold,
                    max_count as int,
                    r,
                )
            },
{
    let source_answer = image::load_from_memory(source_bytes);
    let template_answer = image::load_from_memory(template_bytes);
    let source = from_decoded(source_answer);
    let template = from_decoded(template_answer);
    let r = find_all_templates_in(source, template, threshold, max_count);
    proof {
        assert(is_load_outcome(source_answer, source) && is_load_outcome(
            template_answer,
            template,
        ) && is_every_outcome(loaded(source), loaded(template), threshold, max_count as int, r));
    }
    r
}

/// The number of workers for the pool: the number asked for, or the number
/// of processors where none is asked for.
pub fn worker_count(requested: usize, processors: usize) -> (count: usize)
    ensures
        count == if requested == 0 {
            processors
        } else {
            requested
        },
{
    if requested == 0 {
        processors
    } else {
        requested
    }
}

} // verus!
