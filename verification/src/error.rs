//! What can be wrong with an image handed to the matcher.

use vstd::prelude::*;

verus! {

/// Why an image was refused.
#[derive(Debug)]
pub enum ImageFault {
    /// The number of pixels is not the width times the height.
    PixelCount { width: usize, height: usize, pixels: usize },
    /// The image holds a pixel and is beyond what a buffer takes: more than
    /// 2^40 pixels, a side above 2^32 - 1, or a table of corners beyond the
    /// machine's word.
    TooLarge { width: usize, height: usize },
    /// The encoded image could not be decoded; the decoder's message.
    Undecodable { message: String },
    /// The decoded image holds samples that are not whole numbers of 8 or 16
    /// bits. Only whole samples are converted to luminances here.
    FractionalSamples,
}

/// Which of the two images of a search was refused, and why.
#[derive(Debug)]
pub enum MatchError {
    Source(ImageFault),
    Template(ImageFault),
}

} // verus!
