//! The stateless engine value wrapping the extraction, whitening and quality
//! operations, for callers that prefer a service object over free functions.

use crate::extract;
use crate::extract::{chunk_view, differential_chunk, single_frame_chunk};
use crate::quality;
use crate::quality::{distinct_count, shannon_q32};
use crate::whiten;
use crate::whiten::whitened;
use vstd::prelude::*;

verus! {

/// The stateless entropy engine. It carries no data; every operation is a
/// pure function of its arguments.
pub struct Ocelli;

impl Ocelli {
    /// Differential-grid extraction over two frames; see
    /// [`extract::chop_and_tack`].
    pub fn chop_and_tack(
        &self,
        current: &[u8],
        previous: &[u8],
        width: usize,
        minimum_distance: usize,
    ) -> (out: Option<Vec<u8>>)
        requires
            minimum_distance >= 1,
        ensures
            chunk_view(out) == differential_chunk(
                current@,
                previous@,
                width as int,
                minimum_distance as int,
            ),
    {
        extract::chop_and_tack(current, previous, width, minimum_distance)
    }

    /// Single-frame least-significant-bit extraction; see
    /// [`extract::pick_and_flip`].
    pub fn pick_and_flip(
        &self,
        data: &[u8],
        low: u8,
        high: u8,
        current_frame_index: usize,
    ) -> (out: Vec<u8>)
        ensures
            out@ == single_frame_chunk(data@, low, high, current_frame_index as int),
    {
        extract::pick_and_flip(data, low, high, current_frame_index)
    }

    /// Shannon entropy of the byte distribution, in Q32 fixed point (bits
    /// per byte times 2^32); see [`quality::shannon`].
    pub fn shannon(&self, data: &[u8]) -> (score: u64)
        ensures
            score as nat == shannon_q32(data@),
    {
        quality::shannon(data)
    }

    /// Von Neumann whitening of a byte buffer; see [`whiten::whiten`].
    pub fn whiten(&self, entropy: &[u8]) -> (out: Vec<u8>)
        ensures
            out@ == whitened(entropy@),
    {
        whiten::whiten(entropy)
    }

    /// Lens-coverage check over a grayscale frame; see
    /// [`quality::is_covered`].
    pub fn is_covered(&self, grayscale: &[u8], threshold: usize) -> (covered: bool)
        ensures
            covered == (distinct_count(grayscale@) < threshold),
    {
        quality::is_covered(grayscale, threshold)
    }
}

} // verus!
