//! The stateless buffer-in/buffer-out entry points.
//!
//! Each operation takes borrowed input buffers plus scalar parameters and
//! writes its output into a caller-supplied buffer, returning the number of
//! bytes actually written. The caller controls the output capacity: a buffer
//! too small for the result — like any malformed argument — means nothing is
//! written and 0 is reported, never a panic or an out-of-bounds access. An
//! output buffer as long as the input always suffices, since no operation
//! expands its data.

use crate::extract;
use crate::extract::{differential_chunk, single_frame_chunk};
use crate::quality;
use crate::quality::{distinct_count, shannon_q32};
use crate::whiten::whitened;
use vstd::prelude::*;

verus! {

/// What a buffer-producing entry point reports: when the operation yields
/// `chunk` and the caller's buffer is large enough, the chunk stands at the
/// front of the buffer, the rest is untouched, and its length is returned;
/// otherwise the buffer is untouched and 0 is returned.
pub open spec fn wrote_chunk(
    chunk: Seq<u8>,
    before: Seq<u8>,
    after: Seq<u8>,
    written: usize,
) -> bool {
    if chunk.len() <= before.len() {
        written == chunk.len() && after == chunk + before.skip(chunk.len() as int)
    } else {
        written == 0 && after == before
    }
}

/// Copies `chunk` to the front of `result` when it fits, reporting how many
/// bytes were written.
fn deliver(chunk: &Vec<u8>, result: &mut Vec<u8>) -> (written: usize)
    ensures
        wrote_chunk(chunk@, old(result)@, final(result)@, written),
{
    if chunk.len() > result.len() {
        return 0;
    }
    let mut i: usize = 0;
    while i < chunk.len()
        invariant
            i <= chunk@.len(),
            chunk@.len() <= result@.len(),
            result@.len() == old(result)@.len(),
            result@ == chunk@.take(i as int) + old(result)@.skip(i as int),
        decreases chunk@.len() - i,
    {
        result.set(i, chunk[i]);
        proof {
            assert(result@ =~= chunk@.take(i + 1) + old(result)@.skip(i + 1));
        }
        i += 1;
    }
    proof {
        assert(chunk@.take(chunk@.len() as int) =~= chunk@);
        assert(result@ =~= chunk@ + old(result)@.skip(chunk@.len() as int));
    }
    chunk.len()
}

/// Differential-grid extraction into a caller-supplied buffer. Invalid
/// geometry, a zero sampling distance or a buffer too small for the chunk
/// all report 0 bytes written and leave the buffer untouched.
pub fn chop_and_tack(
    current: &[u8],
    previous: &[u8],
    width: usize,
    minimum_distance: usize,
    result: &mut Vec<u8>,
) -> (written: usize)
    ensures
        minimum_distance == 0 ==> written == 0 && final(result)@ == old(result)@,
        minimum_distance >= 1 ==> match differential_chunk(
            current@,
            previous@,
            width as int,
            minimum_distance as int,
        ) {
            Option::None => written == 0 && final(result)@ == old(result)@,
            Option::Some(c) => wrote_chunk(c, old(result)@, final(result)@, written),
        },
{
    if minimum_distance == 0 {
        return 0;
    }
    match extract::chop_and_tack(current, previous, width, minimum_distance) {
        None => 0,
        Some(chunk) => deliver(&chunk, result),
    }
}

/// Single-frame extraction into a caller-supplied buffer. An inverted
/// brightness range yields an empty chunk, so 0 bytes are written.
pub fn pick_and_flip(
    data: &[u8],
    low: u8,
    high: u8,
    current_frame_index: usize,
    result: &mut Vec<u8>,
) -> (written: usize)
    ensures
        wrote_chunk(
            single_frame_chunk(data@, low, high, current_frame_index as int),
            old(result)@,
            final(result)@,
            written,
        ),
{
    let chunk = extract::pick_and_flip(data, low, high, current_frame_index);
    deliver(&chunk, result)
}

/// Von Neumann whitening into a caller-supplied buffer.
pub fn whiten(entropy: &[u8], result: &mut Vec<u8>) -> (written: usize)
    ensures
        wrote_chunk(whitened(entropy@), old(result)@, final(result)@, written),
{
    let chunk = crate::whiten::whiten(entropy);
    deliver(&chunk, result)
}

/// Shannon entropy of the byte distribution, in Q32 fixed point (bits per
/// byte times 2^32); 0 for an empty buffer.
pub fn shannon(data: &[u8]) -> (score: u64)
    ensures
        score as nat == shannon_q32(data@),
{
    quality::shannon(data)
}

/// Lens-coverage check: reports true when the frame holds fewer distinct
/// values than `threshold`.
pub fn is_covered(grayscale: &[u8], threshold: usize) -> (covered: bool)
    ensures
        covered == (distinct_count(grayscale@) < threshold),
{
    quality::is_covered(grayscale, threshold)
}

} // verus!
