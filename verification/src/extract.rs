//! Extraction strategies: turning one or two grayscale pixel buffers into a
//! raw entropy chunk.
//!
//! The differential grid compares two successive frames inside an interior
//! window; the single-frame strategy picks least-significant bits of pixels
//! whose brightness lies in a configured range. Both pack their bits
//! MSB-first and drop a trailing group shorter than eight bits.

use crate::bitpack::{bits_to_bytes, is_bit_seq, pack_bits};
use vstd::arithmetic::div_mod::lemma_fundamental_div_mod;
use vstd::arithmetic::mul::lemma_mul_inequality;
use vstd::prelude::*;

verus! {

/// The bit emitted for one compared pixel pair: 1 if the current sample is
/// greater, 0 if it is lesser, nothing if the two are equal.
pub open spec fn diff_bit(c: u8, p: u8) -> Seq<u8> {
    if c > p {
        seq![1u8]
    } else if c < p {
        seq![0u8]
    } else {
        Seq::empty()
    }
}

/// Bits sampled from the index range `[start, end)` at steps of `stride`.
pub open spec fn row_sample_bits(
    cur: Seq<u8>,
    prev: Seq<u8>,
    start: int,
    end: int,
    stride: int,
) -> Seq<u8>
    decreases end - start + stride,
    when stride >= 1
{
    if start >= end {
        Seq::empty()
    } else {
        diff_bit(cur[start], prev[start]) + row_sample_bits(cur, prev, start + stride, end, stride)
    }
}

/// Bits sampled from rows `[row, end_row)`; each row keeps a 100-pixel
/// margin on the left and on the right.
pub open spec fn grid_bits_from(
    cur: Seq<u8>,
    prev: Seq<u8>,
    width: int,
    stride: int,
    row: int,
    end_row: int,
) -> Seq<u8>
    decreases end_row - row,
    when stride >= 1
{
    if row >= end_row {
        Seq::empty()
    } else {
        row_sample_bits(cur, prev, row * width + 100, (row + 1) * width - 100, stride)
            + grid_bits_from(cur, prev, width, stride, row + 1, end_row)
    }
}

/// All bits sampled by the differential grid: rows 100 up to `height - 100`,
/// where `height = len / width`.
pub open spec fn grid_bits(cur: Seq<u8>, prev: Seq<u8>, width: int, stride: int) -> Seq<u8> {
    grid_bits_from(cur, prev, width, stride, 100, cur.len() as int / width - 100)
}

/// Whether the two buffers and the declared width make a valid geometry for
/// the differential grid: width and derived height both above 200, and the
/// buffers of equal length.
pub open spec fn grid_geometry_ok(cur: Seq<u8>, prev: Seq<u8>, width: int) -> bool {
    width > 200 && cur.len() as int / width > 200 && cur.len() == prev.len()
}

/// The chunk produced by the differential grid: `None` on bad geometry,
/// otherwise the sampled comparison bits packed into bytes.
pub open spec fn differential_chunk(
    cur: Seq<u8>,
    prev: Seq<u8>,
    width: int,
    stride: int,
) -> Option<Seq<u8>> {
    if grid_geometry_ok(cur, prev, width) {
        Some(pack_bits(grid_bits(cur, prev, width, stride)))
    } else {
        None
    }
}

/// The view of an optional byte buffer.
pub open spec fn chunk_view(o: Option<Vec<u8>>) -> Option<Seq<u8>> {
    match o {
        Some(v) => Some(v@),
        None => None,
    }
}

/// Extending the row range by one appends that row's sampled bits.
proof fn lemma_grid_bits_snoc_row(
    cur: Seq<u8>,
    prev: Seq<u8>,
    width: int,
    stride: int,
    row0: int,
    row: int,
)
    requires
        stride >= 1,
        row0 <= row,
    ensures
        grid_bits_from(cur, prev, width, stride, row0, row + 1) == grid_bits_from(
            cur,
            prev,
            width,
            stride,
            row0,
            row,
        ) + row_sample_bits(cur, prev, row * width + 100, (row + 1) * width - 100, stride),
    decreases row - row0,
{
    if row0 == row {
        assert(grid_bits_from(cur, prev, width, stride, row0, row) =~= Seq::<u8>::empty());
        assert(grid_bits_from(cur, prev, width, stride, row + 1, row + 1) =~= Seq::<u8>::empty());
    } else {
        lemma_grid_bits_snoc_row(cur, prev, width, stride, row0 + 1, row);
        assert(grid_bits_from(cur, prev, width, stride, row0, row + 1) =~= grid_bits_from(
            cur,
            prev,
            width,
            stride,
            row0,
            row,
        ) + row_sample_bits(cur, prev, row * width + 100, (row + 1) * width - 100, stride));
    }
}

/// When the current frame is strictly brighter at every index of a range,
/// every sample in that range emits bit 1.
proof fn lemma_row_sample_bits_all_ones(
    cur: Seq<u8>,
    prev: Seq<u8>,
    start: int,
    end: int,
    stride: int,
)
    requires
        stride >= 1,
        0 <= start,
        end <= cur.len(),
        prev.len() == cur.len(),
        forall|i: int| 0 <= i < cur.len() ==> cur[i] > prev[i],
    ensures
        row_sample_bits(cur, prev, start, end, stride) =~= crate::whiten::repeated(
            1u8,
            row_sample_bits(cur, prev, start, end, stride).len(),
        ),
    decreases end - start + stride,
{
    if start < end {
        lemma_row_sample_bits_all_ones(cur, prev, start + stride, end, stride);
        assert(cur[start] > prev[start]);
    }
}

/// When the current frame is strictly brighter at every pixel, every bit the
/// grid samples is 1.
proof fn lemma_grid_bits_all_ones(
    cur: Seq<u8>,
    prev: Seq<u8>,
    width: int,
    stride: int,
    row: int,
    end_row: int,
)
    requires
        stride >= 1,
        width > 200,
        100 <= row <= end_row,
        end_row <= cur.len() as int / width - 100,
        cur.len() as int / width > 200,
        prev.len() == cur.len(),
        forall|i: int| 0 <= i < cur.len() ==> cur[i] > prev[i],
    ensures
        grid_bits_from(cur, prev, width, stride, row, end_row) =~= crate::whiten::repeated(
            1u8,
            grid_bits_from(cur, prev, width, stride, row, end_row).len(),
        ),
    decreases end_row - row,
{
    if row < end_row {
        let height = cur.len() as int / width;
        lemma_fundamental_div_mod(cur.len() as int, width);
        lemma_mul_inequality(row + 1, height, width);
        assert(0 <= row * width + 100) by (nonlinear_arith)
            requires row >= 0 && width > 0;
        assert((row + 1) * width - 100 <= cur.len());
        lemma_row_sample_bits_all_ones(
            cur,
            prev,
            row * width + 100,
            (row + 1) * width - 100,
            stride,
        );
        lemma_grid_bits_all_ones(cur, prev, width, stride, row + 1, end_row);
    }
}

/// Two frames of valid geometry where the current frame is strictly brighter
/// at every pixel yield a chunk consisting entirely of 0xFF bytes: every
/// sampled comparison emits bit 1.
pub proof fn lemma_brighter_frames_give_ff(cur: Seq<u8>, prev: Seq<u8>, width: int, stride: int)
    requires
        stride >= 1,
        grid_geometry_ok(cur, prev, width),
        forall|i: int| 0 <= i < cur.len() ==> cur[i] > prev[i],
    ensures
        differential_chunk(cur, prev, width, stride) matches Some(c) && c =~= crate::whiten::repeated(
            0xFFu8,
            c.len(),
        ),
{
    let bits = grid_bits(cur, prev, width, stride);
    lemma_grid_bits_all_ones(cur, prev, width, stride, 100, cur.len() as int / width - 100);
    assert(bits =~= crate::whiten::repeated(1u8, bits.len()));
    crate::whiten::lemma_pack_ones(bits.len());
    crate::bitpack::lemma_pack_bits_len(bits);
}

/// Differential-grid extraction over two frames of equal length.
///
/// Emits 1 where the current frame's sampled pixel is brighter than the
/// previous frame's, 0 where it is darker, nothing where the two are equal;
/// samples every `minimum_distance`-th column inside a window that excludes a
/// 100-pixel border on all four sides. Returns `None`, and never panics, when
/// the geometry is invalid.
pub fn chop_and_tack(
    current: &[u8],
    previous: &[u8],
    width: usize,
    minimum_distance: usize,
) -> (out: Option<Vec<u8>>)
    requires
        minimum_distance >= 1,
    ensures
        chunk_view(out) == differential_chunk(
            current@,
            previous@,
            width as int,
            minimum_distance as int,
        ),
{
    if width <= 200 {
        return None;
    }
    let height: usize = current.len() / width;
    if height <= 200 || current.len() != previous.len() {
        return None;
    }
    proof {
        lemma_fundamental_div_mod(current@.len() as int, width as int);
    }
    let end_row: usize = height - 100;
    let mut bits: Vec<u8> = Vec::new();
    let mut row: usize = 100;
    while row < end_row
        invariant
            100 <= row <= end_row,
            minimum_distance >= 1,
            width > 200,
            height == current@.len() as int / width as int,
            height > 200,
            end_row == height - 100,
            current@.len() == previous@.len(),
            current@.len() <= usize::MAX,
            height * width <= current@.len(),
            is_bit_seq(bits@),
            bits@ == grid_bits_from(
                current@,
                previous@,
                width as int,
                minimum_distance as int,
                100,
                row as int,
            ),
        decreases end_row - row,
    {
        proof {
            assert(row + 1 <= height);
            lemma_mul_inequality(row as int + 1, height as int, width as int);
            lemma_mul_inequality(1, row as int + 1, width as int);
            assert((row + 1) * width == row * width + width) by (nonlinear_arith);
        }
        let row_start: usize = row * width + 100;
        let row_end: usize = (row + 1) * width - 100;
        let ghost prior = bits@;
        let mut idx: usize = row_start;
        while idx < row_end
            invariant
                minimum_distance >= 1,
                row_end <= current@.len(),
                current@.len() == previous@.len(),
                current@.len() <= usize::MAX,
                is_bit_seq(bits@),
                prior + row_sample_bits(
                    current@,
                    previous@,
                    row_start as int,
                    row_end as int,
                    minimum_distance as int,
                ) == bits@ + row_sample_bits(
                    current@,
                    previous@,
                    idx as int,
                    row_end as int,
                    minimum_distance as int,
                ),
            decreases row_end - idx,
        {
            let c = current[idx];
            let p = previous[idx];
            if c > p {
                bits.push(1);
            } else if c < p {
                bits.push(0);
            }
            if row_end - idx <= minimum_distance {
                proof {
                    assert(row_sample_bits(
                        current@,
                        previous@,
                        idx + minimum_distance,
                        row_end as int,
                        minimum_distance as int,
                    ) =~= Seq::<u8>::empty());
                    assert(row_sample_bits(
                        current@,
                        previous@,
                        row_end as int,
                        row_end as int,
                        minimum_distance as int,
                    ) =~= Seq::<u8>::empty());
                }
                idx = row_end;
            } else {
                idx = idx + minimum_distance;
            }
        }
        proof {
            assert(row_sample_bits(
                current@,
                previous@,
                idx as int,
                row_end as int,
                minimum_distance as int,
            ) =~= Seq::<u8>::empty());
            assert(bits@ + row_sample_bits(
                current@,
                previous@,
                idx as int,
                row_end as int,
                minimum_distance as int,
            ) =~= bits@);
            assert(bits@ =~= prior + row_sample_bits(
                current@,
                previous@,
                row_start as int,
                row_end as int,
                minimum_distance as int,
            ));
            lemma_grid_bits_snoc_row(
                current@,
                previous@,
                width as int,
                minimum_distance as int,
                100,
                row as int,
            );
        }
        row += 1;
    }
    Some(bits_to_bytes(&bits))
}

/// The bit contributed by one pixel of the single-frame strategy: its least
/// significant bit, flipped when `flip` holds, and nothing when the pixel's
/// brightness lies outside `[low, high]`.
pub open spec fn lsb_bit(pixel: u8, low: u8, high: u8, flip: bool) -> Seq<u8> {
    if low <= pixel && pixel <= high {
        if flip {
            seq![(1 - pixel % 2) as u8]
        } else {
            seq![(pixel % 2) as u8]
        }
    } else {
        Seq::empty()
    }
}

/// All bits the single-frame strategy collects over a buffer, in order.
pub open spec fn lsb_bits(data: Seq<u8>, low: u8, high: u8, flip: bool) -> Seq<u8>
    decreases data.len(),
{
    if data.len() == 0 {
        Seq::empty()
    } else {
        lsb_bits(data.drop_last(), low, high, flip) + lsb_bit(data.last(), low, high, flip)
    }
}

/// The chunk produced by the single-frame strategy: empty unless
/// `low < high`, otherwise the collected bits packed into bytes. The bits of
/// even-indexed frames are flipped to cancel fixed per-pixel bias.
pub open spec fn single_frame_chunk(
    data: Seq<u8>,
    low: u8,
    high: u8,
    frame_index: int,
) -> Seq<u8> {
    if low >= high {
        Seq::empty()
    } else {
        pack_bits(lsb_bits(data, low, high, frame_index % 2 == 0))
    }
}

/// Single-frame extraction: the least-significant bit of every pixel whose
/// brightness lies in `[low, high]`, flipped on even frame indices, packed
/// MSB-first. An inverted range (`low >= high`) yields an empty chunk.
pub fn pick_and_flip(data: &[u8], low: u8, high: u8, current_frame_index: usize) -> (out: Vec<
    u8,
>)
    ensures
        out@ == single_frame_chunk(data@, low, high, current_frame_index as int),
{
    if low >= high {
        return Vec::new();
    }
    let flip: bool = current_frame_index % 2 == 0;
    let mut bits: Vec<u8> = Vec::new();
    let mut i: usize = 0;
    proof {
        assert(data@.take(0) =~= Seq::<u8>::empty());
    }
    while i < data.len()
        invariant
            i <= data@.len(),
            flip == (current_frame_index as int % 2 == 0),
            is_bit_seq(bits@),
            bits@ == lsb_bits(data@.take(i as int), low, high, flip),
        decreases data@.len() - i,
    {
        let pixel = data[i];
        if low <= pixel && pixel <= high {
            let mut lsb: u8 = pixel % 2;
            if flip {
                lsb = 1 - lsb;
            }
            bits.push(lsb);
        }
        proof {
            assert(data@.take(i + 1).drop_last() =~= data@.take(i as int));
            assert(data@.take(i + 1).last() == data@[i as int]);
        }
        i += 1;
    }
    proof {
        assert(data@.take(data@.len() as int) =~= data@);
    }
    bits_to_bytes(&bits)
}

} // verus!
