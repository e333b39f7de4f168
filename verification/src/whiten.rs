//! Von Neumann whitening: pairwise bit-debiasing of a byte buffer.
//!
//! The buffer is read as one contiguous MSB-first bit stream, crossing byte
//! boundaries transparently, and processed in disjoint consecutive pairs: the
//! pair (0,1) emits output bit 0, the pair (1,0) emits output bit 1, and the
//! equal pairs (0,0) and (1,1) emit nothing. Output bits are packed MSB-first
//! and a trailing incomplete output byte is dropped, never kept for a later
//! invocation.

use crate::bitpack::{bits_to_bytes, bits_value, is_bit_seq, pack_bits};
use vstd::prelude::*;

verus! {

/// The eight bits of a byte, most significant first.
pub open spec fn byte_bits(b: u8) -> Seq<u8> {
    seq![
        (b / 128) % 2,
        (b / 64) % 2,
        (b / 32) % 2,
        (b / 16) % 2,
        (b / 8) % 2,
        (b / 4) % 2,
        (b / 2) % 2,
        b % 2,
    ]
}

/// The contiguous bit stream of a byte buffer, most significant bit of each
/// byte first.
pub open spec fn bytes_to_bits(s: Seq<u8>) -> Seq<u8>
    decreases s.len(),
{
    if s.len() == 0 {
        Seq::empty()
    } else {
        bytes_to_bits(s.drop_last()) + byte_bits(s.last())
    }
}

/// Von Neumann output bits of a bit stream: each disjoint consecutive pair of
/// unequal bits emits its first bit ((0,1) gives 0, (1,0) gives 1), equal
/// pairs emit nothing, and a lone trailing bit is ignored.
pub open spec fn vn_bits(bits: Seq<u8>) -> Seq<u8>
    decreases bits.len(),
{
    if bits.len() < 2 {
        Seq::empty()
    } else {
        (if bits[0] != bits[1] {
            seq![bits[0]]
        } else {
            Seq::empty()
        }) + vn_bits(bits.skip(2))
    }
}

/// What one disjoint pair contributes: its first bit when the two differ,
/// nothing when they are equal.
pub open spec fn vn_pair(x: u8, y: u8) -> Seq<u8> {
    if x != y {
        seq![x]
    } else {
        Seq::empty()
    }
}

/// What the four disjoint pairs of one byte contribute.
pub open spec fn vn_byte(b: u8) -> Seq<u8> {
    vn_pair((b / 128) % 2, (b / 64) % 2) + vn_pair((b / 32) % 2, (b / 16) % 2) + vn_pair(
        (b / 8) % 2,
        (b / 4) % 2,
    ) + vn_pair((b / 2) % 2, b % 2)
}

/// Pair processing of one byte's bit stream is exactly its four pairs.
pub proof fn lemma_vn_bits_byte(b: u8)
    ensures
        vn_bits(byte_bits(b)) == vn_byte(b),
{
    let s8 = byte_bits(b);
    let t6 = seq![(b / 32) % 2, (b / 16) % 2, (b / 8) % 2, (b / 4) % 2, (b / 2) % 2, b % 2];
    let t4 = seq![(b / 8) % 2, (b / 4) % 2, (b / 2) % 2, b % 2];
    let t2 = seq![(b / 2) % 2, b % 2];
    assert(s8.skip(2) =~= t6);
    assert(t6.skip(2) =~= t4);
    assert(t4.skip(2) =~= t2);
    assert(t2.skip(2) =~= Seq::<u8>::empty());
    assert(vn_bits(t2.skip(2)) =~= Seq::<u8>::empty());
    assert(vn_bits(t2) =~= vn_pair((b / 2) % 2, b % 2));
    assert(vn_bits(t4) =~= vn_pair((b / 8) % 2, (b / 4) % 2) + vn_bits(t2));
    assert(vn_bits(t6) =~= vn_pair((b / 32) % 2, (b / 16) % 2) + vn_bits(t4));
    assert(vn_bits(s8) =~= vn_pair((b / 128) % 2, (b / 64) % 2) + vn_bits(t6));
    assert(vn_bits(s8) =~= vn_byte(b));
}

/// The whitened form of a byte buffer: its bit stream debiased pairwise and
/// packed back into whole bytes.
pub open spec fn whitened(s: Seq<u8>) -> Seq<u8> {
    pack_bits(vn_bits(bytes_to_bits(s)))
}

/// A byte buffer contributes eight bits per byte.
pub proof fn lemma_bytes_to_bits_len(s: Seq<u8>)
    ensures
        bytes_to_bits(s).len() == 8 * s.len(),
    decreases s.len(),
{
    if s.len() > 0 {
        lemma_bytes_to_bits_len(s.drop_last());
    }
}

/// Pair processing distributes over splitting the stream at an even offset.
pub proof fn lemma_vn_bits_add(a: Seq<u8>, b: Seq<u8>)
    requires
        a.len() % 2 == 0,
    ensures
        vn_bits(a + b) == vn_bits(a) + vn_bits(b),
    decreases a.len(),
{
    if a.len() == 0 {
        assert(a + b =~= b);
        assert(vn_bits(a) + vn_bits(b) =~= vn_bits(b));
    } else {
        assert((a + b).skip(2) =~= a.skip(2) + b);
        lemma_vn_bits_add(a.skip(2), b);
        assert(vn_bits(a + b) =~= vn_bits(a) + vn_bits(b));
    }
}

/// Applies von Neumann whitening to a byte buffer, reading it as one
/// MSB-first bit stream and packing the surviving bits into whole bytes.
#[verifier::rlimit(50)]
pub fn whiten(entropy: &[u8]) -> (out: Vec<u8>)
    ensures
        out@ == whitened(entropy@),
{
    let mut bits: Vec<u8> = Vec::new();
    let mut i: usize = 0;
    proof {
        assert(entropy@.take(0) =~= Seq::<u8>::empty());
    }
    while i < entropy.len()
        invariant
            i <= entropy@.len(),
            is_bit_seq(bits@),
            bits@ == vn_bits(bytes_to_bits(entropy@.take(i as int))),
        decreases entropy@.len() - i,
    {
        let b = entropy[i];
        let b7: u8 = (b / 128) % 2;
        let b6: u8 = (b / 64) % 2;
        let b5: u8 = (b / 32) % 2;
        let b4: u8 = (b / 16) % 2;
        let b3: u8 = (b / 8) % 2;
        let b2: u8 = (b / 4) % 2;
        let b1: u8 = (b / 2) % 2;
        let b0: u8 = b % 2;
        let ghost before = bits@;
        if b7 != b6 {
            bits.push(b7);
        }
        if b5 != b4 {
            bits.push(b5);
        }
        if b3 != b2 {
            bits.push(b3);
        }
        if b1 != b0 {
            bits.push(b1);
        }
        proof {
            let s8 = byte_bits(b);
            lemma_vn_bits_byte(b);
            assert(bits@ =~= before + vn_byte(b));
            let done = entropy@.take(i as int);
            assert(entropy@.take(i + 1).drop_last() =~= done);
            assert(entropy@.take(i + 1).last() == entropy@[i as int]);
            lemma_bytes_to_bits_len(done);
            lemma_vn_bits_add(bytes_to_bits(done), s8);
        }
        i += 1;
    }
    proof {
        assert(entropy@.take(entropy@.len() as int) =~= entropy@);
    }
    bits_to_bytes(&bits)
}

/// A bit stream whose bits all equal `c` survives whitening nowhere: every
/// pair is equal and emits nothing.
pub proof fn lemma_vn_bits_uniform(bits: Seq<u8>, c: u8)
    requires
        forall|i: int| 0 <= i < bits.len() ==> bits[i] == c,
    ensures
        vn_bits(bits) == Seq::<u8>::empty(),
    decreases bits.len(),
{
    if bits.len() >= 2 {
        lemma_vn_bits_uniform(bits.skip(2), c);
        assert(vn_bits(bits) =~= Seq::<u8>::empty());
    } else {
        assert(vn_bits(bits) =~= Seq::<u8>::empty());
    }
}

/// A buffer of one repeated byte value whose bit pairs are all equal — in
/// particular an all-0x00 buffer — whitens to an empty output.
pub proof fn lemma_whiten_zeros(s: Seq<u8>)
    requires
        forall|i: int| 0 <= i < s.len() ==> s[i] == 0u8,
    ensures
        whitened(s) == Seq::<u8>::empty(),
    decreases s.len(),
{
    lemma_bytes_to_bits_zero(s);
    lemma_vn_bits_uniform(bytes_to_bits(s), 0u8);
}

/// The bit stream of an all-zero buffer is all zero bits.
proof fn lemma_bytes_to_bits_zero(s: Seq<u8>)
    requires
        forall|i: int| 0 <= i < s.len() ==> s[i] == 0u8,
    ensures
        forall|i: int|
            0 <= i < bytes_to_bits(s).len() ==> bytes_to_bits(s)[i] == 0u8,
    decreases s.len(),
{
    if s.len() > 0 {
        lemma_bytes_to_bits_zero(s.drop_last());
        assert(bytes_to_bits(s) == bytes_to_bits(s.drop_last()) + byte_bits(s.last()));
        assert forall|i: int|
            0 <= i < bytes_to_bits(s).len() implies bytes_to_bits(s)[i] == 0u8 by {
            let head = bytes_to_bits(s.drop_last());
            if i >= head.len() {
                assert(bytes_to_bits(s)[i] == byte_bits(0u8)[i - head.len()]);
            }
        }
    }
}

/// The constant sequence of `n` copies of `c`.
pub open spec fn repeated(c: u8, n: nat) -> Seq<u8> {
    Seq::new(n, |i: int| c)
}

/// The bit stream of `n` bytes of one alternating value consists of `4 * n`
/// disjoint unequal pairs, so whitening consumes every pair and emits `4 * n`
/// copies of the pair's first bit: 0x55 (bit pairs 01) emits only zeros, and
/// 0xAA (bit pairs 10) emits only ones.
pub proof fn lemma_vn_bits_alternating(n: nat, c: u8, v: u8)
    requires
        c == 0x55u8 && v == 0u8 || c == 0xAAu8 && v == 1u8,
    ensures
        vn_bits(bytes_to_bits(repeated(c, n))) == repeated(v, 4 * n),
    decreases n,
{
    if n == 0 {
        assert(repeated(c, 0) =~= Seq::<u8>::empty());
        assert(vn_bits(bytes_to_bits(repeated(c, 0))) =~= repeated(v, 0));
    } else {
        lemma_vn_bits_alternating((n - 1) as nat, c, v);
        let s = repeated(c, n);
        let s1 = repeated(c, (n - 1) as nat);
        assert(s.drop_last() =~= s1);
        assert(s.last() == c);
        let s8 = byte_bits(c);
        lemma_vn_bits_byte(c);
        assert(vn_byte(c) =~= seq![v, v, v, v]);
        assert(vn_bits(s8) =~= seq![v, v, v, v]);
        lemma_bytes_to_bits_len(s1);
        lemma_vn_bits_add(bytes_to_bits(s1), s8);
        assert(vn_bits(bytes_to_bits(s)) =~= repeated(v, 4 * n));
    }
}

/// Packing a constant bit stream yields one constant byte per eight bits:
/// the byte whose eight bits all hold `v`.
pub proof fn lemma_pack_bits_repeated(n: nat, v: u8, byte: u8)
    requires
        v <= 1,
        byte == bits_value(repeated(v, 8)),
    ensures
        pack_bits(repeated(v, n)) == repeated(byte, n / 8),
    decreases n,
{
    let s = repeated(v, n);
    if n < 8 {
        assert(pack_bits(s) =~= repeated(byte, n / 8));
    } else {
        lemma_pack_bits_repeated((n - 8) as nat, v, byte);
        assert(s.take(8) =~= repeated(v, 8));
        assert(s.skip(8) =~= repeated(v, (n - 8) as nat));
        assert(pack_bits(s) =~= repeated(byte, n / 8));
    }
}

/// Whitening a buffer of `n` bytes 0x55 — the bit stream 0101… — consumes
/// every pair, emits `4 * n` zero bits, and so yields `n / 2` bytes 0x00.
pub proof fn lemma_whiten_alternating_01(n: nat)
    ensures
        whitened(repeated(0x55u8, n)) == repeated(0x00u8, n / 2),
{
    lemma_vn_bits_alternating(n, 0x55u8, 0u8);
    assert(bits_value(repeated(0u8, 8)) == 0) by {
        lemma_bits_value_repeated_zero(8);
    }
    lemma_pack_bits_repeated(4 * n, 0u8, 0x00u8);
    assert((4 * n) / 8 == n / 2) by (nonlinear_arith);
}

/// Whitening a buffer of `n` bytes 0xAA — the bit stream 1010… — consumes
/// every pair, emits `4 * n` one bits, and so yields `n / 2` bytes 0xFF.
pub proof fn lemma_whiten_alternating_10(n: nat)
    ensures
        whitened(repeated(0xAAu8, n)) == repeated(0xFFu8, n / 2),
{
    lemma_vn_bits_alternating(n, 0xAAu8, 1u8);
    assert(bits_value(repeated(1u8, 8)) == 255) by {
        lemma_bits_value_repeated_one_8();
    }
    lemma_pack_bits_repeated(4 * n, 1u8, 0xFFu8);
    assert((4 * n) / 8 == n / 2) by (nonlinear_arith);
}

/// Packing a stream of only one bits yields only 0xFF bytes.
pub proof fn lemma_pack_ones(n: nat)
    ensures
        pack_bits(repeated(1u8, n)) == repeated(0xFFu8, n / 8),
{
    lemma_bits_value_repeated_one_8();
    lemma_pack_bits_repeated(n, 1u8, 0xFFu8);
}

/// The value of a run of zero bits is zero.
proof fn lemma_bits_value_repeated_zero(n: nat)
    ensures
        bits_value(repeated(0u8, n)) == 0,
    decreases n,
{
    if n > 0 {
        assert(repeated(0u8, n).drop_last() =~= repeated(0u8, (n - 1) as nat));
        lemma_bits_value_repeated_zero((n - 1) as nat);
    }
}

/// The value of eight one bits is 255.
proof fn lemma_bits_value_repeated_one_8()
    ensures
        bits_value(repeated(1u8, 8)) == 255,
{
    lemma_bits_value_repeated_one_step(8);
}

/// The value of `n <= 8` one bits is `pow2(n) - 1`, unfolded numerically.
proof fn lemma_bits_value_repeated_one_step(n: nat)
    ensures
        n == 0 ==> bits_value(repeated(1u8, n)) == 0,
        n == 1 ==> bits_value(repeated(1u8, n)) == 1,
        n == 2 ==> bits_value(repeated(1u8, n)) == 3,
        n == 3 ==> bits_value(repeated(1u8, n)) == 7,
        n == 4 ==> bits_value(repeated(1u8, n)) == 15,
        n == 5 ==> bits_value(repeated(1u8, n)) == 31,
        n == 6 ==> bits_value(repeated(1u8, n)) == 63,
        n == 7 ==> bits_value(repeated(1u8, n)) == 127,
        n == 8 ==> bits_value(repeated(1u8, n)) == 255,
    decreases n,
{
    if n > 0 && n <= 8 {
        assert(repeated(1u8, n).drop_last() =~= repeated(1u8, (n - 1) as nat));
        assert(repeated(1u8, n).last() == 1u8);
        lemma_bits_value_repeated_one_step((n - 1) as nat);
    }
}

} // verus!
