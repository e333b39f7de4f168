//! Packing of extracted bit streams into bytes.
//!
//! Every extraction pass produces a transient sequence of single bits; it is
//! always packed most-significant-bit first into whole bytes before it is
//! handed out, and a trailing group shorter than eight bits is dropped, never
//! carried over to a later pass.

use vstd::arithmetic::power2::{lemma2_to64, lemma_pow2_unfold, pow2};
use vstd::prelude::*;

verus! {

/// Each element of a bit sequence holds 0 or 1.
pub open spec fn is_bit_seq(s: Seq<u8>) -> bool {
    forall|i: int| 0 <= i < s.len() ==> s[i] <= 1
}

/// Numeric value of a bit sequence read most-significant-bit first.
pub open spec fn bits_value(s: Seq<u8>) -> nat
    decreases s.len(),
{
    if s.len() == 0 {
        0
    } else {
        (bits_value(s.drop_last()) * 2 + s.last()) as nat
    }
}

/// Bytes obtained by packing a bit sequence MSB-first in groups of eight;
/// the trailing group shorter than eight bits is dropped.
pub open spec fn pack_bits(s: Seq<u8>) -> Seq<u8>
    decreases s.len(),
{
    if s.len() < 8 {
        Seq::empty()
    } else {
        seq![bits_value(s.take(8)) as u8] + pack_bits(s.skip(8))
    }
}

/// The value of `n` bits is below `pow2(n)`.
pub proof fn lemma_bits_value_bound(s: Seq<u8>)
    requires
        is_bit_seq(s),
    ensures
        bits_value(s) < pow2(s.len()),
    decreases s.len(),
{
    if s.len() == 0 {
        lemma2_to64();
    } else {
        lemma_bits_value_bound(s.drop_last());
        lemma_pow2_unfold(s.len());
    }
}

/// Packing a whole number of groups then one more full group appends one byte.
pub proof fn lemma_pack_bits_snoc_group(s: Seq<u8>, t: Seq<u8>)
    requires
        s.len() % 8 == 0,
        t.len() == 8,
        is_bit_seq(t),
    ensures
        pack_bits(s + t) == pack_bits(s).push(bits_value(t) as u8),
    decreases s.len(),
{
    lemma_bits_value_bound(t);
    lemma2_to64();
    if s.len() == 0 {
        assert(s + t =~= t);
        assert(t.take(8) =~= t);
        assert(t.skip(8) =~= Seq::<u8>::empty());
        assert(pack_bits(t.skip(8)) =~= Seq::<u8>::empty());
        assert(pack_bits(t) =~= seq![bits_value(t) as u8]);
        assert(pack_bits(s) =~= Seq::<u8>::empty());
    } else {
        assert((s + t).len() >= 8);
        assert((s + t).take(8) =~= s.take(8));
        assert((s + t).skip(8) =~= s.skip(8) + t);
        lemma_pack_bits_snoc_group(s.skip(8), t);
        assert(pack_bits(s + t) =~= pack_bits(s).push(bits_value(t) as u8));
    }
}

/// A trailing group shorter than eight bits contributes nothing.
pub proof fn lemma_pack_bits_drop_tail(s: Seq<u8>, t: Seq<u8>)
    requires
        s.len() % 8 == 0,
        t.len() < 8,
    ensures
        pack_bits(s + t) == pack_bits(s),
    decreases s.len(),
{
    if s.len() == 0 {
        assert(s + t =~= t);
    } else {
        assert((s + t).take(8) =~= s.take(8));
        assert((s + t).skip(8) =~= s.skip(8) + t);
        lemma_pack_bits_drop_tail(s.skip(8), t);
        assert(pack_bits(s + t) =~= pack_bits(s));
    }
}

/// Packed output is one byte per whole group of eight input bits.
pub proof fn lemma_pack_bits_len(s: Seq<u8>)
    ensures
        pack_bits(s).len() == s.len() / 8,
    decreases s.len(),
{
    if s.len() >= 8 {
        lemma_pack_bits_len(s.skip(8));
    }
}

/// Packs a sequence of single bits (each 0 or 1) into bytes, MSB first,
/// dropping the trailing group shorter than eight bits.
pub fn bits_to_bytes(bits: &Vec<u8>) -> (out: Vec<u8>)
    requires
        is_bit_seq(bits@),
    ensures
        out@ == pack_bits(bits@),
{
    let n_groups: usize = bits.len() / 8;
    let mut out: Vec<u8> = Vec::new();
    let mut g: usize = 0;
    proof {
        assert(bits@.take(0) =~= Seq::<u8>::empty());
    }
    while g < n_groups
        invariant
            g <= n_groups,
            n_groups == bits@.len() / 8,
            bits@.len() <= usize::MAX,
            is_bit_seq(bits@),
            out@ == pack_bits(bits@.take(8 * g as int)),
        decreases n_groups - g,
    {
        proof {
            assert(8 * (g + 1) <= 8 * n_groups) by (nonlinear_arith)
                requires g < n_groups;
            assert(8 * (bits@.len() / 8) <= bits@.len()) by (nonlinear_arith);
        }
        let mut byte: u8 = 0;
        let mut j: usize = 0;
        while j < 8
            invariant
                j <= 8,
                g < n_groups,
                n_groups == bits@.len() / 8,
                8 * g + 8 <= bits@.len(),
                bits@.len() <= usize::MAX,
                is_bit_seq(bits@),
                byte == bits_value(bits@.subrange(8 * g as int, 8 * g + j as int)),
            decreases 8 - j,
        {
            let ghost pref = bits@.subrange(8 * g as int, 8 * g + j as int);
            let ghost next = bits@.subrange(8 * g as int, 8 * g + j + 1 as int);
            proof {
                assert(next.drop_last() =~= pref);
                assert(next.last() == bits@[8 * g + j as int]);
                lemma_bits_value_bound(pref);
                lemma2_to64();
                assert(pow2(j as nat) <= pow2(7)) by {
                    if (j as nat) < 7 {
                        vstd::arithmetic::power2::lemma_pow2_strictly_increases(j as nat, 7);
                    }
                }
            }
            byte = byte * 2 + bits[8 * g + j];
            j += 1;
        }
        let ghost done = bits@.take(8 * g as int);
        let ghost group = bits@.subrange(8 * g as int, 8 * g + 8);
        proof {
            assert(done.len() % 8 == 0) by (nonlinear_arith)
                requires done.len() == 8 * g;
            lemma_pack_bits_snoc_group(done, group);
            assert(done + group =~= bits@.take(8 * (g + 1) as int));
            lemma_bits_value_bound(group);
            lemma2_to64();
        }
        out.push(byte);
        g += 1;
    }
    proof {
        let tail = bits@.skip(8 * n_groups as int);
        let done = bits@.take(8 * n_groups as int);
        assert(8 * (bits@.len() / 8) <= bits@.len()) by (nonlinear_arith);
        assert(bits@.len() < 8 * (n_groups + 1)) by (nonlinear_arith)
            requires n_groups == bits@.len() / 8;
        assert(done.len() % 8 == 0) by (nonlinear_arith)
            requires done.len() == 8 * n_groups;
        lemma_pack_bits_drop_tail(done, tail);
        assert(done + tail =~= bits@);
    }
    out
}

} // verus!
