//! The byte-diff transform: an element-wise modular subtraction between a
//! reference byte array and a target byte array of equal length. Frames that
//! resemble the base differ from it mostly by zero bytes, which the
//! run-length codec then stores compactly.

use vstd::prelude::*;

use vstd::pervasive::VecAdditionalExecFns;

use crate::codec;

verus! {

/// The difference of two bytes, modulo 256.
pub open spec fn byte_sub(a: u8, b: u8) -> u8 {
    ((a - b) % 256) as u8
}

/// The element-wise modular difference of two equal-length byte sequences.
pub open spec fn seq_diff(base: Seq<u8>, other: Seq<u8>) -> Seq<u8> {
    Seq::new(base.len(), |i: int| byte_sub(base[i], other[i]))
}

proof fn lemma_byte_sub_wrapping(a: u8, b: u8)
    ensures
        vstd::wrapping::u8_specs::wrapping_sub(a, b) == byte_sub(a, b),
{
    if a - b < 0 {
        assert((a - b) % 256 == a - b + 256) by (nonlinear_arith)
            requires
                -256 < a - b < 0,
        ;
    } else {
        assert((a - b) % 256 == a - b) by (nonlinear_arith)
            requires
                0 <= a - b < 256,
        ;
    }
}

proof fn lemma_byte_sub_involutive(a: u8, b: u8)
    ensures
        byte_sub(a, byte_sub(a, b)) == b,
{
    lemma_byte_sub_wrapping(a, b);
    let d = byte_sub(a, b);
    lemma_byte_sub_wrapping(a, d);
    if a - d < 0 {
        assert((a - d) % 256 == a - d + 256) by (nonlinear_arith)
            requires
                -256 < a - d < 0,
        ;
    } else {
        assert((a - d) % 256 == a - d) by (nonlinear_arith)
            requires
                0 <= a - d < 256,
        ;
    }
}

/// The difference transform is its own inverse: subtracting the delta from
/// the base, byte-wise modulo 256, recovers the original target sequence.
pub proof fn lemma_diff_invertible(base: Seq<u8>, other: Seq<u8>)
    requires
        base.len() == other.len(),
    ensures
        seq_diff(base, seq_diff(base, other)) == other,
{
    assert forall|i: int| 0 <= i < base.len() implies seq_diff(base, seq_diff(base, other))[i]
        == other[i] by {
        lemma_byte_sub_involutive(base[i], other[i]);
    }
    assert(seq_diff(base, seq_diff(base, other)) =~= other);
}

/// The byte-wise difference `base[i] - other[i]`, modulo 256. The two
/// arrays must have the same length; a mismatch would corrupt the whole
/// pipeline, so it is excluded outright.
pub fn diff(base: &[u8], other: &[u8]) -> (delta: Vec<u8>)
    requires
        base@.len() == other@.len(),
    ensures
        delta@ == seq_diff(base@, other@),
{
    let mut delta: Vec<u8> = Vec::new();
    let n = base.len();
    let mut i: usize = 0;
    while i < n
        invariant
            n == base@.len(),
            base@.len() == other@.len(),
            i <= n,
            delta@.len() == i,
            forall|j: int| 0 <= j < i ==> delta@[j] == byte_sub(base@[j], other@[j]),
        decreases n - i,
    {
        let d = base[i].wrapping_sub(other[i]);
        proof {
            lemma_byte_sub_wrapping(base@[i as int], other@[i as int]);
        }
        delta.push(d);
        i += 1;
    }
    proof {
        assert(delta@ =~= seq_diff(base@, other@));
    }
    delta
}

/// Reverses `diff` in place: overwrites `other[i]` with
/// `base[i] - other[i]`, modulo 256, so that applying it to a delta
/// produced by `diff` against the same base recovers the target.
pub fn undiff(base: &[u8], other: &mut Vec<u8>)
    requires
        base@.len() == old(other)@.len(),
    ensures
        final(other)@ == seq_diff(base@, old(other)@),
{
    let ghost orig = other@;
    let n = base.len();
    let mut i: usize = 0;
    while i < n
        invariant
            n == base@.len(),
            other@.len() == orig.len(),
            orig.len() == base@.len(),
            i <= n,
            forall|j: int| 0 <= j < i ==> other@[j] == byte_sub(base@[j], orig[j]),
            forall|j: int| i <= j < orig.len() ==> other@[j] == orig[j],
        decreases n - i,
    {
        let d = base[i].wrapping_sub(other[i]);
        proof {
            lemma_byte_sub_wrapping(base@[i as int], orig[i as int]);
        }
        other.set(i, d);
        i += 1;
    }
    proof {
        assert(other@ =~= seq_diff(base@, orig));
    }
}

/// The ready-to-store form of a frame: its difference against the base
/// frame, run-length compressed.
pub fn generate_from_base(base: &[u8], other: &[u8]) -> (res: Vec<u8>)
    requires
        base@.len() == other@.len(),
    ensures
        res@ == codec::compressed(seq_diff(base@, other@)),
{
    let delta = diff(base, other);
    codec::compress(delta.as_slice())
}

} // verus!
