//! Picking the best logit.
//!
//! Logits arrive as the bit patterns of IEEE-754 single-precision numbers.
//! They are compared through [`logit_rank`], an unsigned key that orders
//! numbers as their values do, puts both zeros on one rank and ranks every
//! NaN below negative infinity.

use vstd::prelude::*;

verus! {

/// Bit pattern of negative infinity.
pub const NEG_INFINITY_BITS: u32 = 0xff80_0000;

/// True when `bits` encodes a NaN.
pub open spec fn is_nan_bits(bits: u32) -> bool {
    bits & 0x7f80_0000u32 == 0x7f80_0000u32 && bits & 0x007f_ffffu32 != 0
}

/// The rank of a single-precision bit pattern.
pub open spec fn rank(bits: u32) -> u32 {
    if is_nan_bits(bits) {
        0
    } else if bits == 0x8000_0000u32 {
        0x8000_0000u32
    } else if bits & 0x8000_0000u32 != 0 {
        !bits
    } else {
        bits | 0x8000_0000u32
    }
}

/// Whether `i` is the first position of a maximal rank in `s`.
pub open spec fn is_first_max(s: Seq<u32>, i: int) -> bool {
    &&& 0 <= i < s.len()
    &&& forall|j: int| 0 <= j < s.len() ==> rank(#[trigger] s[j]) <= rank(s[i])
    &&& forall|j: int| 0 <= j < i ==> rank(#[trigger] s[j]) < rank(s[i])
}

/// Computes [`rank`].
pub fn logit_rank(bits: u32) -> (r: u32)
    ensures
        r == rank(bits),
{
    if bits & 0x7f80_0000u32 == 0x7f80_0000u32 && bits & 0x007f_ffffu32 != 0 {
        0
    } else if bits == 0x8000_0000u32 {
        0x8000_0000u32
    } else if bits & 0x8000_0000u32 != 0 {
        !bits
    } else {
        bits | 0x8000_0000u32
    }
}

/// Position and bit pattern of the first maximal logit of `xs`.
///
/// An empty slice gives position 0 and negative infinity.
pub fn argmax_index(xs: &[u32]) -> (r: (usize, u32))
    ensures
        xs@.len() == 0 ==> r == (0usize, NEG_INFINITY_BITS),
        xs@.len() > 0 ==> is_first_max(xs@, r.0 as int) && r.1 == xs@[r.0 as int],
{
    if xs.len() == 0 {
        return (0, NEG_INFINITY_BITS);
    }
    let mut best: usize = 0;
    let mut best_rank: u32 = logit_rank(xs[0]);
    let mut i: usize = 1;
    while i < xs.len()
        invariant
            0 < i <= xs@.len(),
            best < i,
            best_rank == rank(xs@[best as int]),
            forall|j: int| 0 <= j < i ==> rank(#[trigger] xs@[j]) <= best_rank,
            forall|j: int| 0 <= j < best ==> rank(#[trigger] xs@[j]) < best_rank,
        decreases xs@.len() - i,
    {
        let r = logit_rank(xs[i]);
        if r > best_rank {
            best = i;
            best_rank = r;
        }
        i += 1;
    }
    (best, xs[best])
}

} // verus!
