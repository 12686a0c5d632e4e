//! The integer type through which values narrower than 128 bits are read.

use vstd::prelude::*;
use vstd::arithmetic::power2::pow2;
use crate::num::{ceil_div, next_pow2, clog2, div_ceil8_u32, next_pow2_u32, lemma_clog2_bounds};
use crate::tt::Type;

verus! {

/// An unsigned integer of `size` bits (8, 16, 32, 64 or 128).
#[derive(Debug)]
pub struct Mask {
    pub size: u32,
    pub ty: Type,
}

/// The mask that `Mask::new(size)` makes.
pub open spec fn mask_spec(size: int) -> Option<Mask> {
    if size <= 128 {
        Some(Mask { size: mask_bits(size) as u32, ty: Type::Literal(mask_bits(size) as u32) })
    } else {
        None
    }
}

/// The width of the mask for `bits` bits: whole bytes, rounded up to a power of two.
pub open spec fn mask_bits(bits: int) -> int {
    (8 * next_pow2(ceil_div(bits, 8) as nat)) as int
}

impl Mask {
    /// The mask that holds `size` bits, if one exists (`size <= 128`).
    pub fn new(size: u32) -> (r: Option<Mask>)
        requires
            size <= 0x8000_0000,
        ensures
            r is Some <==> size <= 128,
            r matches Some(m) ==> m.size == mask_bits(size as int) && m.ty == Type::Literal(m.size),
            r == mask_spec(size as int),
    {
        let bytes = div_ceil8_u32(size);
        proof {
            assert(bytes <= 0x1000_0000);
            lemma_clog2_bounds(bytes as nat);
            vstd::arithmetic::power2::lemma2_to64();
            lemma_next_pow2_le(bytes as nat, 0x1000_0000, 28);
        }
        let size = next_pow2_u32(bytes) * 8;
        proof {
            lemma_mask_bits_range(size as int / 8, bytes as nat);
        }
        if 1 <= size && size <= 128 {
            let ty = Type::literal(size);
            Some(Mask { size, ty })
        } else {
            None
        }
    }
}

/// `next_pow2(n) <= 2^k` when `n <= 2^k`.
pub proof fn lemma_next_pow2_le(n: nat, bound: nat, k: nat)
    requires
        n <= bound,
        bound == pow2(k),
    ensures
        next_pow2(n) <= bound,
{
    lemma_clog2_bounds(n);
    if clog2(n) > k {
        if k < (clog2(n) - 1) as nat {
            vstd::arithmetic::power2::lemma_pow2_strictly_increases(k, (clog2(n) - 1) as nat);
        }
    } else if clog2(n) < k {
        vstd::arithmetic::power2::lemma_pow2_strictly_increases(clog2(n), k);
    }
}

/// The rounded width stays at or below 16 bytes exactly when the byte count does.
proof fn lemma_mask_bits_range(p: int, bytes: nat)
    requires
        p == next_pow2(bytes),
    ensures
        1 <= p <= 16 <==> bytes <= 16,
{
    lemma_clog2_bounds(bytes);
    vstd::arithmetic::power2::lemma_pow2_pos(clog2(bytes));
    vstd::arithmetic::power2::lemma2_to64();
    if bytes <= 16 {
        lemma_next_pow2_le(bytes, 16, 4);
    }
}

/// A mask is a whole number of bytes, a power of two of them, and wide
/// enough for the bits it was made for.
pub proof fn lemma_mask_bits(bits: int)
    requires
        0 <= bits,
    ensures
        mask_bits(bits) >= bits,
        mask_bits(bits) >= 8,
        mask_bits(bits) % 8 == 0,
        exists|k: nat| mask_bits(bits) == 8 * pow2(k),
{
    let b = ceil_div(bits, 8) as nat;
    lemma_clog2_bounds(b);
    vstd::arithmetic::power2::lemma_pow2_pos(clog2(b));
    assert(mask_bits(bits) == 8 * pow2(clog2(b)));
}

/// Widths up to 128 bits take masks of at most 128 bits, at least as wide
/// as the whole bytes they span.
pub proof fn lemma_mask_bits_le_128(bits: int)
    requires
        0 <= bits <= 128,
    ensures
        mask_bits(bits) <= 128,
        8 * ceil_div(bits, 8) <= mask_bits(bits),
{
    let b = ceil_div(bits, 8) as nat;
    vstd::arithmetic::power2::lemma2_to64();
    lemma_next_pow2_le(b, 16, 4);
    lemma_clog2_bounds(b);
}

/// `next_pow2(n)` is at least `n`.
pub proof fn lemma_next_pow2_ge(n: nat)
    ensures
        next_pow2(n) >= n,
{
    lemma_clog2_bounds(n);
}

} // verus!
