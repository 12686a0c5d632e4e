//! The generated code: what its byte reads behind `from_array`,
//! `from_slice` and the field getters compute, and the tokens of every
//! generated item.

pub mod enm;
pub mod field;
pub mod item;
pub mod layout;
pub mod run;
pub mod strct;
pub mod variant;

use vstd::prelude::*;
use vstd::arithmetic::power2::{pow2, lemma_pow2_adds, lemma_pow2_pos, lemma2_to64};
use vstd::arithmetic::div_mod::{lemma_div_denominator, lemma_div_multiples_vanish_fancy, lemma_fundamental_div_mod, lemma_mod_multiples_vanish, lemma_mod_bound};

verus! {

/// The unsigned integer that the bytes `s` spell in big-endian order.
pub open spec fn be_value(s: Seq<u8>) -> nat
    decreases s.len(),
{
    if s.len() == 0 {
        0
    } else {
        be_value(s.drop_last()) * 256 + s.last() as nat
    }
}

/// `n` bytes spell a value below `2^(8n)`.
pub proof fn lemma_be_value_bound(s: Seq<u8>)
    ensures
        be_value(s) < pow2(8 * s.len()),
    decreases s.len(),
{
    if s.len() == 0 {
        vstd::arithmetic::power2::lemma2_to64();
    } else {
        lemma_be_value_bound(s.drop_last());
        let p = pow2(8 * (s.len() - 1) as nat);
        vstd::arithmetic::power2::lemma_pow2_adds(8 * (s.len() - 1) as nat, 8);
        vstd::arithmetic::power2::lemma2_to64();
        assert(8 * (s.len() - 1) as nat + 8 == 8 * s.len());
        assert(be_value(s.drop_last()) * 256 + s.last() < p * 256) by (nonlinear_arith)
            requires
                be_value(s.drop_last()) < p,
                s.last() < 256,
        ;
    }
}

/// `u128::from_be_bytes` of `data[start..start + len]`, zero-extended.
pub fn read_be(data: &[u8], start: usize, len: usize) -> (r: u128)
    requires
        len <= 16,
        start + len <= data@.len(),
    ensures
        r == be_value(data@.subrange(start as int, start + len)),
{
    let mut v: u128 = 0;
    let mut i: usize = 0;
    while i < len
        invariant
            i <= len <= 16,
            start + len <= data.len(),
            v == be_value(data@.subrange(start as int, start + i)),
        decreases len - i,
    {
        let ghost w = data@.subrange(start as int, start + i + 1);
        proof {
            assert(w.drop_last() == data@.subrange(start as int, start + i));
            lemma_be_value_bound(data@.subrange(start as int, start + i));
            crate::num::lemma_pow2_127();
            vstd::arithmetic::power2::lemma_pow2_adds(120, 7);
            vstd::arithmetic::power2::lemma2_to64();
            if 8 * i < 120 {
                vstd::arithmetic::power2::lemma_pow2_strictly_increases(8 * i as nat, 120);
            }
            assert(v < pow2(120));
            assert(v * 256 + data@[start + i] < 0x1_0000_0000_0000_0000_0000_0000_0000_0000) by (nonlinear_arith)
                requires
                    v < pow2(120),
                    pow2(127) == pow2(120) * pow2(7),
                    pow2(7) == 128,
                    pow2(127) == 0x8000_0000_0000_0000_0000_0000_0000_0000,
                    data@[start + i] < 256,
            ;
        }
        let b = data[start + i];
        v = v * 256 + b as u128;
        i = i + 1;
    }
    v
}

/// The `size` bits that start `offset` bits into `data`, read MSB-first
/// (bit 0 is the most significant bit of byte 0).
pub open spec fn field_bits(data: Seq<u8>, offset: int, size: int) -> int {
    (be_value(data) as int / pow2((8 * data.len() - offset - size) as nat) as int) % pow2(size as nat) as int
}

/// Big-endian values of concatenated bytes.
pub proof fn lemma_be_concat(x: Seq<u8>, y: Seq<u8>)
    ensures
        be_value(x + y) == be_value(x) * pow2(8 * y.len()) + be_value(y),
    decreases y.len(),
{
    lemma2_to64();
    if y.len() == 0 {
        assert(x + y == x);
        assert(pow2(0) == 1);
        assert(be_value(y) == 0);
        assert(8 * y.len() == 0);
        assert(pow2(8 * y.len()) == 1);
        let bx = be_value(x) as int;
        let one = pow2(8 * y.len()) as int;
        assert(bx * one == bx) by (nonlinear_arith)
            requires
                one == 1,
        ;
    } else {
        let y2 = y.drop_last();
        assert((x + y).drop_last() == x + y2);
        assert((x + y).last() == y.last());
        lemma_be_concat(x, y2);
        lemma_pow2_adds(8 * y2.len(), 8);
        assert(8 * y2.len() + 8 == 8 * y.len());
        let a = be_value(x) as int;
        let p = pow2(8 * y2.len()) as int;
        let b = be_value(y2) as int;
        let l = y.last() as int;
        assert((a * p + b) * 256 + l == a * (p * 256) + (b * 256 + l)) by (nonlinear_arith);
        assert(pow2(8 * y.len()) == p * 256);
        assert(be_value(x + y) == (a * p + b) * 256 + l);
        assert(be_value(y) == b * 256 + l);
        let q = pow2(8 * y.len()) as int;
        assert(a * q == a * (p * 256)) by (nonlinear_arith)
            requires
                q == p * 256,
        ;
        assert(be_value(x + y) == a * q + be_value(y));
    }
}

/// The bits of a field can be read from any byte window that holds it: the
/// window's value, shifted right past the bits after the field, keeps the
/// field in its low `size` bits.
pub proof fn lemma_window(data: Seq<u8>, ro: int, rb: int, offset: int, size: int)
    requires
        0 <= ro,
        0 <= rb,
        0 <= size,
        8 * ro <= offset,
        offset + size <= 8 * (ro + rb),
        ro + rb <= data.len(),
    ensures
        (be_value(data.subrange(ro, ro + rb)) as int / pow2((8 * (ro + rb) - offset - size) as nat) as int)
            % pow2(size as nat) as int == field_bits(data, offset, size),
{
    let a_s = data.subrange(0, ro);
    let w_s = data.subrange(ro, ro + rb);
    let b_s = data.subrange(ro + rb, data.len() as int);
    assert(data == (a_s + w_s) + b_s);
    lemma_be_concat(a_s + w_s, b_s);
    lemma_be_concat(a_s, w_s);
    let nb = b_s.len();
    let shr = (8 * (ro + rb) - offset - size) as nat;
    let o = (offset - 8 * ro) as nat;
    let a = be_value(a_s) as int;
    let wv = be_value(w_s) as int;
    let bv = be_value(b_s) as int;
    let d = pow2(8 * nb) as int;
    let s = pow2(shr) as int;
    let t = pow2((8 * rb) as nat) as int;
    let p2 = pow2((o + size) as nat) as int;
    lemma_pow2_pos(8 * nb);
    lemma_pow2_pos(shr);
    lemma_pow2_pos(size as nat);
    lemma_be_value_bound(b_s);
    // the whole value, split around the window
    let x = a * t + wv;
    assert(be_value(data) == d * x + bv) by (nonlinear_arith)
        requires
            be_value(data) == be_value(a_s + w_s) * pow2(8 * nb) + bv,
            be_value(a_s + w_s) == a * t + wv,
            d == pow2(8 * nb),
            x == a * t + wv,
    ;
    // dropping the bytes after the window, then the bits after the field
    assert(8 * data.len() - offset - size == 8 * nb + shr);
    lemma_pow2_adds(8 * nb, shr);
    lemma_div_denominator(be_value(data) as int, d, s);
    lemma_div_multiples_vanish_fancy(x, bv, d);
    assert(be_value(data) as int / d == x) by (nonlinear_arith)
        requires
            be_value(data) == d * x + bv,
            (d * x + bv) / d == x,
    ;
    assert(8 * rb == (o + size) + shr);
    lemma_pow2_adds((o + size) as nat, shr);
    lemma_fundamental_div_mod(wv, s);
    lemma_mod_bound(wv, s);
    let q = wv / s;
    assert(x == s * (a * p2 + q) + wv % s) by (nonlinear_arith)
        requires
            x == a * t + wv,
            t == p2 * s,
            wv == s * q + wv % s,
    ;
    lemma_div_multiples_vanish_fancy(a * p2 + q, wv % s, s);
    // the bits before the field are a multiple of 2^size
    lemma_pow2_adds(o, size as nat);
    let m = pow2(size as nat) as int;
    assert(a * p2 + q == m * (a * pow2(o) as int) + q) by (nonlinear_arith)
        requires
            p2 == pow2(o) * m,
    ;
    lemma_mod_multiples_vanish(a * pow2(o) as int, q, m);
}

} // verus!
