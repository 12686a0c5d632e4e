//! Hexadecimal text of pattern values, as `{:#X}` writes it.

use vstd::prelude::*;
use vstd::string::*;
use vstd::arithmetic::power2::pow2;
use crate::num::{ceil_div, log2_floor, log2_floor_u128};

verus! {

/// The upper-case hexadecimal digit of `d` (below 16).
pub open spec fn hex_char(d: int) -> char {
    if d < 10 {
        (48 + d) as char
    } else {
        (55 + d) as char
    }
}

/// The digits of `n` in hexadecimal, most significant first, with no
/// leading zero.
pub open spec fn hex(n: nat) -> Seq<char>
    decreases n,
{
    if n < 16 {
        seq![hex_char(n as int)]
    } else {
        hex(n / 16).push(hex_char((n % 16) as int))
    }
}

/// The one-character text of digit `d`.
fn digit_str(d: u8) -> (r: &'static str)
    requires
        d < 16,
    ensures
        r@ == seq![hex_char(d as int)],
{
    proof {
        reveal_strlit("0");
        reveal_strlit("1");
        reveal_strlit("2");
        reveal_strlit("3");
        reveal_strlit("4");
        reveal_strlit("5");
        reveal_strlit("6");
        reveal_strlit("7");
        reveal_strlit("8");
        reveal_strlit("9");
        reveal_strlit("A");
        reveal_strlit("B");
        reveal_strlit("C");
        reveal_strlit("D");
        reveal_strlit("E");
        reveal_strlit("F");
    }
    match d {
        0 => "0",
        1 => "1",
        2 => "2",
        3 => "3",
        4 => "4",
        5 => "5",
        6 => "6",
        7 => "7",
        8 => "8",
        9 => "9",
        10 => "A",
        11 => "B",
        12 => "C",
        13 => "D",
        14 => "E",
        _ => "F",
    }
}

/// The digits of `n` in decimal, most significant first.
pub open spec fn dec(n: nat) -> Seq<char>
    decreases n,
{
    if n < 10 {
        seq![hex_char(n as int)]
    } else {
        dec(n / 10).push(hex_char((n % 10) as int))
    }
}

/// Appends the decimal digits of `n`.
pub fn push_dec(s: &mut String, n: u32)
    ensures
        final(s)@ == old(s)@ + dec(n as nat),
    decreases n,
{
    if n >= 10 {
        push_dec(s, n / 10);
    }
    s.append(digit_str((n % 10) as u8));
}

/// Appends the hexadecimal digits of `n`.
pub fn push_hex(s: &mut String, n: u128)
    ensures
        final(s)@ == old(s)@ + hex(n as nat),
    decreases n,
{
    if n >= 16 {
        push_hex(s, n / 16);
    }
    s.append(digit_str((n % 16) as u8));
}

/// `{:#0width$X}`: `0x`, then zeros until the text is `width` long, then
/// the digits of `n`.
pub open spec fn padded_hex(n: nat, width: int) -> Seq<char> {
    let fill = width - 2 - hex(n).len();
    seq!['0', 'x'] + Seq::new(if fill > 0 { fill as nat } else { 0 }, |i: int| '0') + hex(n)
}

/// A value below `16^k` has at most `k` digits.
proof fn lemma_hex_len_bound(n: nat, k: nat)
    requires
        1 <= k,
        n < pow2(4 * k),
    ensures
        hex(n).len() <= k,
    decreases n,
{
    if n >= 16 {
        vstd::arithmetic::power2::lemma2_to64();
        if k == 1 {
            assert(false);
        }
        let j = (k - 1) as nat;
        vstd::arithmetic::power2::lemma_pow2_adds(4 * j, 4);
        assert(4 * j + 4 == 4 * k);
        let p = pow2(4 * j);
        assert(n / 16 < p) by (nonlinear_arith)
            requires
                n < p * 16,
        ;
        lemma_hex_len_bound(n / 16, j);
    }
}

/// The number of hexadecimal digits of `n`.
fn hex_len(n: u128) -> (r: usize)
    ensures
        r == hex(n as nat).len(),
        r <= 32,
{
    proof {
        crate::num::lemma_pow2_127();
        vstd::arithmetic::power2::lemma_pow2_unfold(128);
        assert(4 * 32nat == 128);
        lemma_hex_len_bound(n as nat, 32);
    }
    let mut m = n;
    let mut count: usize = 1;
    while m >= 16
        invariant
            1 <= count,
            hex(n as nat).len() <= 32,
            count + hex(m as nat).len() - 1 == hex(n as nat).len(),
        decreases m,
    {
        m = m / 16;
        count = count + 1;
    }
    count
}

/// Appends `n` as `{:#0width$X}` writes it.
pub fn push_padded_hex(s: &mut String, n: u128, width: usize)
    ensures
        final(s)@ == old(s)@ + padded_hex(n as nat, width as int),
{
    proof {
        reveal_strlit("0x");
        reveal_strlit("0");
    }
    let ghost s0 = s@;
    s.append("0x");
    let len = hex_len(n);
    let mut k: usize = len + 2;
    let ghost mut fill: nat = 0;
    while k < width
        invariant
            k == len + 2 + fill,
            fill > 0 ==> k <= width,
            s@ == s0 + seq!['0', 'x'] + Seq::new(fill, |i: int| '0'),
        decreases width - k,
    {
        let ghost before = s@;
        s.append("0");
        proof {
            reveal_strlit("0");
            assert(Seq::new(fill, |i: int| '0').push('0') == Seq::new(fill + 1, |i: int| '0'));
            assert(s0 + seq!['0', 'x'] + Seq::new(fill + 1, |i: int| '0') == before + seq!['0']);
            fill = fill + 1;
        }
        k = k + 1;
    }
    push_hex(s, n);
    proof {
        let w = width as int - 2 - hex(n as nat).len();
        assert(fill == (if w > 0 { w as nat } else { 0 }));
    }
}

/// The width that both ends of a range are padded to: a quarter of the
/// larger `ilog2`, rounded up.
pub open spec fn range_width(a: nat, b: nat) -> int {
    let l = if log2_floor(a) >= log2_floor(b) { log2_floor(a) } else { log2_floor(b) };
    ceil_div(l as int, 4)
}

/// `range_width` of two non-zero values.
pub fn range_width_exec(a: u128, b: u128) -> (r: usize)
    requires
        a >= 1,
        b >= 1,
    ensures
        r == range_width(a as nat, b as nat),
{
    let la = log2_floor_u128(a);
    let lb = log2_floor_u128(b);
    let l = if la >= lb { la } else { lb };
    if l % 4 == 0 {
        (l / 4) as usize
    } else {
        (l / 4 + 1) as usize
    }
}

} // verus!
