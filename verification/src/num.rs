//! Integer helpers shared by the layout computations.

use vstd::prelude::*;
use vstd::arithmetic::power2::{pow2, lemma_pow2_pos, lemma_pow2_unfold, lemma_pow2_strictly_increases, lemma2_to64, lemma2_to64_rest};

verus! {

/// `a / b`, rounded up.
pub open spec fn ceil_div(a: int, b: int) -> int {
    (a + b - 1) / b
}

/// The exponent of the smallest power of two that is at least `n`.
pub open spec fn clog2(n: nat) -> nat
    decreases n,
{
    if n <= 1 {
        0
    } else {
        clog2(((n + 1) / 2) as nat) + 1
    }
}

/// The smallest power of two that is at least `n` (`1` for `0`).
pub open spec fn next_pow2(n: nat) -> nat {
    pow2(clog2(n))
}

/// `pow2(clog2(n))` is at least `n`, and the power below it is not.
pub proof fn lemma_clog2_bounds(n: nat)
    ensures
        pow2(clog2(n)) >= n,
        clog2(n) > 0 ==> pow2((clog2(n) - 1) as nat) < n,
    decreases n,
{
    if n <= 1 {
        vstd::arithmetic::power2::lemma_pow2(0);
        reveal(vstd::arithmetic::power::pow);
    } else {
        let m = ((n + 1) / 2) as nat;
        lemma_clog2_bounds(m);
        lemma_pow2_unfold(clog2(n));
        if clog2(m) > 0 {
            lemma_pow2_unfold(clog2(m));
        } else {
            vstd::arithmetic::power2::lemma_pow2(0);
            reveal(vstd::arithmetic::power::pow);
        }
    }
}

/// A power of two that is at least `n` while half of it is below `n` is `next_pow2(n)`.
pub proof fn lemma_next_pow2_unique(k: nat, n: nat)
    requires
        pow2(k) >= n,
        k > 0 ==> pow2((k - 1) as nat) < n,
    ensures
        pow2(k) == next_pow2(n),
        k == clog2(n),
{
    lemma_clog2_bounds(n);
    let j = clog2(n);
    if k < j {
        // pow2(k) <= pow2(j - 1) < n
        if k < (j - 1) as nat {
            lemma_pow2_strictly_increases(k, (j - 1) as nat);
        }
    } else if k > j {
        if j < (k - 1) as nat {
            lemma_pow2_strictly_increases(j, (k - 1) as nat);
        }
    }
}

/// The largest power of two below `u128::MAX`.
pub proof fn lemma_pow2_127()
    ensures
        pow2(127) == 0x8000_0000_0000_0000_0000_0000_0000_0000,
{
    lemma2_to64();
    lemma2_to64_rest();
    vstd::arithmetic::power2::lemma_pow2_adds(64, 63);
    assert(pow2(64) * pow2(63) == 0x8000_0000_0000_0000_0000_0000_0000_0000) by (nonlinear_arith)
        requires
            pow2(64) == 0x1_0000_0000_0000_0000,
            pow2(63) == 0x8000_0000_0000_0000,
    ;
}

/// Computes `pow2(n)` for exponents that fit `u128`.
pub fn pow2_u128(n: u32) -> (r: u128)
    requires
        n < 128,
    ensures
        r == pow2(n as nat),
{
    let mut r: u128 = 1;
    let mut i: u32 = 0;
    proof {
        vstd::arithmetic::power2::lemma_pow2(0);
        reveal(vstd::arithmetic::power::pow);
    }
    while i < n
        invariant
            i <= n < 128,
            r == pow2(i as nat),
        decreases n - i,
    {
        proof {
            lemma_pow2_unfold((i + 1) as nat);
            if i + 1 < 127 {
                lemma_pow2_strictly_increases((i + 1) as nat, 127);
            }
            lemma_pow2_127();
        }
        r = r * 2;
        i = i + 1;
    }
    r
}

/// `x.div_ceil(8)` on `u32`.
pub fn div_ceil8_u32(x: u32) -> (r: u32)
    ensures
        r == ceil_div(x as int, 8),
{
    if x % 8 == 0 {
        x / 8
    } else {
        x / 8 + 1
    }
}

/// `x.div_ceil(8)` on `usize`.
pub fn div_ceil8_usize(x: usize) -> (r: usize)
    ensures
        r == ceil_div(x as int, 8),
{
    if x % 8 == 0 {
        x / 8
    } else {
        x / 8 + 1
    }
}

/// `x.next_power_of_two()` on `u32`, for inputs where it does not overflow.
pub fn next_pow2_u32(x: u32) -> (r: u32)
    requires
        x <= 0x8000_0000,
    ensures
        r == next_pow2(x as nat),
{
    let mut p: u32 = 1;
    let ghost mut k: nat = 0;
    proof {
        vstd::arithmetic::power2::lemma_pow2(0);
        reveal(vstd::arithmetic::power::pow);
    }
    while p < x
        invariant
            x <= 0x8000_0000,
            p == pow2(k),
            k > 0 ==> pow2((k - 1) as nat) < x,
            p <= 0x8000_0000,
        decreases 0x1_0000_0000 - p,
    {
        proof {
            lemma_pow2_unfold(k + 1);
            lemma_pow2_pos(k);
            lemma2_to64();
            if k >= 31 {
                if k > 31 {
                    lemma_pow2_strictly_increases(31, k);
                }
                assert(false);
            }
            if k + 1 < 31 {
                lemma_pow2_strictly_increases(k + 1, 31);
            }
        }
        p = p * 2;
        proof {
            k = k + 1;
        }
    }
    proof {
        lemma_next_pow2_unique(k, x as nat);
    }
    p
}

/// `x.next_power_of_two()` on `usize`, for inputs where it does not overflow.
pub fn next_pow2_usize(x: usize) -> (r: usize)
    requires
        x <= usize::MAX / 2 + 1,
    ensures
        r == next_pow2(x as nat),
{
    let mut p: usize = 1;
    let ghost mut k: nat = 0;
    proof {
        vstd::arithmetic::power2::lemma_pow2(0);
        reveal(vstd::arithmetic::power::pow);
    }
    while p < x
        invariant
            x <= usize::MAX / 2 + 1,
            p == pow2(k),
            k > 0 ==> pow2((k - 1) as nat) < x,
        decreases usize::MAX - p,
    {
        proof {
            lemma_pow2_unfold(k + 1);
            lemma_pow2_pos(k);
        }
        p = p * 2;
        proof {
            k = k + 1;
        }
    }
    proof {
        lemma_next_pow2_unique(k, x as nat);
    }
    p
}

/// The largest `k` with `2^k <= n` (for `n >= 1`).
pub open spec fn log2_floor(n: nat) -> nat
    decreases n,
{
    if n <= 1 {
        0
    } else {
        log2_floor(n / 2) + 1
    }
}

/// `2^log2_floor(n)` is at most `n`.
pub proof fn lemma_log2_floor_pow2(n: nat)
    requires
        n >= 1,
    ensures
        pow2(log2_floor(n)) <= n,
    decreases n,
{
    if n <= 1 {
        vstd::arithmetic::power2::lemma2_to64();
    } else {
        lemma_log2_floor_pow2(n / 2);
        vstd::arithmetic::power2::lemma_pow2_unfold(log2_floor(n));
    }
}

/// `n.ilog2()` on `u128`.
pub fn log2_floor_u128(n: u128) -> (r: u32)
    requires
        n >= 1,
    ensures
        r == log2_floor(n as nat),
        r < 128,
{
    let mut m = n;
    let mut k: u32 = 0;
    proof {
        lemma_log2_floor_pow2(n as nat);
        if log2_floor(n as nat) >= 128 {
            if log2_floor(n as nat) > 128 {
                lemma_pow2_strictly_increases(128, log2_floor(n as nat));
            }
            crate::num::lemma_pow2_127();
            lemma_pow2_unfold(128);
        }
    }
    while m > 1
        invariant
            1 <= m <= n,
            log2_floor(n as nat) < 128,
            log2_floor(n as nat) == log2_floor(m as nat) + k,
        decreases m,
    {
        m = m / 2;
        k = k + 1;
    }
    k
}

} // verus!
