//! Reading the numbers of pattern values and field placements, `uN` type
//! names and size suffixes, and writing numbers in decimal.

use vstd::prelude::*;

verus! {

/// The value of an ASCII digit in bases up to 16 (`16` for any other byte).
pub open spec fn digit_value(c: u8) -> int {
    if 48 <= c <= 57 {
        c - 48
    } else if 97 <= c <= 102 {
        c - 87
    } else if 65 <= c <= 70 {
        c - 55
    } else {
        16
    }
}

/// The base that the literal's prefix selects (`0x`, `0o`, `0b`, else ten).
pub open spec fn lit_base(s: Seq<u8>) -> int {
    if s.len() >= 2 && s[0] == 48 && s[1] == 120 {
        16
    } else if s.len() >= 2 && s[0] == 48 && s[1] == 111 {
        8
    } else if s.len() >= 2 && s[0] == 48 && s[1] == 98 {
        2
    } else {
        10
    }
}

/// The length of the base prefix.
pub open spec fn prefix_len(s: Seq<u8>) -> int {
    if lit_base(s) == 10 {
        0
    } else {
        2
    }
}

/// A digit of the base, or the separator `_`.
pub open spec fn in_body(c: u8, base: int) -> bool {
    c == 95 || digit_value(c) < base
}

/// Where the digits that start at `i` end.
pub open spec fn body_end(s: Seq<u8>, i: int, base: int) -> int
    decreases s.len() - i,
{
    if 0 <= i < s.len() && in_body(s[i], base) {
        body_end(s, i + 1, base)
    } else {
        i
    }
}

/// The value of digits with separators, in `base`.
pub open spec fn body_value(b: Seq<u8>, base: int) -> int
    decreases b.len(),
{
    if b.len() == 0 {
        0
    } else if b.last() == 95 {
        body_value(b.drop_last(), base)
    } else {
        body_value(b.drop_last(), base) * base + digit_value(b.last())
    }
}

/// The number of digits, separators aside.
pub open spec fn digit_count(b: Seq<u8>) -> int
    decreases b.len(),
{
    if b.len() == 0 {
        0
    } else if b.last() == 95 {
        digit_count(b.drop_last())
    } else {
        digit_count(b.drop_last()) + 1
    }
}

/// An integer literal: its value and where its suffix starts, or `None`
/// when it has no digit.
pub open spec fn lex_int_spec(s: Seq<u8>) -> Option<(int, int)> {
    let base = lit_base(s);
    let p = prefix_len(s);
    let e = body_end(s, p, base);
    if digit_count(s.subrange(p, e)) > 0 {
        Some((body_value(s.subrange(p, e), base), e))
    } else {
        None
    }
}

/// Digits and separators end in bounds.
proof fn lemma_body_end_bounds(s: Seq<u8>, i: int, base: int)
    requires
        0 <= i <= s.len(),
    ensures
        i <= body_end(s, i, base) <= s.len(),
        forall|k: int| i <= k < body_end(s, i, base) ==> in_body(#[trigger] s[k], base),
    decreases s.len() - i,
{
    if i < s.len() && in_body(s[i], base) {
        lemma_body_end_bounds(s, i + 1, base);
    }
}

/// The value of digits grows with each digit.
proof fn lemma_body_value_mono(b: Seq<u8>, k: int, base: int)
    requires
        0 <= k <= b.len(),
        2 <= base,
        forall|j: int| 0 <= j < b.len() ==> in_body(#[trigger] b[j], base),
    ensures
        body_value(b.subrange(0, k), base) <= body_value(b, base),
        0 <= body_value(b.subrange(0, k), base),
    decreases b.len(),
{
    if k < b.len() {
        lemma_body_value_mono(b.drop_last(), k, base);
        assert(b.drop_last().subrange(0, k) == b.subrange(0, k));
        lemma_body_value_nonneg(b.drop_last(), base);
        let v = body_value(b.drop_last(), base);
        assert(v * base >= v) by (nonlinear_arith)
            requires
                v >= 0,
                base >= 2,
        ;
    } else {
        assert(b.subrange(0, k) == b);
        lemma_body_value_nonneg(b, base);
    }
}

/// Digit values are never negative.
proof fn lemma_body_value_nonneg(b: Seq<u8>, base: int)
    requires
        2 <= base,
        forall|j: int| 0 <= j < b.len() ==> in_body(#[trigger] b[j], base),
    ensures
        0 <= body_value(b, base),
    decreases b.len(),
{
    if b.len() > 0 {
        lemma_body_value_nonneg(b.drop_last(), base);
        let v = body_value(b.drop_last(), base);
        assert(v * base >= 0) by (nonlinear_arith)
            requires
                v >= 0,
                base >= 2,
        ;
    }
}

/// Reads an integer literal: `Some((value, suffix start))`, with `value`
/// `None` when it exceeds `u128`, or `None` when there is no digit.
pub fn lex_int(s: &[u8]) -> (r: Option<(Option<u128>, usize)>)
    ensures
        match lex_int_spec(s@) {
            None => r is None,
            Some((v, e)) => r matches Some((value, end)) && end == e && (v <= u128::MAX ==> value
                == Some(v as u128)) && (v > u128::MAX ==> value is None) && v >= 0,
        },
{
    let base: u128 = if s.len() >= 2 && s[0] == 48 && s[1] == 120 {
        16
    } else if s.len() >= 2 && s[0] == 48 && s[1] == 111 {
        8
    } else if s.len() >= 2 && s[0] == 48 && s[1] == 98 {
        2
    } else {
        10
    };
    let p: usize = if base == 10 { 0 } else { 2 };
    proof {
        assert(base == lit_base(s@));
        lemma_body_end_bounds(s@, p as int, base as int);
    }
    let mut i = p;
    let mut value: Option<u128> = Some(0);
    let mut digits: usize = 0;
    let ghost end = body_end(s@, p as int, base as int);
    while i < s.len()
        invariant
            p <= i <= end <= s@.len(),
            2 <= base <= 16,
            end == body_end(s@, p as int, base as int),
            end == body_end(s@, i as int, base as int),
            forall|k: int| p <= k < i ==> in_body(#[trigger] s@[k], base as int),
            digits == digit_count(s@.subrange(p as int, i as int)),
            digits <= i,
            value matches Some(v) ==> v == body_value(s@.subrange(p as int, i as int), base as int),
            value is None ==> body_value(s@.subrange(p as int, i as int), base as int) > u128::MAX,
        ensures
            i == s@.len() || !in_body(s@[i as int], base as int),
            p <= i <= end <= s@.len(),
            end == body_end(s@, i as int, base as int),
            digits == digit_count(s@.subrange(p as int, i as int)),
            value matches Some(v) ==> v == body_value(s@.subrange(p as int, i as int), base as int),
            value is None ==> body_value(s@.subrange(p as int, i as int), base as int) > u128::MAX,
        decreases s.len() - i,
    {
        let c = s[i];
        let d: u128 = if 48 <= c && c <= 57 {
            (c - 48) as u128
        } else if 97 <= c && c <= 102 {
            (c - 87) as u128
        } else if 65 <= c && c <= 70 {
            (c - 55) as u128
        } else {
            16
        };
        if c != 95 && d >= base {
            proof {
                assert(d == digit_value(c));
            }
            break;
        }
        let ghost prev = s@.subrange(p as int, i as int);
        let ghost next = s@.subrange(p as int, i + 1);
        proof {
            assert(next.drop_last() == prev);
            assert(next.last() == c);
            lemma_body_value_nonneg(prev, base as int);
        }
        if c != 95 {
            value = match value {
                Some(v) => match v.checked_mul(base) {
                    Some(m) => m.checked_add(d),
                    None => None,
                },
                None => None,
            };
            proof {
                let pv = body_value(prev, base as int);
                assert(pv * base as int + d as int >= pv) by (nonlinear_arith)
                    requires
                        pv >= 0,
                        base >= 2,
                        d >= 0,
                ;
            }
            digits = digits + 1;
        }
        proof {
            assert(in_body(s@[i as int], base as int));
            assert(body_end(s@, i as int, base as int) == body_end(s@, i + 1, base as int));
            lemma_body_end_bounds(s@, i + 1, base as int);
        }
        i = i + 1;
    }
    proof {
        if i < s@.len() {
            assert(!in_body(s@[i as int], base as int));
        }
        assert(end == i);
        let b = s@.subrange(p as int, i as int);
        assert forall|j: int| 0 <= j < b.len() implies in_body(#[trigger] b[j], base as int) by {
            assert(b[j] == s@[p + j]);
        }
        lemma_body_value_nonneg(b, base as int);
    }
    if digits == 0 {
        None
    } else {
        Some((value, i))
    }
}

/// Walking the digits from `p` reaches `body_end` only at its end.
proof fn lemma_body_end_walk(s: Seq<u8>, p: int, i: int, base: int)
    requires
        0 <= p <= i <= s.len(),
        forall|k: int| p <= k < i ==> in_body(#[trigger] s[k], base),
    ensures
        body_end(s, p, base) == body_end(s, i, base),
    decreases i - p,
{
    if p < i {
        lemma_body_end_walk(s, p + 1, i, base);
    }
}

/// An ASCII decimal digit.
pub open spec fn is_dec_digit(c: u8) -> bool {
    48 <= c <= 57
}

/// The digits that `str::parse` reads for an unsigned integer: the text
/// after an optional leading `+`.
pub open spec fn unsigned_digits(s: Seq<u8>) -> Seq<u8> {
    if s.len() > 0 && s[0] == 43 {
        s.drop_first()
    } else {
        s
    }
}

/// What `str::parse` gives for an unsigned integer of largest value `max`.
pub open spec fn parse_unsigned_spec(s: Seq<u8>, max: int) -> Option<int> {
    let t = unsigned_digits(s);
    if t.len() > 0 && (forall|k: int| 0 <= k < t.len() ==> is_dec_digit(#[trigger] t[k])) && body_value(t, 10) <= max {
        Some(body_value(t, 10))
    } else {
        None
    }
}

/// `str::parse` of an unsigned integer: an optional `+` and decimal digits,
/// at most `max`.
pub fn parse_unsigned(s: &[u8], max: u128) -> (r: Option<u128>)
    ensures
        match parse_unsigned_spec(s@, max as int) {
            Some(v) => r == Some(v as u128) && 0 <= v <= max,
            None => r is None,
        },
{
    let start: usize = if s.len() > 0 && s[0] == 43 { 1 } else { 0 };
    let ghost t = unsigned_digits(s@);
    proof {
        assert(t == s@.subrange(start as int, s@.len() as int));
    }
    if start == s.len() {
        return None;
    }
    let mut value: Option<u128> = Some(0);
    let mut i = start;
    while i < s.len()
        invariant
            start <= i <= s@.len(),
            t == s@.subrange(start as int, s@.len() as int),
            t == unsigned_digits(s@),
            forall|k: int| start <= k < i ==> is_dec_digit(#[trigger] s@[k]),
            value matches Some(v) ==> v == body_value(s@.subrange(start as int, i as int), 10),
            value is None ==> body_value(s@.subrange(start as int, i as int), 10) > u128::MAX,
        decreases s.len() - i,
    {
        let c = s[i];
        if !(48 <= c && c <= 57) {
            proof {
                assert(t[i - start] == c);
                assert(!is_dec_digit(t[i - start]));
                assert(!(forall|k: int| 0 <= k < t.len() ==> is_dec_digit(#[trigger] t[k])));
                assert(parse_unsigned_spec(s@, max as int) is None);
            }
            return None;
        }
        let ghost prev = s@.subrange(start as int, i as int);
        let ghost next = s@.subrange(start as int, i + 1);
        proof {
            assert(next.drop_last() == prev);
            assert(next.last() == c);
            assert forall|j: int| 0 <= j < prev.len() implies in_body(#[trigger] prev[j], 10) by {
                assert(is_dec_digit(s@[start + j]));
            }
            lemma_body_value_nonneg(prev, 10);
            let pv = body_value(prev, 10);
            assert(pv * 10 + (c - 48) >= pv) by (nonlinear_arith)
                requires
                    pv >= 0,
                    c >= 48,
            ;
        }
        value = match value {
            Some(v) => match v.checked_mul(10) {
                Some(m) => m.checked_add((c - 48) as u128),
                None => None,
            },
            None => None,
        };
        i = i + 1;
    }
    proof {
        assert(s@.subrange(start as int, i as int) == t);
        assert forall|k: int| 0 <= k < t.len() implies is_dec_digit(#[trigger] t[k]) by {
            assert(t[k] == s@[start + k]);
        }
        assert forall|k: int| 0 <= k < t.len() implies in_body(#[trigger] t[k], 10) by {
            assert(is_dec_digit(t[k]));
        }
        lemma_body_value_nonneg(t, 10);
    }
    match value {
        Some(v) => if v <= max {
            Some(v)
        } else {
            None
        },
        None => None,
    }
}

/// The value of an integer literal of no suffix, as the pattern values are
/// read: decimal, `0x`, `0o` or `0b`, with `_` separators.
pub open spec fn parse_u128_spec(s: Seq<u8>) -> Option<int> {
    match lex_int_spec(s) {
        Some((v, e)) => if e == s.len() && v <= u128::MAX {
            Some(v)
        } else {
            None
        },
        None => None,
    }
}

/// Reads an integer literal of no suffix that fits `u128`.
pub fn parse_u128(s: &[u8]) -> (r: Option<u128>)
    ensures
        match parse_u128_spec(s@) {
            Some(v) => r == Some(v as u128) && 0 <= v,
            None => r is None,
        },
{
    match lex_int(s) {
        Some((Some(v), e)) => if e == s.len() {
            Some(v)
        } else {
            None
        },
        _ => None,
    }
}

/// The width named by a type written `uN`, as `str::parse` reads `N`.
pub open spec fn repr_spec(s: Seq<u8>, max: int) -> Option<int> {
    if s.len() > 0 && s[0] == 117 {
        parse_unsigned_spec(s.drop_first(), max)
    } else {
        None
    }
}

/// The width of a type named `uN` (`u1`, `u8`, ...), if `N` is a `u32`.
pub fn parse_repr(s: &[u8]) -> (r: Option<u32>)
    ensures
        match repr_spec(s@, u32::MAX as int) {
            Some(v) => r == Some(v as u32),
            None => r is None,
        },
{
    if s.len() == 0 || s[0] != 117 {
        return None;
    }
    let rest = slice_from(s, 1);
    proof {
        assert(rest@ == s@.drop_first());
    }
    let rs = rest.as_slice();
    assert(rs@ == s@.drop_first());
    let r = parse_unsigned(rs, 0xffff_ffff);
    assert(repr_spec(s@, u32::MAX as int) == parse_unsigned_spec(rs@, 0xffff_ffff));
    match r {
        Some(v) => Some(v as u32),
        None => None,
    }
}

/// The bytes of `s` from position `a` up to `b`.
pub fn copy_range(s: &[u8], a: usize, b: usize) -> (r: Vec<u8>)
    requires
        a <= b <= s@.len(),
    ensures
        r@ == s@.subrange(a as int, b as int),
{
    let mut out: Vec<u8> = Vec::new();
    let mut k = a;
    while k < b
        invariant
            a <= k <= b <= s@.len(),
            out@ == s@.subrange(a as int, k as int),
        decreases b - k,
    {
        out.push(s[k]);
        proof {
            assert(s@.subrange(a as int, k + 1) == s@.subrange(a as int, k as int).push(s@[k as int]));
        }
        k = k + 1;
    }
    out
}

/// The bytes of `s` from position `i` on.
pub fn slice_from(s: &[u8], i: usize) -> (r: Vec<u8>)
    requires
        i <= s@.len(),
    ensures
        r@ == s@.subrange(i as int, s@.len() as int),
{
    let mut out: Vec<u8> = Vec::new();
    let mut k = i;
    while k < s.len()
        invariant
            i <= k <= s@.len(),
            out@ == s@.subrange(i as int, k as int),
        decreases s.len() - k,
    {
        out.push(s[k]);
        proof {
            assert(s@.subrange(i as int, k + 1) == s@.subrange(i as int, k as int).push(s@[k as int]));
        }
        k = k + 1;
    }
    out
}

/// The decimal digits of `n`, most significant first.
pub open spec fn decimal(n: nat) -> Seq<u8>
    decreases n,
{
    if n < 10 {
        seq![(48 + n) as u8]
    } else {
        decimal(n / 10).push((48 + n % 10) as u8)
    }
}

/// Writes `n` in decimal.
pub fn write_decimal(n: usize) -> (r: Vec<u8>)
    ensures
        r@ == decimal(n as nat),
    decreases n,
{
    if n < 10 {
        let mut v: Vec<u8> = Vec::new();
        v.push((48 + n) as u8);
        v
    } else {
        let mut v = write_decimal(n / 10);
        v.push((48 + n % 10) as u8);
        v
    }
}

/// Writes a `u128` in decimal.
pub fn write_decimal_u128(n: u128) -> (r: Vec<u8>)
    ensures
        r@ == decimal(n as nat),
    decreases n,
{
    if n < 10 {
        let mut v: Vec<u8> = Vec::new();
        v.push((48 + n) as u8);
        v
    } else {
        let mut v = write_decimal_u128(n / 10);
        v.push((48 + n % 10) as u8);
        v
    }
}

/// Decimal digits read back as the number they were written from.
pub proof fn lemma_decimal_roundtrip(n: nat)
    ensures
        decimal(n).len() > 0,
        forall|k: int| 0 <= k < decimal(n).len() ==> is_dec_digit(#[trigger] decimal(n)[k]),
        body_value(decimal(n), 10) == n,
        decimal(n)[0] != 43,
    decreases n,
{
    if n < 10 {
        let d = decimal(n);
        assert(d.drop_last() == Seq::<u8>::empty());
        assert(body_value(d, 10) == body_value(d.drop_last(), 10) * 10 + digit_value(d.last()));
    } else {
        lemma_decimal_roundtrip(n / 10);
        let d = decimal(n);
        assert(d.drop_last() == decimal(n / 10));
        assert(d.last() == (48 + n % 10) as u8);
        assert(digit_value(d.last()) == n % 10);
        assert(body_value(d, 10) == body_value(decimal(n / 10), 10) * 10 + n % 10);
        assert((n / 10) as int * 10 + n % 10 == n);
        assert forall|k: int| 0 <= k < d.len() implies is_dec_digit(#[trigger] d[k]) by {
            if k < d.len() - 1 {
                assert(d[k] == decimal(n / 10)[k]);
            }
        }
    }
}

/// The width in bits of a type named `uN`, as `N` bits, or `None` for a
/// name of another form or for `u0`.
pub fn size_of(name: &[u8]) -> (r: Option<crate::off::Offset>)
    ensures
        match repr_spec(name@, usize::MAX as int) {
            Some(v) => if v == 0 {
                r is None
            } else {
                r matches Some(o) && o.byte == v / 8 && o.bit == v % 8
            },
            None => r is None,
        },
{
    if name.len() == 0 || name[0] != 117 {
        return None;
    }
    let rest = slice_from(name, 1);
    let rs = rest.as_slice();
    assert(rs@ == name@.drop_first());
    let r = parse_unsigned(rs, usize::MAX as u128);
    match r {
        Some(bits) => {
            let bits = bits as usize;
            if bits == 0 {
                None
            } else {
                Some(crate::off::Offset::from_bits(bits))
            }
        },
        None => None,
    }
}

/// The name `uN` of the unsigned type of `size.bits()` bits.
pub fn with_size(size: crate::off::Offset) -> (r: Vec<u8>)
    requires
        size.spec_bits() <= usize::MAX,
    ensures
        r@ == seq![117u8] + decimal(size.spec_bits() as nat),
{
    let digits = write_decimal(size.bits());
    let mut out: Vec<u8> = Vec::new();
    out.push(117);
    let mut i: usize = 0;
    while i < digits.len()
        invariant
            i <= digits@.len(),
            out@ == seq![117u8] + digits@.take(i as int),
        decreases digits.len() - i,
    {
        out.push(digits[i]);
        proof {
            assert(digits@.take(i + 1) == digits@.take(i as int).push(digits@[i as int]));
        }
        i = i + 1;
    }
    proof {
        assert(digits@.take(i as int) == digits@);
    }
    out
}

/// Naming a width and reading the name back gives the width.
pub proof fn lemma_size_of_with_size(bits: nat)
    requires
        1 <= bits <= usize::MAX,
    ensures
        repr_spec(seq![117u8] + decimal(bits), usize::MAX as int) == Some(bits as int),
{
    lemma_decimal_roundtrip(bits);
    let s = seq![117u8] + decimal(bits);
    assert(s.drop_first() == decimal(bits));
    assert(unsigned_digits(decimal(bits)) == decimal(bits));
}

/// The digits of `n` in base 16, most significant first: `0`-`9`, then
/// `A`-`F` when `upper`, else `a`-`f`.
pub open spec fn hex_digits(n: nat, upper: bool) -> Seq<u8>
    decreases n,
{
    let d = n % 16;
    let c: u8 = if d < 10 {
        (48 + d) as u8
    } else if upper {
        (65 + d - 10) as u8
    } else {
        (97 + d - 10) as u8
    };
    if n < 16 {
        seq![c]
    } else {
        hex_digits(n / 16, upper).push(c)
    }
}

/// Digits and separators that run to the end of the text end there.
proof fn lemma_body_end_at_end(s: Seq<u8>, i: int, base: int)
    requires
        0 <= i <= s.len(),
        forall|k: int| i <= k < s.len() ==> in_body(#[trigger] s[k], base),
    ensures
        body_end(s, i, base) == s.len(),
    decreases s.len() - i,
{
    if i < s.len() {
        lemma_body_end_at_end(s, i + 1, base);
    }
}

/// Without separators, every character is a digit.
proof fn lemma_digit_count_plain(b: Seq<u8>)
    requires
        forall|k: int| 0 <= k < b.len() ==> #[trigger] b[k] != 95,
    ensures
        digit_count(b) == b.len(),
    decreases b.len(),
{
    if b.len() > 0 {
        lemma_digit_count_plain(b.drop_last());
    }
}

/// The base-16 digits of `n` are digits of base 16, read back as `n`.
proof fn lemma_hex_digits(n: nat, upper: bool)
    ensures
        hex_digits(n, upper).len() > 0,
        forall|k: int|
            0 <= k < hex_digits(n, upper).len() ==> digit_value(#[trigger] hex_digits(n, upper)[k]) < 16
                && hex_digits(n, upper)[k] != 95,
        body_value(hex_digits(n, upper), 16) == n,
    decreases n,
{
    let h = hex_digits(n, upper);
    assert(h.last() != 95 && digit_value(h.last()) == n % 16);
    assert(body_value(h, 16) == body_value(h.drop_last(), 16) * 16 + digit_value(h.last()));
    if n >= 16 {
        lemma_hex_digits(n / 16, upper);
        assert(h.drop_last() == hex_digits(n / 16, upper));
        assert forall|k: int| 0 <= k < h.len() implies digit_value(#[trigger] h[k]) < 16 && h[k] != 95 by {
            if k < h.len() - 1 {
                assert(h[k] == hex_digits(n / 16, upper)[k]);
            }
        }
        assert((n / 16) as int * 16 + n % 16 == n);
    } else {
        assert(h.drop_last() == Seq::<u8>::empty());
    }
}

/// Every hexadecimal literal `0x..` reads as the number its digits spell,
/// whether its letters are lowercase or uppercase.
pub proof fn lemma_hex_literal(n: nat, upper: bool)
    requires
        n <= u128::MAX,
    ensures
        parse_u128_spec(seq![48u8, 120u8] + hex_digits(n, upper)) == Some(n as int),
{
    let h = hex_digits(n, upper);
    let s = seq![48u8, 120u8] + h;
    lemma_hex_digits(n, upper);
    assert(lit_base(s) == 16);
    assert(prefix_len(s) == 2);
    assert forall|k: int| 2 <= k < s.len() implies in_body(#[trigger] s[k], 16) by {
        assert(s[k] == h[k - 2]);
    }
    lemma_body_end_at_end(s, 2, 16);
    assert(s.subrange(2, s.len() as int) =~= h);
    lemma_digit_count_plain(h);
}

/// Every number written in decimal reads back as itself.
pub proof fn lemma_decimal_literal(n: nat)
    requires
        n <= u128::MAX,
    ensures
        parse_u128_spec(decimal(n)) == Some(n as int),
{
    let s = decimal(n);
    lemma_decimal_roundtrip(n);
    assert(is_dec_digit(s[0]));
    if s.len() >= 2 {
        assert(is_dec_digit(s[1]));
    }
    assert(lit_base(s) == 10);
    assert forall|k: int| 0 <= k < s.len() implies in_body(#[trigger] s[k], 10) && s[k] != 95 by {
        assert(is_dec_digit(s[k]));
    }
    lemma_body_end_at_end(s, 0, 10);
    assert(s.subrange(0, s.len() as int) =~= s);
    lemma_digit_count_plain(s);
}

/// The digit characters have their values in every base up to 16: `0`-`9`
/// are 0-9, and `a`-`f` and `A`-`F` alike are 10-15.
pub proof fn lemma_digit_values(c: u8)
    ensures
        48 <= c <= 57 ==> digit_value(c) == c - 48,
        97 <= c <= 102 ==> digit_value(c) == c - 97 + 10 && digit_value(c) == digit_value((c - 32) as u8),
        65 <= c <= 70 ==> digit_value(c) == c - 65 + 10,
        !(48 <= c <= 57 || 97 <= c <= 102 || 65 <= c <= 70) ==> digit_value(c) >= 16,
{
}

/// Digits and separators from `i` run until `j`, where the text ends or
/// something else starts.
proof fn lemma_body_end_until(s: Seq<u8>, i: int, j: int, base: int)
    requires
        0 <= i <= j <= s.len(),
        forall|k: int| i <= k < j ==> in_body(#[trigger] s[k], base),
        j < s.len() ==> !in_body(s[j], base),
    ensures
        body_end(s, i, base) == j,
    decreases j - i,
{
    if i < j {
        lemma_body_end_until(s, i + 1, j, base);
    }
}

/// A number written in decimal, then a suffix that starts with a letter
/// (`u`) or nothing, is lexed as that number with its suffix after it.
pub proof fn lemma_lex_decimal_then(n: nat, suffix: Seq<u8>)
    requires
        suffix.len() == 0 || suffix[0] == 117,
    ensures
        lex_int_spec(decimal(n) + suffix) == Some((n as int, decimal(n).len() as int)),
{
    let d = decimal(n);
    let s = d + suffix;
    lemma_decimal_roundtrip(n);
    assert(s[0] == d[0]);
    assert(is_dec_digit(s[0]));
    if s.len() >= 2 {
        if d.len() >= 2 {
            assert(s[1] == d[1]);
            assert(is_dec_digit(s[1]));
        } else {
            assert(s[1] == suffix[0]);
        }
    }
    assert(lit_base(s) == 10);
    assert forall|k: int| 0 <= k < d.len() implies in_body(#[trigger] s[k], 10) && s[k] != 95 by {
        assert(s[k] == d[k]);
        assert(is_dec_digit(d[k]));
    }
    if d.len() < s.len() {
        assert(s[d.len() as int] == 117);
    }
    lemma_body_end_until(s, 0, d.len() as int, 10);
    assert(s.subrange(0, d.len() as int) =~= d);
    assert forall|k: int| 0 <= k < d.len() implies #[trigger] d[k] != 95 by {
        assert(is_dec_digit(d[k]));
    }
    lemma_digit_count_plain(d);
}

/// The digits of `n` in `base` (at most ten), most significant first.
pub open spec fn small_base_digits(n: nat, base: nat) -> Seq<u8>
    recommends
        2 <= base <= 10,
    decreases n,
{
    if base < 2 || n < base {
        seq![(48 + n % 10) as u8]
    } else {
        proof {
            assert(n / base < n) by (nonlinear_arith)
                requires
                    base >= 2,
                    n >= base,
            ;
        }
        small_base_digits(n / base, base).push((48 + n % base) as u8)
    }
}

proof fn lemma_small_base_digits(n: nat, base: nat)
    requires
        2 <= base <= 10,
    ensures
        small_base_digits(n, base).len() > 0,
        forall|k: int|
            0 <= k < small_base_digits(n, base).len() ==> digit_value(#[trigger] small_base_digits(n, base)[k])
                < base && small_base_digits(n, base)[k] != 95,
        body_value(small_base_digits(n, base), base as int) == n,
    decreases n,
{
    let h = small_base_digits(n, base);
    if n >= base {
        assert(h.last() == (48 + n % base) as u8);
        assert(digit_value(h.last()) == n % base);
        lemma_small_base_digits(n / base, base);
        assert(h.drop_last() == small_base_digits(n / base, base));
        assert forall|k: int| 0 <= k < h.len() implies digit_value(#[trigger] h[k]) < base && h[k] != 95 by {
            if k < h.len() - 1 {
                assert(h[k] == small_base_digits(n / base, base)[k]);
            }
        }
        assert(body_value(h, base as int) == body_value(h.drop_last(), base as int) * base + digit_value(h.last()));
        assert((n / base) as int * base + n % base == n) by (nonlinear_arith)
            requires
                base > 0,
        ;
    } else {
        assert(n % 10 == n);
        assert(h.drop_last() == Seq::<u8>::empty());
        assert(body_value(h, base as int) == body_value(h.drop_last(), base as int) * base + digit_value(h.last()));
    }
}

/// Every binary literal `0b..` and octal literal `0o..` reads as the number
/// its digits spell.
pub proof fn lemma_binary_octal_literal(n: nat)
    requires
        n <= u128::MAX,
    ensures
        parse_u128_spec(seq![48u8, 98u8] + small_base_digits(n, 2)) == Some(n as int),
        parse_u128_spec(seq![48u8, 111u8] + small_base_digits(n, 8)) == Some(n as int),
{
    lemma_prefixed_literal(n, 2, 98);
    lemma_prefixed_literal(n, 8, 111);
}

proof fn lemma_prefixed_literal(n: nat, base: nat, p: u8)
    requires
        n <= u128::MAX,
        base == 2 && p == 98 || base == 8 && p == 111,
    ensures
        parse_u128_spec(seq![48u8, p] + small_base_digits(n, base)) == Some(n as int),
{
    let h = small_base_digits(n, base);
    let s = seq![48u8, p] + h;
    lemma_small_base_digits(n, base);
    assert(lit_base(s) == base);
    assert(prefix_len(s) == 2);
    assert forall|k: int| 2 <= k < s.len() implies in_body(#[trigger] s[k], base as int) by {
        assert(s[k] == h[k - 2]);
    }
    lemma_body_end_at_end(s, 2, base as int);
    assert(s.subrange(2, s.len() as int) =~= h);
    lemma_digit_count_plain(h);
}

/// A separator does not change the value or the number of digits.
proof fn lemma_separator_ignored(a: Seq<u8>, b: Seq<u8>, base: int)
    ensures
        body_value(a + seq![95u8] + b, base) == body_value(a + b, base),
        digit_count(a + seq![95u8] + b) == digit_count(a + b),
    decreases b.len(),
{
    let x = a + seq![95u8] + b;
    let y = a + b;
    if b.len() == 0 {
        assert(x.drop_last() =~= a);
        assert(y =~= a);
    } else {
        lemma_separator_ignored(a, b.drop_last(), base);
        assert(x.drop_last() =~= a + seq![95u8] + b.drop_last());
        assert(y.drop_last() =~= a + b.drop_last());
        assert(x.last() == b.last());
        assert(y.last() == b.last());
    }
}

/// A `_` anywhere after the first digit of a decimal literal is ignored.
pub proof fn lemma_separator_in_decimal(n: nat, p: int)
    requires
        n <= u128::MAX,
        1 <= p <= decimal(n).len(),
    ensures
        parse_u128_spec(decimal(n).take(p) + seq![95u8] + decimal(n).skip(p)) == Some(n as int),
{
    let d = decimal(n);
    let s = d.take(p) + seq![95u8] + d.skip(p);
    lemma_decimal_roundtrip(n);
    assert(d.take(p) + d.skip(p) =~= d);
    lemma_separator_ignored(d.take(p), d.skip(p), 10);
    assert(s[0] == d[0]);
    assert(is_dec_digit(s[0]));
    if p >= 2 {
        assert(s[1] == d[1]);
        assert(is_dec_digit(s[1]));
    } else {
        assert(s[1] == 95);
    }
    assert(lit_base(s) == 10);
    assert forall|k: int| 0 <= k < s.len() implies in_body(#[trigger] s[k], 10) by {
        if k < p {
            assert(s[k] == d[k]);
            assert(is_dec_digit(d[k]));
        } else if k > p {
            assert(s[k] == d[k - 1]);
            assert(is_dec_digit(d[k - 1]));
        }
    }
    lemma_body_end_at_end(s, 0, 10);
    assert(s.subrange(0, s.len() as int) =~= s);
    assert forall|k: int| 0 <= k < d.len() implies #[trigger] d[k] != 95 by {
        assert(is_dec_digit(d[k]));
    }
    lemma_digit_count_plain(d);
}

} // verus!
