//! Closed intervals of `u128` values, the building block of enum patterns.

use vstd::prelude::*;
use vstd::string::*;
use crate::lit::{parse_u128, parse_u128_spec};
use crate::tt::{ParseError, Token, is_punct, literal_at, literal_text, punct_at, take_front};
use crate::text::{padded_hex, push_padded_hex, range_width, range_width_exec};

verus! {

/// The closed range `start..=end` of pattern values.
#[derive(Debug, Copy, Clone, PartialEq, Eq, Structural, PartialOrd, Ord)]
pub struct Value {
    pub start: u128,
    pub end: u128,
}

/// `x + 1`, saturating at `u128::MAX`.
pub open spec fn succ_sat(x: u128) -> int {
    if x == u128::MAX {
        x as int
    } else {
        x + 1
    }
}

impl Value {
    /// The interval is not empty.
    pub open spec fn is_valid(self) -> bool {
        self.start <= self.end
    }

    /// `x` lies in the interval.
    pub open spec fn contains(self, x: int) -> bool {
        self.start <= x <= self.end
    }

    /// The two intervals touch or overlap, so that their union has no gap.
    pub open spec fn spec_adjoin(self, other: Value) -> bool {
        other.start <= succ_sat(self.end) && self.start <= succ_sat(other.end)
    }

    /// The two intervals share at least one value.
    pub open spec fn spec_overlap(self, other: Value) -> bool {
        other.start <= self.end && self.start <= other.end
    }

    /// The smallest interval that holds both.
    pub open spec fn hull(self, other: Value) -> Value {
        Value {
            start: if self.start > other.start { other.start } else { self.start },
            end: if self.end < other.end { other.end } else { self.end },
        }
    }

    /// Lexicographic order on `(start, end)`, the order of the derived `Ord`.
    pub open spec fn lex_le(self, other: Value) -> bool {
        self.start < other.start || (self.start == other.start && self.end <= other.end)
    }

    /// Whether the two intervals touch or overlap.
    pub fn adjoin(&self, other: &Self) -> (r: bool)
        ensures
            r == self.spec_adjoin(*other),
    {
        let a = if self.end == u128::MAX { self.end } else { self.end + 1 };
        let b = if other.end == u128::MAX { other.end } else { other.end + 1 };
        other.start <= a && self.start <= b
    }

    /// Whether the two intervals share a value.
    pub fn overlap(&self, other: &Self) -> (r: bool)
        ensures
            r == self.spec_overlap(*other),
    {
        other.start <= self.end && self.start <= other.end
    }

    /// Widens `self` to the hull of both intervals.
    pub fn merge(&mut self, other: &Self)
        ensures
            *final(self) == old(self).hull(*other),
    {
        if self.start > other.start {
            self.start = other.start;
        }
        if self.end < other.end {
            self.end = other.end;
        }
    }

    /// Exec form of the lexicographic order.
    pub fn le_exec(&self, other: &Self) -> (r: bool)
        ensures
            r == self.lex_le(*other),
    {
        self.start < other.start || (self.start == other.start && self.end <= other.end)
    }
}

/// What the value at the front of `t` reads as, and how many tokens it
/// takes: `a`, `a..b` (the end excluded) or `a..=b`, with integer literals.
pub open spec fn value_read(t: Seq<Token>) -> Result<(Value, nat), ParseError> {
    if !literal_at(t, 0) {
        Err(ParseError::LiteralExpected)
    } else {
        match parse_u128_spec(literal_text(t, 0)) {
            None => Err(ParseError::InvalidStart),
            Some(a) => if !punct_at(t, 1, '.') {
                Ok((Value { start: a as u128, end: a as u128 }, 1))
            } else if !punct_at(t, 2, '.') {
                Err(ParseError::DotExpected)
            } else {
                let k: int = if punct_at(t, 3, '=') { 4 } else { 3 };
                if !literal_at(t, k) {
                    Err(ParseError::LiteralExpected)
                } else {
                    match parse_u128_spec(literal_text(t, k)) {
                        None => Err(ParseError::InvalidEnd),
                        Some(b) => if k == 4 {
                            Ok((Value { start: a as u128, end: b as u128 }, 5))
                        } else if b > a {
                            Ok((Value { start: a as u128, end: (b - 1) as u128 }, 4))
                        } else {
                            Err(ParseError::EmptyRange)
                        },
                    }
                }
            },
        }
    }
}

/// The integer that literal `i` of `rest` is written as.
fn literal_u128(rest: &Vec<Token>, i: usize) -> (r: Option<u128>)
    requires
        literal_at(rest@, i as int),
    ensures
        match parse_u128_spec(literal_text(rest@, i as int)) {
            Some(v) => r == Some(v as u128) && 0 <= v,
            None => r is None,
        },
{
    match &rest[i] {
        Token::Literal(text) => parse_u128(text.as_slice()),
        _ => None,
    }
}

impl Value {
    /// Reads the value at the front of `rest`: `a`, `a..b` or `a..=b`.
    pub fn parse(rest: &mut Vec<Token>) -> (r: Result<Value, ParseError>)
        ensures
            match value_read(old(rest)@) {
                Ok((v, n)) => r == Ok::<Value, ParseError>(v) && n <= old(rest)@.len() && final(rest)@
                    == old(rest)@.skip(n as int),
                Err(e) => r == Err::<Value, ParseError>(e),
            },
    {
        if rest.len() == 0 || !matches!(rest[0], Token::Literal(_)) {
            return Err(ParseError::LiteralExpected);
        }
        let lhs = match literal_u128(rest, 0) {
            Some(v) => v,
            None => return Err(ParseError::InvalidStart),
        };
        if rest.len() < 2 || !is_punct(&rest[1], '.') {
            let _ = take_front(rest, 1);
            return Ok(Value { start: lhs, end: lhs });
        }
        if rest.len() < 3 || !is_punct(&rest[2], '.') {
            return Err(ParseError::DotExpected);
        }
        let incl = rest.len() >= 4 && is_punct(&rest[3], '=');
        let k: usize = if incl { 4 } else { 3 };
        if rest.len() <= k || !matches!(rest[k], Token::Literal(_)) {
            return Err(ParseError::LiteralExpected);
        }
        let rhs = match literal_u128(rest, k) {
            Some(v) => v,
            None => return Err(ParseError::InvalidEnd),
        };
        let value = if incl {
            Value { start: lhs, end: rhs }
        } else if rhs > lhs {
            Value { start: lhs, end: rhs - 1 }
        } else {
            return Err(ParseError::EmptyRange);
        };
        let _ = take_front(rest, k + 1);
        Ok(value)
    }
}

/// Two valid intervals overlap exactly when some value lies in both.
pub proof fn lemma_overlap_iff_common(a: Value, b: Value)
    requires
        a.is_valid(),
        b.is_valid(),
    ensures
        a.spec_overlap(b) <==> exists|x: int| a.contains(x) && b.contains(x),
{
    if a.spec_overlap(b) {
        let x: int = if a.start > b.start { a.start as int } else { b.start as int };
        assert(a.contains(x) && b.contains(x));
    }
}

/// Two valid intervals adjoin exactly when their union is the whole hull.
pub proof fn lemma_adjoin_iff_hull_union(a: Value, b: Value)
    requires
        a.is_valid(),
        b.is_valid(),
    ensures
        a.spec_adjoin(b) <==> (forall|x: int| #[trigger] a.hull(b).contains(x) ==> a.contains(x) || b.contains(x)),
{
    if !a.spec_adjoin(b) {
        if b.start > succ_sat(a.end) {
            let x = a.end + 1;
            assert(a.hull(b).contains(x));
        } else {
            let x = b.end + 1;
            assert(a.hull(b).contains(x));
        }
    }
}

/// Merging widens to the hull, which holds both intervals.
pub proof fn lemma_hull_contains(a: Value, b: Value, x: int)
    ensures
        a.contains(x) || b.contains(x) ==> a.hull(b).contains(x),
{
}

/// How a value is written: `0xA` for one value, `0xA..` up to the top,
/// `..=0xB` from zero, and `0xA..=0xB` otherwise, both ends padded to one
/// width.
pub open spec fn value_text(v: Value) -> Seq<char> {
    if v.start == v.end {
        padded_hex(v.start as nat, 0)
    } else if v.end == u128::MAX {
        padded_hex(v.start as nat, 0) + seq!['.', '.']
    } else if v.start == 0 {
        seq!['.', '.', '='] + padded_hex(v.end as nat, 0)
    } else {
        let w = range_width(v.start as nat, v.end as nat);
        padded_hex(v.start as nat, w) + seq!['.', '.', '='] + padded_hex(v.end as nat, w)
    }
}

impl Value {
    /// Appends the value as it is written (see `value_text`).
    pub fn write_to(&self, out: &mut String)
        requires
            self.end == 0 ==> self.start == 0,
        ensures
            final(out)@ == old(out)@ + value_text(*self),
    {
        proof {
            reveal_strlit("..");
            reveal_strlit("..=");
        }
        if self.start == self.end {
            push_padded_hex(out, self.start, 0);
        } else if self.end == u128::MAX {
            push_padded_hex(out, self.start, 0);
            out.append("..");
        } else if self.start == 0 {
            out.append("..=");
            push_padded_hex(out, self.end, 0);
        } else {
            let w = range_width_exec(self.start, self.end);
            push_padded_hex(out, self.start, w);
            out.append("..=");
            push_padded_hex(out, self.end, w);
        }
    }

    /// The value as it is written (see `value_text`).
    pub fn to_string(&self) -> (r: String)
        requires
            self.end == 0 ==> self.start == 0,
        ensures
            r@ == value_text(*self),
    {
        let mut out = String::new();
        self.write_to(&mut out);
        out
    }
}

} // verus!
