//! Checked pattern values: ranges written `a`, `a..b` or `a..=b`, kept as
//! closed intervals.

use vstd::prelude::*;
use vstd::string::*;
use crate::text::{padded_hex, push_padded_hex, range_width, range_width_exec};
use crate::ast::values::{normalize, normalize_exec, sort_values, value_order, lemma_value_order_total};

verus! {

broadcast use vstd::seq_lib::group_to_multiset_ensures;

/// A closed interval of pattern values; the same type as in the parsed form.
pub type Value = crate::ast::Value;

/// A range as written, with its bounds already read as integers.
#[derive(Debug, Copy, Clone, PartialEq, Eq, Structural)]
pub enum RawValue {
    /// `a`
    Point(u128),
    /// `a..b`, the end excluded
    Range(u128, u128),
    /// `a..=b`, the end included
    RangeEq(u128, u128),
}

/// Why a written range is refused.
#[derive(Debug, Copy, Clone, PartialEq, Eq, Structural)]
pub enum RangeError {
    /// `a..b` with `b <= a`: the end must be greater than the start.
    EmptyExclusive,
    /// `a..=b` with `b < a`: the end must be at least the start.
    EmptyInclusive,
}

/// The interval of a written range.
pub fn value_try_from(raw: RawValue) -> (r: Result<Value, RangeError>)
    ensures
        match raw {
            RawValue::Point(v) => r == Ok::<Value, RangeError>(Value { start: v, end: v }),
            RawValue::Range(a, b) => if a < b {
                r == Ok::<Value, RangeError>(Value { start: a, end: (b - 1) as u128 })
            } else {
                r == Err::<Value, RangeError>(RangeError::EmptyExclusive)
            },
            RawValue::RangeEq(a, b) => if a <= b {
                r == Ok::<Value, RangeError>(Value { start: a, end: b })
            } else {
                r == Err::<Value, RangeError>(RangeError::EmptyInclusive)
            },
        },
{
    match raw {
        RawValue::Point(val) => Ok(Value { start: val, end: val }),
        RawValue::Range(start, end) => {
            if start < end {
                Ok(Value { start, end: end - 1 })
            } else {
                Err(RangeError::EmptyExclusive)
            }
        },
        RawValue::RangeEq(start, end) => {
            if start <= end {
                Ok(Value { start, end })
            } else {
                Err(RangeError::EmptyInclusive)
            }
        },
    }
}

/// The checked values of one variant, merged.
#[derive(Debug)]
pub struct Values(pub Vec<Value>);

impl View for Values {
    type V = Seq<Value>;

    open spec fn view(&self) -> Seq<Value> {
        self.0@
    }
}

/// Like `sweep_disjoint`, but the error is the position, within `rest`, of
/// the interval that overlaps the running one.
pub open spec fn sweep_disjoint_at(buf: Value, rest: Seq<Value>) -> Result<Seq<Value>, int>
    decreases rest.len(),
{
    if rest.len() == 0 {
        Ok(seq![buf])
    } else if buf.spec_overlap(rest[0]) {
        Err(0)
    } else if buf.spec_adjoin(rest[0]) {
        match sweep_disjoint_at(buf.hull(rest[0]), rest.drop_first()) {
            Ok(t) => Ok(t),
            Err(i) => Err(i + 1),
        }
    } else {
        match sweep_disjoint_at(rest[0], rest.drop_first()) {
            Ok(t) => Ok(seq![buf] + t),
            Err(i) => Err(i + 1),
        }
    }
}

/// What `Values::no_overlap` yields: the normalized values, or the number
/// of intervals after the first one, in sorted order, that were accepted
/// before one overlapped.
pub open spec fn no_overlap_spec(s: Seq<Value>) -> Result<Seq<Value>, int> {
    if s.len() <= 1 {
        Ok(s)
    } else {
        let t = s.sort_by(value_order());
        sweep_disjoint_at(t[0], t.drop_first())
    }
}

/// The gaps between neighbours, as (end of one, start of the next).
pub open spec fn touch_points(s: Seq<Value>) -> Seq<Value> {
    Seq::new((s.len() - 1) as nat, |i: int| Value { start: s[i].end, end: s[i + 1].start })
}

impl Values {
    /// There are no intervals.
    pub fn is_empty(&self) -> (r: bool)
        ensures
            r == (self@.len() == 0),
    {
        self.0.len() == 0
    }

    /// The number of intervals.
    pub fn len(&self) -> (r: usize)
        ensures
            r == self@.len(),
    {
        self.0.len()
    }

    /// The intervals.
    pub fn iter(&self) -> (r: &[Value])
        ensures
            r@ == self@,
    {
        self.0.as_slice()
    }

    /// Sorts and merges adjoining intervals.
    pub fn from(raw: Vec<Value>) -> (r: Values)
        ensures
            r@ == normalize(raw@),
    {
        Values(normalize_exec(&raw))
    }

    /// The single interval, or else the pairs (end, next start) around each gap.
    pub fn bounds(&self) -> (r: Result<Value, Vec<Value>>)
        ensures
            self@.len() == 1 ==> r == Ok::<Value, Vec<Value>>(self@[0]),
            self@.len() != 1 ==> (r matches Err(g) && g@ == (if self@.len() == 0 {
                Seq::<Value>::empty()
            } else {
                touch_points(self@)
            })),
    {
        if self.0.len() == 1 {
            Ok(Value { start: self.0[0].start, end: self.0[self.0.len() - 1].end })
        } else {
            let mut out: Vec<Value> = Vec::new();
            let mut i: usize = 0;
            while i + 1 < self.0.len()
                invariant
                    self@.len() != 1,
                    self@.len() > 0 ==> i + 1 <= self@.len(),
                    self@.len() == 0 ==> i == 0,
                    self@.len() > 0 ==> out@ == touch_points(self@).take(i as int),
                    self@.len() == 0 ==> out@ == Seq::<Value>::empty(),
                decreases self.0.len() - i,
            {
                let v = Value { start: self.0[i].end, end: self.0[i + 1].start };
                proof {
                    assert(touch_points(self@).take(i + 1) == touch_points(self@).take(i as int).push(v));
                }
                out.push(v);
                i = i + 1;
            }
            proof {
                if self@.len() > 0 {
                    assert(touch_points(self@).take(i as int) == touch_points(self@));
                }
            }
            Err(out)
        }
    }

    /// Sorts and merges, refusing intervals that share a value; the error
    /// counts the intervals accepted after the first one in sorted order.
    pub fn no_overlap(raw: Vec<Value>) -> (r: Result<Values, usize>)
        ensures
            match (r, no_overlap_spec(raw@)) {
                (Ok(v), Ok(s)) => v@ == s,
                (Err(a), Err(b)) => a == b,
                _ => false,
            },
    {
        if raw.len() <= 1 {
            return Ok(Values(raw));
        }
        let t = sort_values(&raw);
        proof {
            raw@.lemma_sort_by_ensures(value_order());
            lemma_value_order_total();
            assert(t@.len() == raw@.len()) by {
                assert(t@.to_multiset().len() == raw@.to_multiset().len());
            }
        }
        let mut merged: Vec<Value> = Vec::new();
        let mut buffer = t[0];
        let mut i: usize = 0;
        proof {
            assert(t@.skip(1) == t@.drop_first());
        }
        while i + 1 < t.len()
            invariant
                i + 1 <= t.len(),
                t@ == raw@.sort_by(value_order()),
                t@.len() > 1,
                raw@.len() > 1,
                match sweep_disjoint_at(buffer, t@.skip(i + 1)) {
                    Ok(s) => no_overlap_spec(raw@) == Ok::<Seq<Value>, int>(merged@ + s),
                    Err(k) => no_overlap_spec(raw@) == Err::<Seq<Value>, int>(k + i),
                },
            decreases t.len() - i,
        {
            let item = t[i + 1];
            let ghost rest = t@.skip(i + 1);
            proof {
                assert(rest[0] == item);
                assert(rest.drop_first() == t@.skip(i + 2));
            }
            if buffer.overlap(&item) {
                return Err(i);
            } else if buffer.adjoin(&item) {
                buffer.merge(&item);
            } else {
                proof {
                    match sweep_disjoint_at(item, t@.skip(i + 2)) {
                        Ok(tt) => {
                            assert(merged@.push(buffer) + tt == merged@ + (seq![buffer] + tt));
                        },
                        Err(_) => {},
                    }
                }
                merged.push(buffer);
                buffer = item;
            }
            i = i + 1;
        }
        proof {
            assert(t@.skip(i + 1).len() == 0);
            assert(merged@.push(buffer) == merged@ + seq![buffer]);
        }
        merged.push(buffer);
        Ok(Values(merged))
    }
}

/// How a checked value is written: `0xA` for one value, `0xA..` up to the
/// top, `..0xA` from zero (the start, zero, is what is written there), and
/// `0xA..0xC` with the end excluded otherwise, both ends padded to one width.
pub open spec fn checked_value_text(v: Value) -> Seq<char> {
    if v.start == v.end {
        padded_hex(v.start as nat, 0)
    } else if v.end == u128::MAX {
        padded_hex(v.start as nat, 0) + seq!['.', '.']
    } else if v.start == 0 {
        seq!['.', '.'] + padded_hex(v.start as nat, 0)
    } else {
        let w = range_width(v.start as nat, (v.end + 1) as nat);
        padded_hex(v.start as nat, w) + seq!['.', '.'] + padded_hex((v.end + 1) as nat, w)
    }
}

/// Appends a checked value as it is written (see `checked_value_text`).
pub fn write_value(v: &Value, out: &mut String)
    ensures
        final(out)@ == old(out)@ + checked_value_text(*v),
{
    proof {
        reveal_strlit("..");
    }
    if v.start == v.end {
        push_padded_hex(out, v.start, 0);
    } else if v.end == u128::MAX {
        push_padded_hex(out, v.start, 0);
        out.append("..");
    } else if v.start == 0 {
        out.append("..");
        push_padded_hex(out, v.start, 0);
    } else {
        let end = v.end + 1;
        let w = range_width_exec(v.start, end);
        push_padded_hex(out, v.start, w);
        out.append("..");
        push_padded_hex(out, end, w);
    }
}

/// The first `n` checked values of `vs`, written and joined by ` | `.
pub open spec fn checked_joined(vs: Seq<Value>, n: int) -> Seq<char>
    decreases n,
{
    if n <= 0 {
        seq![]
    } else if n == 1 {
        checked_value_text(vs[0])
    } else {
        checked_joined(vs, n - 1) + seq![' ', '|', ' '] + checked_value_text(vs[n - 1])
    }
}

/// How checked values are written: the first three joined by ` | `, then
/// ` | ...` when there are more.
pub open spec fn checked_values_text(vs: Seq<Value>) -> Seq<char> {
    let n = if vs.len() < 3 { vs.len() as int } else { 3 };
    checked_joined(vs, n) + if vs.len() > 3 { seq![' ', '|', ' ', '.', '.', '.'] } else { seq![] }
}

impl Values {
    /// The values as they are written (see `checked_values_text`).
    pub fn to_string(&self) -> (r: String)
        ensures
            r@ == checked_values_text(self@),
    {
        proof {
            reveal_strlit(" | ...");
        }
        let mut out = String::new();
        let n: usize = if self.0.len() < 3 { self.0.len() } else { 3 };
        let mut i: usize = 0;
        while i < n
            invariant
                i <= n <= self@.len(),
                n <= 3,
                out@ == checked_joined(self@, i as int),
            decreases n - i,
        {
            let ghost before = out@;
            proof {
                reveal_strlit(" | ");
            }
            if i > 0 {
                out.append(" | ");
            }
            write_value(&self.0[i], &mut out);
            proof {
                if i > 0 {
                    assert(out@ == before + seq![' ', '|', ' '] + checked_value_text(self@[i as int]));
                }
            }
            i = i + 1;
        }
        if self.0.len() > 3 {
            out.append(" | ...");
        }
        out
    }
}

} // verus!
