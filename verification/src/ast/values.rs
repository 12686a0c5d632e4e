//! Sets of pattern values, written as lists of closed intervals.

use vstd::prelude::*;
use vstd::relations::{sorted_by, total_ordering};
use vstd::seq_lib::lemma_sorted_unique;
use vstd::string::*;
use crate::ast::value::{Value, succ_sat, value_read, value_text};
use crate::tt::{ParseError, Token, is_punct, is_word, punct_at, take_front, word_at};

verus! {

broadcast use vstd::seq_lib::group_to_multiset_ensures;

/// The values of one variant pattern (`a | b..c | d..=e`), or `_` when empty.
#[derive(Debug, PartialEq, Eq)]
pub struct Values(pub Vec<Value>);

impl View for Values {
    type V = Seq<Value>;

    open spec fn view(&self) -> Seq<Value> {
        self.0@
    }
}

/// The order of the derived `Ord` on `Value`: by `start`, then by `end`.
pub open spec fn value_order() -> spec_fn(Value, Value) -> bool {
    |a: Value, b: Value| a.lex_le(b)
}

/// The lexicographic order is a total order.
pub proof fn lemma_value_order_total()
    ensures
        total_ordering(value_order()),
{
    let r = value_order();
    assert(vstd::relations::reflexive(r));
    assert(vstd::relations::antisymmetric(r));
    assert(vstd::relations::transitive(r));
    assert(vstd::relations::strongly_connected(r));
}

/// Some interval of `s` holds `x`.
pub open spec fn covers(s: Seq<Value>, x: int) -> bool {
    exists|i: int| 0 <= i < s.len() && #[trigger] s[i].contains(x)
}

/// Every interval of `s` is non-empty.
pub open spec fn all_valid(s: Seq<Value>) -> bool {
    forall|i: int| 0 <= i < s.len() ==> #[trigger] s[i].is_valid()
}

/// `s` is sorted, and neighbours neither overlap nor touch: the unique
/// shortest list of intervals for the set that it covers.
pub open spec fn canonical(s: Seq<Value>) -> bool {
    &&& all_valid(s)
    &&& forall|i: int| 0 <= i < s.len() - 1 ==> #[trigger] s[i].end + 1 < s[i + 1].start
}

/// No two intervals at different positions of `s` share a value.
pub open spec fn pairwise_disjoint(s: Seq<Value>) -> bool {
    forall|i: int, j: int|
        0 <= i < s.len() && 0 <= j < s.len() && i != j ==> !(#[trigger] s[i]).spec_overlap(
            #[trigger] s[j],
        )
}

/// One left-to-right pass over sorted intervals that merges each interval
/// into the running one when they adjoin, and starts a new one otherwise.
pub open spec fn sweep(buf: Value, rest: Seq<Value>) -> Seq<Value>
    decreases rest.len(),
{
    if rest.len() == 0 {
        seq![buf]
    } else if buf.spec_adjoin(rest[0]) {
        sweep(buf.hull(rest[0]), rest.drop_first())
    } else {
        seq![buf] + sweep(rest[0], rest.drop_first())
    }
}

/// The list sorted by `value_order`, with adjoining intervals merged.
pub open spec fn normalize(s: Seq<Value>) -> Seq<Value> {
    if s.len() <= 1 {
        s
    } else {
        let t = s.sort_by(value_order());
        sweep(t[0], t.drop_first())
    }
}

/// Prepends `m` to a successful sweep result.
pub open spec fn prepend(m: Seq<Value>, r: Result<Seq<Value>, Value>) -> Result<Seq<Value>, Value> {
    match r {
        Ok(t) => Ok(m + t),
        Err(v) => Err(v),
    }
}

/// Like `sweep`, but stops at the first interval that shares a value with the running one.
pub open spec fn sweep_disjoint(buf: Value, rest: Seq<Value>) -> Result<Seq<Value>, Value>
    decreases rest.len(),
{
    if rest.len() == 0 {
        Ok(seq![buf])
    } else if buf.spec_overlap(rest[0]) {
        Err(rest[0])
    } else if buf.spec_adjoin(rest[0]) {
        sweep_disjoint(buf.hull(rest[0]), rest.drop_first())
    } else {
        prepend(seq![buf], sweep_disjoint(rest[0], rest.drop_first()))
    }
}

/// `normalize`, refusing lists whose intervals share a value: the error is
/// the first interval, in sorted order, that overlaps an earlier one.
pub open spec fn normalize_disjoint(s: Seq<Value>) -> Result<Seq<Value>, Value> {
    if s.len() <= 1 {
        Ok(s)
    } else {
        let t = s.sort_by(value_order());
        sweep_disjoint(t[0], t.drop_first())
    }
}

/// The gaps between neighbouring intervals of `m`.
pub open spec fn gaps(m: Seq<Value>) -> Seq<Value> {
    Seq::new(
        (m.len() - 1) as nat,
        |i: int| Value { start: (m[i].end + 1) as u128, end: (m[i + 1].start - 1) as u128 },
    )
}

/// The gap bounds of `m` are representable.
pub open spec fn gaps_fit(m: Seq<Value>) -> bool {
    forall|i: int| 0 <= i < m.len() - 1 ==> #[trigger] m[i].end < u128::MAX && 0 < m[i + 1].start
}

/// What `Values::bounds` yields for `s`: the span of the normalized list
/// when it is one interval (everything for `_`), or else its gaps.
pub open spec fn bounds_spec(s: Seq<Value>) -> Result<Value, Seq<Value>> {
    if s.len() == 0 {
        Ok(Value { start: 0, end: u128::MAX })
    } else if s.len() == 1 {
        Ok(s[0])
    } else if normalize(s).len() == 1 {
        Ok(normalize(s)[0])
    } else {
        Err(gaps(normalize(s)))
    }
}

/// Sorts intervals by `value_order` (insertion sort).
pub fn sort_values(v: &Vec<Value>) -> (r: Vec<Value>)
    ensures
        r@ == v@.sort_by(value_order()),
{
    let mut out: Vec<Value> = Vec::new();
    let mut i: usize = 0;
    while i < v.len()
        invariant
            i <= v.len(),
            sorted_by(out@, value_order()),
            out@.to_multiset() == v@.take(i as int).to_multiset(),
        decreases v.len() - i,
    {
        let x = v[i];
        let mut p: usize = 0;
        while p < out.len() && out[p].le_exec(&x)
            invariant
                p <= out.len(),
                forall|k: int| 0 <= k < p ==> (#[trigger] out@[k]).lex_le(x),
            decreases out.len() - p,
        {
            p = p + 1;
        }
        let ghost old_out = out@;
        out.insert(p, x);
        proof {
            assert(out@ == old_out.insert(p as int, x));
            assert forall|a: int, b: int| 0 <= a < b < out@.len() implies #[trigger] (value_order())(
                out@[a],
                out@[b],
            ) by {
                if b < p {
                    assert((value_order())(old_out[a], old_out[b]));
                } else if b == p {
                } else if a < p {
                    assert((value_order())(old_out[a], old_out[b - 1]));
                } else if a == p {
                    assert(!old_out[p as int].lex_le(x));
                    if b - 1 > p {
                        assert((value_order())(old_out[p as int], old_out[b - 1]));
                    }
                } else {
                    assert((value_order())(old_out[a - 1], old_out[b - 1]));
                }
            }
            assert(v@.take(i + 1) == v@.take(i as int).push(x));
            vstd::seq_lib::to_multiset_insert(old_out, p as int, x);
        }
        i = i + 1;
    }
    proof {
        lemma_value_order_total();
        v@.lemma_sort_by_ensures(value_order());
        assert(v@.take(v.len() as int) == v@);
        lemma_sorted_unique(out@, v@.sort_by(value_order()), value_order());
    }
    out
}

/// Sorts, then merges adjoining intervals (the body of `Values::from`).
pub fn normalize_exec(raw: &Vec<Value>) -> (r: Vec<Value>)
    ensures
        r@ == normalize(raw@),
{
    if raw.len() <= 1 {
        let mut r: Vec<Value> = Vec::new();
        if raw.len() == 1 {
            r.push(raw[0]);
        }
        assert(r@ == raw@);
        return r;
    }
    let t = sort_values(raw);
    proof {
        raw@.lemma_sort_by_ensures(value_order());
        lemma_value_order_total();
        assert(t@.len() == raw@.len()) by {
            assert(t@.to_multiset().len() == raw@.to_multiset().len());
        }
    }
    let mut merged: Vec<Value> = Vec::new();
    let mut buffer = t[0];
    let mut i: usize = 1;
    proof {
        assert(t@.skip(1) == t@.drop_first());
    }
    while i < t.len()
        invariant
            1 <= i <= t.len(),
            t@ == raw@.sort_by(value_order()),
            t@.len() > 1,
            merged@ + sweep(buffer, t@.skip(i as int)) == sweep(t@[0], t@.drop_first()),
        decreases t.len() - i,
    {
        let item = t[i];
        let ghost rest = t@.skip(i as int);
        proof {
            assert(rest[0] == item);
            assert(rest.drop_first() == t@.skip(i + 1));
        }
        if buffer.adjoin(&item) {
            buffer.merge(&item);
        } else {
            proof {
                assert(merged@.push(buffer) + sweep(item, t@.skip(i + 1)) == merged@ + (seq![buffer]
                    + sweep(item, t@.skip(i + 1))));
            }
            merged.push(buffer);
            buffer = item;
        }
        i = i + 1;
    }
    proof {
        assert(t@.skip(i as int).len() == 0);
        assert(merged@.push(buffer) == merged@ + sweep(buffer, t@.skip(i as int)));
    }
    merged.push(buffer);
    merged
}

impl Values {
    /// There are no intervals: the pattern is `_`.
    pub fn is_empty(&self) -> (r: bool)
        ensures
            r == (self@.len() == 0),
    {
        self.0.len() == 0
    }

    /// The pattern is a single value.
    pub fn is_point(&self) -> (r: bool)
        ensures
            r == (self@.len() == 1 && self@[0].start == self@[0].end),
    {
        self.0.len() == 1 && (self.0[0].start == self.0[0].end)
    }

    /// The single value of a point pattern.
    pub fn point(&self) -> (r: Option<u128>)
        ensures
            r == (if self@.len() == 1 && self@[0].start == self@[0].end {
                Some(self@[0].start)
            } else {
                None
            }),
    {
        if self.is_point() {
            Some(self.0[0].start)
        } else {
            None
        }
    }

    /// The intervals, in the order written.
    pub fn iter(&self) -> (r: &[Value])
        ensures
            r@ == self@,
    {
        self.0.as_slice()
    }

    /// Normalizes a list of intervals: sorted, with adjoining intervals merged.
    pub fn from(raw: Vec<Value>) -> (r: Values)
        ensures
            r@ == normalize(raw@),
    {
        Values(normalize_exec(&raw))
    }

    /// The one interval that the pattern spans (`_` spans all values), or
    /// the gaps inside it when it is not contiguous.
    pub fn bounds(&self) -> (r: Result<Value, Vec<Value>>)
        requires
            self@.len() > 1 ==> gaps_fit(normalize(self@)),
        ensures
            match r {
                Ok(v) => bounds_spec(self@) == Ok::<Value, Seq<Value>>(v),
                Err(g) => bounds_spec(self@) == Err::<Value, Seq<Value>>(g@),
            },
    {
        if self.is_empty() {
            Ok(Value { start: 0, end: u128::MAX })
        } else if self.0.len() == 1 {
            Ok(self.0[0])
        } else {
            let merged = normalize_exec(&self.0);
            if merged.len() == 1 {
                Ok(merged[0])
            } else {
                let mut out: Vec<Value> = Vec::new();
                let mut i: usize = 0;
                proof {
                    assert(merged@.len() != 0) by {
                        if merged@.len() == 0 {
                            let t = self@.sort_by(value_order());
                            assert(merged@ == sweep(t[0], t.drop_first()));
                            lemma_sweep_nonempty(t[0], t.drop_first());
                        }
                    }
                }
                while i + 1 < merged.len()
                    invariant
                        merged@ == normalize(self@),
                        merged@.len() > 1,
                        gaps_fit(merged@),
                        i + 1 <= merged@.len(),
                        out@ == gaps(merged@).take(i as int),
                    decreases merged.len() - i,
                {
                    let g = Value { start: merged[i].end + 1, end: merged[i + 1].start - 1 };
                    proof {
                        assert(gaps(merged@).take(i + 1) == gaps(merged@).take(i as int).push(g));
                    }
                    out.push(g);
                    i = i + 1;
                }
                proof {
                    assert(gaps(merged@).take(i as int) == gaps(merged@));
                }
                Err(out)
            }
        }
    }

    /// Normalizes like `from`, but refuses intervals that share a value;
    /// the error is the first such interval in sorted order.
    pub fn no_overlap(raw: Vec<Value>) -> (r: Result<Values, Value>)
        ensures
            match (r, normalize_disjoint(raw@)) {
                (Ok(v), Ok(s)) => v@ == s,
                (Err(a), Err(b)) => a == b,
                _ => false,
            },
    {
        if raw.len() <= 1 {
            return Ok(Values(raw));
        }
        let t = sort_values(&raw);
        proof {
            raw@.lemma_sort_by_ensures(value_order());
            lemma_value_order_total();
            assert(t@.len() == raw@.len()) by {
                assert(t@.to_multiset().len() == raw@.to_multiset().len());
            }
        }
        let mut merged: Vec<Value> = Vec::new();
        let mut buffer = t[0];
        let mut i: usize = 1;
        proof {
            assert(t@.skip(1) == t@.drop_first());
        }
        while i < t.len()
            invariant
                1 <= i <= t.len(),
                t@ == raw@.sort_by(value_order()),
                t@.len() > 1,
                raw@.len() > 1,
                prepend(merged@, sweep_disjoint(buffer, t@.skip(i as int))) == sweep_disjoint(
                    t@[0],
                    t@.drop_first(),
                ),
            decreases t.len() - i,
        {
            let item = t[i];
            let ghost rest = t@.skip(i as int);
            proof {
                assert(rest[0] == item);
                assert(rest.drop_first() == t@.skip(i + 1));
            }
            if buffer.overlap(&item) {
                proof {
                    assert(sweep_disjoint(buffer, rest) == Err::<Seq<Value>, Value>(item));
                }
                return Err(item);
            } else if buffer.adjoin(&item) {
                buffer.merge(&item);
            } else {
                proof {
                    let tail = sweep_disjoint(item, t@.skip(i + 1));
                    match tail {
                        Ok(tt) => {
                            assert(merged@.push(buffer) + tt == merged@ + (seq![buffer] + tt));
                        },
                        Err(_) => {},
                    }
                }
                merged.push(buffer);
                buffer = item;
            }
            i = i + 1;
        }
        proof {
            assert(t@.skip(i as int).len() == 0);
            assert(merged@.push(buffer) == merged@ + seq![buffer]);
        }
        merged.push(buffer);
        Ok(Values(merged))
    }
}

/// A sweep never yields an empty list.
pub proof fn lemma_sweep_nonempty(buf: Value, rest: Seq<Value>)
    ensures
        sweep(buf, rest).len() > 0,
    decreases rest.len(),
{
    if rest.len() > 0 {
        lemma_sweep_nonempty(buf.hull(rest[0]), rest.drop_first());
        lemma_sweep_nonempty(rest[0], rest.drop_first());
    }
}


/// Sorting keeps the elements: the sorted list covers the same values and
/// holds only valid intervals when the input does.
proof fn lemma_sorted_same_elements(s: Seq<Value>)
    ensures
        s.sort_by(value_order()).len() == s.len(),
        sorted_by(s.sort_by(value_order()), value_order()),
        forall|v: Value| s.sort_by(value_order()).contains(v) <==> s.contains(v),
        s.sort_by(value_order()).to_multiset() == s.to_multiset(),
{
    lemma_value_order_total();
    s.lemma_sort_by_ensures(value_order());
    let t = s.sort_by(value_order());
    assert(t.to_multiset().len() == s.to_multiset().len());
    assert forall|v: Value| t.contains(v) <==> s.contains(v) by {
        vstd::seq_lib::to_multiset_contains(t, v);
        vstd::seq_lib::to_multiset_contains(s, v);
    }
}

/// Lists with the same elements cover the same values.
proof fn lemma_covers_same_elements(s: Seq<Value>, t: Seq<Value>)
    requires
        forall|v: Value| t.contains(v) <==> s.contains(v),
    ensures
        forall|x: int| covers(t, x) <==> covers(s, x),
        all_valid(s) ==> all_valid(t),
{
    assert forall|x: int| covers(t, x) implies covers(s, x) by {
        let i = choose|i: int| 0 <= i < t.len() && #[trigger] t[i].contains(x);
        assert(t.contains(t[i]));
        let j = choose|j: int| 0 <= j < s.len() && s[j] == t[i];
        assert(s[j].contains(x));
    }
    assert forall|x: int| covers(s, x) implies covers(t, x) by {
        let i = choose|i: int| 0 <= i < s.len() && #[trigger] s[i].contains(x);
        assert(s.contains(s[i]));
        let j = choose|j: int| 0 <= j < t.len() && t[j] == s[i];
        assert(t[j].contains(x));
    }
    if all_valid(s) {
        assert forall|i: int| 0 <= i < t.len() implies #[trigger] t[i].is_valid() by {
            assert(t.contains(t[i]));
        }
    }
}

/// Properties of one sweep over sorted valid intervals.
proof fn lemma_sweep(buf: Value, rest: Seq<Value>)
    requires
        buf.is_valid(),
        all_valid(rest),
        sorted_by(rest, value_order()),
        forall|j: int| 0 <= j < rest.len() ==> buf.start <= (#[trigger] rest[j]).start,
    ensures
        canonical(sweep(buf, rest)),
        sweep(buf, rest).len() > 0,
        sweep(buf, rest)[0].start == buf.start,
        forall|x: int| covers(sweep(buf, rest), x) <==> (buf.contains(x) || covers(rest, x)),
    decreases rest.len(),
{
    let r = sweep(buf, rest);
    if rest.len() == 0 {
        assert forall|x: int| covers(r, x) <==> (buf.contains(x) || covers(rest, x)) by {
            if buf.contains(x) {
                assert(r[0].contains(x));
            }
        }
    } else {
        let item = rest[0];
        let tail = rest.drop_first();
        assert(sorted_by(tail, value_order())) by {
            assert forall|a: int, b: int| 0 <= a < b < tail.len() implies #[trigger] (value_order())(
                tail[a],
                tail[b],
            ) by {
                assert((value_order())(rest[a + 1], rest[b + 1]));
            }
        }
        assert forall|j: int| 0 <= j < tail.len() implies item.start <= (#[trigger] tail[j]).start by {
            assert((value_order())(rest[0], rest[j + 1]));
        }
        assert(all_valid(tail)) by {
            assert forall|j: int| 0 <= j < tail.len() implies (#[trigger] tail[j]).is_valid() by {
                assert(rest[j + 1].is_valid());
            }
        }
        assert forall|x: int| covers(rest, x) <==> (item.contains(x) || covers(tail, x)) by {
            if covers(rest, x) {
                let i = choose|i: int| 0 <= i < rest.len() && #[trigger] rest[i].contains(x);
                if i > 0 {
                    assert(tail[i - 1].contains(x));
                }
            }
            if covers(tail, x) {
                let i = choose|i: int| 0 <= i < tail.len() && #[trigger] tail[i].contains(x);
                assert(rest[i + 1].contains(x));
            }
            if item.contains(x) {
                assert(rest[0].contains(x));
            }
        }
        if buf.spec_adjoin(item) {
            let h = buf.hull(item);
            assert(item.is_valid());
            assert forall|j: int| 0 <= j < tail.len() implies h.start <= (#[trigger] tail[j]).start by {
                assert(buf.start <= rest[j + 1].start);
            }
            lemma_sweep(h, tail);
            crate::ast::value::lemma_adjoin_iff_hull_union(buf, item);
            assert forall|x: int| h.contains(x) <==> (buf.contains(x) || item.contains(x)) by {
                crate::ast::value::lemma_hull_contains(buf, item, x);
            }
        } else {
            lemma_sweep(item, tail);
            let s2 = sweep(item, tail);
            assert(r == seq![buf] + s2);
            assert(buf.start <= rest[0].start);
            assert(rest[0].is_valid());
            assert(item.start > succ_sat(buf.end));
            assert(buf.end < u128::MAX);
            assert(buf.end + 1 < item.start);
            assert(canonical(r)) by {
                assert forall|i: int| 0 <= i < r.len() implies #[trigger] r[i].is_valid() by {
                    if i > 0 {
                        assert(r[i] == s2[i - 1]);
                    }
                }
                assert forall|i: int| 0 <= i < r.len() - 1 implies #[trigger] r[i].end + 1 < r[i
                    + 1].start by {
                    if i > 0 {
                        assert(r[i] == s2[i - 1]);
                        assert(r[i + 1] == s2[i]);
                    }
                }
            }
            assert forall|x: int| covers(r, x) <==> (buf.contains(x) || covers(rest, x)) by {
                if covers(r, x) {
                    let i = choose|i: int| 0 <= i < r.len() && #[trigger] r[i].contains(x);
                    if i > 0 {
                        assert(s2[i - 1].contains(x));
                    }
                }
                if buf.contains(x) {
                    assert(r[0].contains(x));
                }
                if covers(s2, x) {
                    let i = choose|i: int| 0 <= i < s2.len() && #[trigger] s2[i].contains(x);
                    assert(r[i + 1].contains(x));
                }
            }
        }
    }
}

/// Normalizing valid intervals yields the canonical list of the same set:
/// sorted, with neither overlapping nor touching neighbours, and covering
/// exactly the values that the input covers.
pub proof fn lemma_normalize(s: Seq<Value>)
    requires
        all_valid(s),
    ensures
        canonical(normalize(s)),
        forall|x: int| covers(normalize(s), x) <==> covers(s, x),
{
    if s.len() > 1 {
        let t = s.sort_by(value_order());
        lemma_sorted_same_elements(s);
        lemma_covers_same_elements(s, t);
        let rest = t.drop_first();
        assert(sorted_by(rest, value_order())) by {
            assert forall|a: int, b: int| 0 <= a < b < rest.len() implies #[trigger] (value_order())(
                rest[a],
                rest[b],
            ) by {
                assert((value_order())(t[a + 1], t[b + 1]));
            }
        }
        assert forall|j: int| 0 <= j < rest.len() implies t[0].start <= (#[trigger] rest[j]).start by {
            assert((value_order())(t[0], t[j + 1]));
        }
        assert(all_valid(rest)) by {
            assert forall|j: int| 0 <= j < rest.len() implies (#[trigger] rest[j]).is_valid() by {
                assert(t[j + 1].is_valid());
            }
        }
        assert(t[0].is_valid());
        lemma_sweep(t[0], rest);
        assert forall|x: int| covers(t, x) <==> (t[0].contains(x) || covers(rest, x)) by {
            if covers(t, x) {
                let i = choose|i: int| 0 <= i < t.len() && #[trigger] t[i].contains(x);
                if i > 0 {
                    assert(rest[i - 1].contains(x));
                }
            }
            if covers(rest, x) {
                let i = choose|i: int| 0 <= i < rest.len() && #[trigger] rest[i].contains(x);
                assert(t[i + 1].contains(x));
            }
        }
    }
}

/// The gaps between the intervals of a canonical list are representable.
pub proof fn lemma_canonical_gaps_fit(m: Seq<Value>)
    requires
        canonical(m),
    ensures
        gaps_fit(m),
{
    assert forall|i: int| 0 <= i < m.len() - 1 implies #[trigger] m[i].end < u128::MAX && 0 < m[i
        + 1].start by {
        assert(m[i].end + 1 < m[i + 1].start);
    }
}


/// Two different positions of `x` have matching different positions in any
/// list with the same elements.
proof fn lemma_two_positions(x: Seq<Value>, y: Seq<Value>, i: int, j: int) -> (ab: (int, int))
    requires
        x.to_multiset() == y.to_multiset(),
        0 <= i < x.len(),
        0 <= j < x.len(),
        i != j,
    ensures
        0 <= ab.0 < y.len(),
        0 <= ab.1 < y.len(),
        ab.0 != ab.1,
        y[ab.0] == x[i],
        y[ab.1] == x[j],
{
    broadcast use vstd::multiset::group_multiset_axioms;

    assert(x.contains(x[i]));
    assert(x.contains(x[j]));
    vstd::seq_lib::to_multiset_contains(x, x[i]);
    vstd::seq_lib::to_multiset_contains(x, x[j]);
    vstd::seq_lib::to_multiset_contains(y, x[i]);
    vstd::seq_lib::to_multiset_contains(y, x[j]);
    let a = choose|a: int| 0 <= a < y.len() && y[a] == x[i];
    if x[i] != x[j] {
        let b = choose|b: int| 0 <= b < y.len() && y[b] == x[j];
        (a, b)
    } else {
        let v = x[i];
        let xr = x.remove(i);
        vstd::seq_lib::to_multiset_remove(x, i);
        let jj = if j < i { j } else { j - 1 };
        assert(xr[jj] == v);
        assert(xr.contains(v));
        vstd::seq_lib::to_multiset_contains(xr, v);
        assert(x.to_multiset().count(v) >= 2);
        let yr = y.remove(a);
        vstd::seq_lib::to_multiset_remove(y, a);
        assert(yr.to_multiset().count(v) >= 1);
        vstd::seq_lib::to_multiset_contains(yr, v);
        let c = choose|c: int| 0 <= c < yr.len() && yr[c] == v;
        let b = if c < a { c } else { c + 1 };
        assert(y[b] == v);
        (a, b)
    }
}

/// A successful checked sweep agrees with the plain sweep.
proof fn lemma_sweep_disjoint_ok(buf: Value, rest: Seq<Value>)
    ensures
        sweep_disjoint(buf, rest) matches Ok(m) ==> m == sweep(buf, rest),
    decreases rest.len(),
{
    if rest.len() > 0 {
        lemma_sweep_disjoint_ok(buf.hull(rest[0]), rest.drop_first());
        lemma_sweep_disjoint_ok(rest[0], rest.drop_first());
    }
}

/// The checked sweep over the sorted list `q + rest`, where `q` is the part
/// already folded into `buf`, fails exactly when some later interval
/// overlaps an earlier one.
proof fn lemma_sweep_disjoint(q: Seq<Value>, buf: Value, rest: Seq<Value>)
    requires
        q.len() >= 1,
        all_valid(q + rest),
        sorted_by(q + rest, value_order()),
        buf.is_valid(),
        forall|k: int| 0 <= k < q.len() ==> (#[trigger] q[k]).end <= buf.end,
        exists|k: int| 0 <= k < q.len() && (#[trigger] q[k]).end == buf.end,
        forall|j: int| 0 <= j < rest.len() ==> buf.start <= (#[trigger] rest[j]).start,
    ensures
        (sweep_disjoint(buf, rest) is Ok) <==> (forall|a: int, b: int|
            0 <= a < b < q.len() + rest.len() && b >= q.len() ==> !(#[trigger] (q + rest)[a]).spec_overlap(
                #[trigger] (q + rest)[b],
            )),
        sweep_disjoint(buf, rest) matches Err(v) ==> exists|a: int, b: int|
            0 <= a < b < q.len() + rest.len() && b >= q.len() && (q + rest)[b] == v && (q
                + rest)[a].spec_overlap((q + rest)[b]),
    decreases rest.len(),
{
    let u = q + rest;
    if rest.len() == 0 {
    } else {
        let item = rest[0];
        let n = q.len() as int;
        assert(u[n] == item);
        assert(item.is_valid());
        let k = choose|k: int| 0 <= k < q.len() && (#[trigger] q[k]).end == buf.end;
        assert(u[k] == q[k]);
        assert((value_order())(u[k], u[n]));
        if buf.spec_overlap(item) {
            assert(u[k].spec_overlap(u[n]));
        } else {
            assert(buf.start <= item.start);
            assert(item.start > buf.end);
            assert forall|a: int| 0 <= a < n implies !(#[trigger] u[a]).spec_overlap(u[n]) by {
                assert(u[a] == q[a]);
            }
            let q2 = q.push(item);
            let tail = rest.drop_first();
            assert(q2 + tail == u);
            let buf2 = if buf.spec_adjoin(item) { buf.hull(item) } else { item };
            assert forall|kk: int| 0 <= kk < q2.len() implies (#[trigger] q2[kk]).end <= buf2.end by {
                if kk < n {
                    assert(q2[kk] == q[kk]);
                }
            }
            if buf2.end == buf.end {
                assert(q2[k] == q[k]);
                assert(q2[k].end == buf2.end);
            } else {
                assert(q2[n] == item);
                assert(q2[n].end == buf2.end);
            }
            assert forall|j: int| 0 <= j < tail.len() implies buf2.start <= (#[trigger] tail[j]).start by {
                assert(u[n + 1 + j] == tail[j]);
                assert((value_order())(u[n], u[n + 1 + j]));
                assert(buf.start <= rest[j + 1].start);
            }
            lemma_sweep_disjoint(q2, buf2, tail);
            assert(sweep_disjoint(buf, rest) == (if buf.spec_adjoin(item) {
                sweep_disjoint(buf2, tail)
            } else {
                prepend(seq![buf], sweep_disjoint(buf2, tail))
            }));
            if sweep_disjoint(buf, rest) is Ok {
                assert forall|a: int, b: int|
                    0 <= a < b < u.len() && b >= n implies !(#[trigger] u[a]).spec_overlap(
                    #[trigger] u[b],
                ) by {
                    if b == n {
                    } else {
                        assert(b >= q2.len());
                    }
                }
            } else {
                let (a, b) = choose|a: int, b: int|
                    0 <= a < b < q2.len() + tail.len() && b >= q2.len() && (q2 + tail)[b]
                        == sweep_disjoint(buf2, tail)->Err_0 && (q2 + tail)[a].spec_overlap(
                        (q2 + tail)[b],
                    );
                assert(!(forall|a: int, b: int|
                    0 <= a < b < u.len() && b >= n ==> !(#[trigger] u[a]).spec_overlap(
                        #[trigger] u[b],
                    ))) by {
                    assert(u[a].spec_overlap(u[b]));
                }
            }
        }
    }
}

/// `no_overlap` accepts valid intervals exactly when no two of them share a
/// value; what it accepts is normalized as by `from`, and what it refuses is
/// an interval of the input that overlaps another one.
pub proof fn lemma_no_overlap(s: Seq<Value>)
    requires
        all_valid(s),
    ensures
        (normalize_disjoint(s) is Ok) <==> pairwise_disjoint(s),
        normalize_disjoint(s) matches Ok(m) ==> m == normalize(s),
        normalize_disjoint(s) matches Err(v) ==> exists|i: int, j: int|
            0 <= i < s.len() && 0 <= j < s.len() && i != j && s[j] == v && s[i].spec_overlap(s[j]),
{
    if s.len() <= 1 {
        assert(pairwise_disjoint(s));
    } else {
        let t = s.sort_by(value_order());
        lemma_sorted_same_elements(s);
        lemma_covers_same_elements(s, t);
        let q = seq![t[0]];
        let rest = t.drop_first();
        assert(q + rest == t);
        assert(t[0].is_valid());
        assert(q[0].end == t[0].end);
        assert forall|j: int| 0 <= j < rest.len() implies t[0].start <= (#[trigger] rest[j]).start by {
            assert((value_order())(t[0], t[j + 1]));
        }
        lemma_sweep_disjoint(q, t[0], rest);
        lemma_sweep_disjoint_ok(t[0], rest);
        let ok = forall|a: int, b: int|
            0 <= a < b < t.len() && b >= 1 ==> !(#[trigger] t[a]).spec_overlap(#[trigger] t[b]);
        if ok {
            assert forall|i: int, j: int|
                0 <= i < s.len() && 0 <= j < s.len() && i != j implies !(#[trigger] s[i]).spec_overlap(
                #[trigger] s[j],
            ) by {
                let (a, b) = lemma_two_positions(s, t, i, j);
                if a < b {
                    assert(!t[a].spec_overlap(t[b]));
                } else {
                    assert(!t[b].spec_overlap(t[a]));
                }
            }
        } else {
            let (a, b) = choose|a: int, b: int|
                0 <= a < b < t.len() && b >= 1 && (#[trigger] t[a]).spec_overlap(#[trigger] t[b]);
            let (i, j) = lemma_two_positions(t, s, a, b);
            assert(!pairwise_disjoint(s)) by {
                assert(s[i].spec_overlap(s[j]));
            }
        }
        if normalize_disjoint(s) is Err {
            let v = normalize_disjoint(s)->Err_0;
            let (a, b) = choose|a: int, b: int|
                0 <= a < b < t.len() && b >= 1 && t[b] == v && t[a].spec_overlap(t[b]);
            let (i, j) = lemma_two_positions(t, s, a, b);
            assert(s[j] == v && s[i].spec_overlap(s[j]));
        }
    }
}


/// The interval that a checked sweep refuses is one of its inputs.
proof fn lemma_sweep_disjoint_err_in(buf: Value, rest: Seq<Value>)
    ensures
        sweep_disjoint(buf, rest) matches Err(v) ==> rest.contains(v),
    decreases rest.len(),
{
    if rest.len() > 0 {
        lemma_sweep_disjoint_err_in(buf.hull(rest[0]), rest.drop_first());
        lemma_sweep_disjoint_err_in(rest[0], rest.drop_first());
        if sweep_disjoint(buf, rest) is Err {
            let v = sweep_disjoint(buf, rest)->Err_0;
            if v != rest[0] {
                let k = choose|k: int| 0 <= k < rest.drop_first().len() && rest.drop_first()[k] == v;
                assert(rest[k + 1] == v);
            } else {
                assert(rest[0] == v);
            }
        }
    }
}

/// The interval that `no_overlap` refuses is one of its inputs.
pub proof fn lemma_no_overlap_err_in(s: Seq<Value>)
    ensures
        normalize_disjoint(s) matches Err(v) ==> s.contains(v),
{
    if s.len() > 1 {
        let t = s.sort_by(value_order());
        lemma_sorted_same_elements(s);
        lemma_sweep_disjoint_err_in(t[0], t.drop_first());
        if normalize_disjoint(s) is Err {
            let v = normalize_disjoint(s)->Err_0;
            let k = choose|k: int| 0 <= k < t.drop_first().len() && t.drop_first()[k] == v;
            assert(t[k + 1] == v);
            assert(t.contains(v));
        }
    }
}

/// The first `n` values of `vs`, written and joined by ` | `.
pub open spec fn joined(vs: Seq<Value>, n: int) -> Seq<char>
    decreases n,
{
    if n <= 0 {
        seq![]
    } else if n == 1 {
        value_text(vs[0])
    } else {
        joined(vs, n - 1) + seq![' ', '|', ' '] + value_text(vs[n - 1])
    }
}

/// How a pattern is written: `_` when it has no value; otherwise its first
/// three values joined by ` | `, then ` | ...` when there are more.
pub open spec fn values_text(vs: Seq<Value>) -> Seq<char> {
    if vs.len() == 0 {
        seq!['_']
    } else {
        let n = if vs.len() < 3 { vs.len() as int } else { 3 };
        joined(vs, n) + if vs.len() > 3 { seq![' ', '|', ' ', '.', '.', '.'] } else { seq![] }
    }
}

/// The first three values can be written (no range ends at zero but `0`).
pub open spec fn writable(vs: Seq<Value>) -> bool {
    forall|i: int| 0 <= i < vs.len() && i < 3 ==> ((#[trigger] vs[i]).end == 0 ==> vs[i].start == 0)
}

impl Values {
    /// The pattern as it is written (see `values_text`).
    pub fn to_string(&self) -> (r: String)
        requires
            writable(self@),
        ensures
            r@ == values_text(self@),
    {
        proof {
            reveal_strlit("_");
            reveal_strlit(" | ");
            reveal_strlit(" | ...");
        }
        let mut out = String::new();
        if self.0.len() == 0 {
            out.append("_");
            return out;
        }
        let n: usize = if self.0.len() < 3 { self.0.len() } else { 3 };
        let mut i: usize = 0;
        while i < n
            invariant
                i <= n <= self@.len(),
                n <= 3,
                writable(self@),
                i > 0 ==> out@ == joined(self@, i as int),
                i == 0 ==> out@ == Seq::<char>::empty(),
            decreases n - i,
        {
            let ghost before = out@;
            proof {
                reveal_strlit(" | ");
            }
            if i > 0 {
                out.append(" | ");
            }
            self.0[i].write_to(&mut out);
            proof {
                if i == 0 {
                    assert(out@ == value_text(self@[0]));
                } else {
                    assert(out@ == before + seq![' ', '|', ' '] + value_text(self@[i as int]));
                }
            }
            i = i + 1;
        }
        if self.0.len() > 3 {
            out.append(" | ...");
        }
        out
    }
}

/// In a canonical list every interval ends before the next ones start.
proof fn lemma_canonical_ordered(m: Seq<Value>, i: int, j: int)
    requires
        canonical(m),
        0 <= i < j < m.len(),
    ensures
        m[i].end < m[j].start,
    decreases j - i,
{
    assert(m[j - 1].end + 1 < m[j].start);
    assert(m[j - 1].is_valid());
    if i < j - 1 {
        lemma_canonical_ordered(m, i, j - 1);
    }
}

/// A sweep over a canonical list merges nothing.
proof fn lemma_sweep_canonical(buf: Value, rest: Seq<Value>)
    requires
        canonical(seq![buf] + rest),
    ensures
        sweep(buf, rest) == seq![buf] + rest,
    decreases rest.len(),
{
    let m = seq![buf] + rest;
    if rest.len() > 0 {
        assert(m[0] == buf && m[1] == rest[0]);
        assert(buf.end + 1 < rest[0].start);
        let tail = rest.drop_first();
        assert(seq![rest[0]] + tail == rest);
        assert forall|i: int| 0 <= i < rest.len() - 1 implies #[trigger] rest[i].end + 1 < rest[i + 1].start by {
            assert(m[i + 1] == rest[i] && m[i + 2] == rest[i + 1]);
        }
        assert forall|i: int| 0 <= i < rest.len() implies (#[trigger] rest[i]).is_valid() by {
            assert(m[i + 1] == rest[i]);
        }
        lemma_sweep_canonical(rest[0], tail);
    }
}

/// A canonical list is its own normal form.
pub proof fn lemma_canonical_is_normal(m: Seq<Value>)
    requires
        canonical(m),
    ensures
        normalize(m) == m,
{
    if m.len() > 1 {
        lemma_value_order_total();
        lemma_sorted_same_elements(m);
        assert(sorted_by(m, value_order())) by {
            assert forall|i: int, j: int| 0 <= i < j < m.len() implies (value_order())(m[i], m[j]) by {
                lemma_canonical_ordered(m, i, j);
                assert(m[i].is_valid());
            }
        }
        lemma_sorted_unique(m, m.sort_by(value_order()), value_order());
        assert(m.sort_by(value_order()) == m);
        assert(seq![m[0]] + m.drop_first() == m);
        lemma_sweep_canonical(m[0], m.drop_first());
    }
}

/// Normalizing twice changes nothing.
pub proof fn lemma_normalize_idempotent(s: Seq<Value>)
    requires
        all_valid(s),
    ensures
        normalize(normalize(s)) == normalize(s),
{
    lemma_normalize(s);
    lemma_canonical_is_normal(normalize(s));
}

/// What the values separated by `|` at the front of `t` read as, and how
/// many tokens they take.
pub open spec fn alts_read(t: Seq<Token>) -> Result<(Seq<Value>, nat), ParseError>
    decreases t.len(),
{
    match value_read(t) {
        Err(e) => Err(e),
        Ok((v, n)) => if 1 <= n <= t.len() && punct_at(t, n as int, '|') {
            match alts_read(t.skip(n + 1int)) {
                Err(e) => Err(e),
                Ok((vs, m)) => Ok((seq![v] + vs, n + 1 + m)),
            }
        } else {
            Ok((seq![v], n))
        },
    }
}

/// What the pattern at the front of `t` reads as: `_` has no value;
/// otherwise values separated by `|`, kept as written.
pub open spec fn values_read(t: Seq<Token>) -> Result<(Seq<Value>, nat), ParseError> {
    if word_at(t, 0, seq!['_']) {
        Ok((seq![], 1))
    } else {
        alts_read(t)
    }
}

impl Values {
    /// Reads the pattern at the front of `rest` (see `values_read`).
    pub fn parse(rest: &mut Vec<Token>) -> (r: Result<Values, ParseError>)
        ensures
            match values_read(old(rest)@) {
                Ok((vs, n)) => (r matches Ok(v) && v@ == vs) && n <= old(rest)@.len() && final(rest)@
                    == old(rest)@.skip(n as int),
                Err(e) => r == Err::<Values, ParseError>(e),
            },
    {
        proof {
            reveal_strlit("_");
            assert("_"@ == seq!['_']);
        }
        if rest.len() > 0 && is_word(&rest[0], "_") {
            let _ = take_front(rest, 1);
            return Ok(Values(Vec::new()));
        }
        let ghost t = rest@;
        let mut out: Vec<Value> = Vec::new();
        let ghost mut pos: int = 0;
        proof {
            assert(t.skip(0) == t);
            if let Ok((vs, m)) = alts_read(t) {
                assert(out@ + vs == vs);
            }
        }
        loop
            invariant
                old(rest)@ == t,
                values_read(t) == alts_read(t),
                0 <= pos <= t.len(),
                rest@ == t.skip(pos),
                alts_read(t) == (match alts_read(t.skip(pos)) {
                    Err(e) => Err(e),
                    Ok((vs, m)) => Ok((out@ + vs, (pos + m) as nat)),
                }),
            decreases rest.len(),
        {
            let ghost u = rest@;
            let ghost before = out@;
            let v = match Value::parse(rest) {
                Ok(v) => v,
                Err(e) => {
                    proof {
                        assert(value_read(u) == Err::<(Value, nat), ParseError>(e));
                        assert(alts_read(u) == Err::<(Seq<Value>, nat), ParseError>(e));
                    }
                    return Err(e);
                },
            };
            let ghost n = value_read(u)->Ok_0.1;
            proof {
                assert(value_read(u) == Ok::<(Value, nat), ParseError>((v, n)));
                assert(u.skip(n as int) == t.skip(pos + n));
            }
            out.push(v);
            if rest.len() > 0 && is_punct(&rest[0], '|') {
                let _ = take_front(rest, 1);
                proof {
                    assert(punct_at(u, n as int, '|'));
                    assert(u.skip(n as int).skip(1) == u.skip(n + 1int));
                    assert(t.skip(pos).skip(n + 1int) == t.skip(pos + n + 1));
                    if let Ok((vs, m)) = alts_read(u.skip(n + 1int)) {
                        assert(before + (seq![v] + vs) == out@ + vs);
                    }
                    pos = pos + n + 1;
                }
            } else {
                proof {
                    assert(!punct_at(u, n as int, '|'));
                    assert(alts_read(u) == Ok::<(Seq<Value>, nat), ParseError>((seq![v], n)));
                    assert(out@ == before + seq![v]);
                    assert(t.skip(pos).skip(n as int) == t.skip(pos + n));
                    pos = pos + n;
                }
                return Ok(Values(out));
            }
        }
    }
}

} // verus!
