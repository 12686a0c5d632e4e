//! Variants whose ranges are checked one by one, and the coverage of their
//! merged values.

use vstd::prelude::*;
use crate::ast::values::normalize;
use crate::error::Error;
use crate::hir::value::{RawValue, RangeError, Value, Values, value_try_from, touch_points};

verus! {

/// A variant as written, with the bounds of its ranges read as integers.
#[derive(Debug)]
pub struct RawVariant {
    pub name: String,
    pub values: Vec<RawValue>,
}

/// A variant with checked, merged values.
#[derive(Debug)]
pub struct Variant {
    pub name: String,
    pub values: Values,
}

/// Some value of `v` is above `max`.
pub open spec fn exceeds(v: Variant, max: u128) -> bool {
    exists|j: int| 0 <= j < v.values@.len() && (#[trigger] v.values@[j]).end > max
}

/// The written range is refused.
pub open spec fn refused(raw: RawValue) -> bool {
    match raw {
        RawValue::Point(_) => false,
        RawValue::Range(a, b) => a >= b,
        RawValue::RangeEq(a, b) => a > b,
    }
}

/// The interval of an accepted written range.
pub open spec fn interval(raw: RawValue) -> Value {
    match raw {
        RawValue::Point(v) => Value { start: v, end: v },
        RawValue::Range(a, b) => Value { start: a, end: (b - 1) as u128 },
        RawValue::RangeEq(a, b) => Value { start: a, end: b },
    }
}

impl Variant {
    /// Checks each written range, in order, and merges the intervals.
    #[verifier::loop_isolation(false)]
    pub fn try_from(ast: RawVariant) -> (r: Result<Variant, RangeError>)
        ensures
            (exists|i: int| 0 <= i < ast.values@.len() && refused(#[trigger] ast.values@[i])) ==> (r matches Err(e)
                && exists|i: int|
                0 <= i < ast.values@.len() && refused(ast.values@[i]) && (forall|k: int|
                    0 <= k < i ==> !refused(#[trigger] ast.values@[k])) && e == (match ast.values@[i] {
                    RawValue::Range(_, _) => RangeError::EmptyExclusive,
                    _ => RangeError::EmptyInclusive,
                })),
            !(exists|i: int| 0 <= i < ast.values@.len() && refused(#[trigger] ast.values@[i])) ==> (r matches Ok(v)
                && v.name == ast.name && v.values@ == normalize(ast.values@.map_values(|x: RawValue| interval(x)))),
    {
        let RawVariant { name, values } = ast;
        let mut out: Vec<Value> = Vec::new();
        let mut i: usize = 0;
        while i < values.len()
            invariant
                i <= values@.len(),
                forall|k: int| 0 <= k < i ==> !refused(#[trigger] values@[k]),
                out@ == values@.take(i as int).map_values(|x: RawValue| interval(x)),
            decreases values.len() - i,
        {
            match value_try_from(values[i]) {
                Ok(v) => {
                    proof {
                        assert(values@.take(i + 1).map_values(|x: RawValue| interval(x)) == values@.take(
                            i as int,
                        ).map_values(|x: RawValue| interval(x)).push(v));
                    }
                    out.push(v);
                },
                Err(e) => {
                    proof {
                        assert(refused(values@[i as int]));
                    }
                    return Err(e);
                },
            }
            i = i + 1;
        }
        proof {
            assert(values@.take(i as int) == values@);
        }
        Ok(Variant { name, values: Values::from(out) })
    }
}

/// Fails at the first variant with a value above `max`.
pub fn check_range(variants: &[Variant], max: u128) -> (r: Result<(), Error>)
    ensures
        r is Ok <==> forall|i: int| 0 <= i < variants@.len() ==> !exceeds(#[trigger] variants@[i], max),
        r matches Err(e) ==> exists|i: int|
            0 <= i < variants@.len() && e == (Error::ExceedsMax { variant: i as usize, max })
                && exceeds(variants@[i], max) && forall|k: int|
                0 <= k < i ==> !exceeds(#[trigger] variants@[k], max),
{
    let mut i: usize = 0;
    while i < variants.len()
        invariant
            i <= variants@.len(),
            forall|k: int| 0 <= k < i ==> !exceeds(#[trigger] variants@[k], max),
        decreases variants.len() - i,
    {
        let values = variants[i].values.iter();
        let mut j: usize = 0;
        while j < values.len()
            invariant
                i < variants@.len(),
                j <= values@.len(),
                values@ == variants@[i as int].values@,
                forall|k: int| 0 <= k < j ==> (#[trigger] values@[k]).end <= max,
                forall|k: int| 0 <= k < i ==> !exceeds(#[trigger] variants@[k], max),
            decreases values.len() - j,
        {
            if values[j].end > max {
                proof {
                    assert(values@[j as int].end > max);
                    assert(exceeds(variants@[i as int], max));
                }
                return Err(Error::ExceedsMax { variant: i, max });
            }
            j = j + 1;
        }
        i = i + 1;
    }
    Ok(())
}

/// Refuses merged values that do not span exactly `0..=max`: a gap below,
/// above, or between intervals.
pub fn check_coverage(values: &Values, max: u128) -> (r: Result<(), Error>)
    ensures
        values@.len() == 1 && 0 < values@[0].start ==> r == Err::<(), Error>(
            Error::UncoveredBelow { start: values@[0].start },
        ),
        values@.len() == 1 && 0 == values@[0].start && values@[0].end < max ==> r == Err::<(), Error>(
            Error::UncoveredAbove { start: (values@[0].end + 1) as u128, max },
        ),
        values@.len() == 1 && 0 == values@[0].start && values@[0].end >= max ==> r is Ok,
        values@.len() != 1 ==> (r matches Err(Error::UncoveredGaps(g)) && g@ == normalize(
            if values@.len() == 0 { Seq::<Value>::empty() } else { touch_points(values@) },
        )),
{
    match values.bounds() {
        Ok(bounds) => {
            if 0 < bounds.start {
                Err(Error::UncoveredBelow { start: bounds.start })
            } else if bounds.end < max {
                Err(Error::UncoveredAbove { start: bounds.end + 1, max })
            } else {
                Ok(())
            }
        },
        Err(gaps) => {
            let merged = Values::from(gaps);
            Err(Error::UncoveredGaps(crate::ast::Values(merged.0)))
        },
    }
}

} // verus!
