//! Checking an enum definition: widths, defaults, overlaps and coverage.

use vstd::prelude::*;
use crate::tt::Token;
use vstd::arithmetic::power2::pow2;
use crate::ast::{Body, Data, Value, Values, Variant};
use crate::ast::values::{normalize, normalize_disjoint, bounds_spec, gaps_fit, covers, all_valid, lemma_normalize, lemma_no_overlap, lemma_no_overlap_err_in, lemma_canonical_gaps_fit};
use crate::error::Error;
use crate::hir::Mask;
use crate::hir::mask::{mask_bits, mask_spec};
use crate::num::pow2_u128;
use crate::cg::enm::{arm_matches, has_arm};

verus! {

/// A checked enum: every value of `size` bits belongs to exactly one
/// variant, or to the default one.
#[derive(Debug)]
pub struct Enum {
    pub attr: Vec<Token>,
    pub vis: Vec<Token>,
    pub name: String,
    pub size: u32,
    pub mask: Mask,
    pub variants: Vec<Variant>,
}

/// The largest value of `size` bits.
pub open spec fn max_of(size: nat) -> int {
    pow2(size) - 1
}

/// A value of the variant exceeds `max`.
pub open spec fn exceeds(v: Variant, max: u128) -> bool {
    exists|j: int| 0 <= j < v.values@.len() && (#[trigger] v.values@[j]).end > max
}

/// The variant is the default one (`_`).
pub open spec fn is_default(v: Variant) -> bool {
    v.values@.len() == 0
}

/// The values of all variants, in order.
pub open spec fn flat(vs: Seq<Variant>) -> Seq<Value>
    decreases vs.len(),
{
    if vs.len() == 0 {
        Seq::empty()
    } else {
        flat(vs.drop_last()) + vs.last().values@
    }
}

/// `e` reports that variant `i`, the first to hold `value`, overlaps.
pub open spec fn is_overlap_error(vs: Seq<Variant>, value: Value, e: Error) -> bool {
    exists|i: int|
        0 <= i < vs.len() && e == (Error::Overlap { variant: i as usize, value }) && vs[i].values@.contains(value)
            && forall|k: int| 0 <= k < i ==> !(#[trigger] vs[k]).values@.contains(value)
}

/// What `check_coverage` yields for variants `vs` and largest value `max`.
pub open spec fn coverage_outcome(vs: Seq<Variant>, max: u128, r: Result<(), Error>) -> bool {
    match normalize_disjoint(flat(vs)) {
        Err(c) => r matches Err(e) && is_overlap_error(vs, c, e),
        Ok(m) => match bounds_spec(m) {
            Ok(b) => if 0 < b.start {
                r == Err::<(), Error>(Error::UncoveredBelow { start: b.start })
            } else if b.end < max {
                r == Err::<(), Error>(Error::UncoveredAbove { start: (b.end + 1) as u128, max })
            } else {
                r is Ok
            },
            Err(g) => r matches Err(Error::UncoveredGaps(v)) && v@ == normalize(g),
        },
    }
}

/// Coverage can be computed without overflow: the gaps of the merged
/// values are representable.
pub open spec fn coverage_fits(vs: Seq<Variant>) -> bool {
    match normalize_disjoint(flat(vs)) {
        Ok(m) => m.len() > 1 ==> gaps_fit(normalize(m)),
        Err(_) => true,
    }
}

/// Every written interval is non-empty, as the parser guarantees.
pub open spec fn variants_valid(vs: Seq<Variant>) -> bool {
    forall|i: int| 0 <= i < vs.len() ==> all_valid(#[trigger] vs[i].values@)
}

/// What `Enum::try_from` yields for `ast`: the checks run in order, and
/// the first that fails gives the error.
pub open spec fn enum_outcome(ast: Data, r: Result<Enum, Error>) -> bool {
    match ast.body {
        Body::Struct(_) => r matches Err(Error::Internal),
        Body::Enum(vs) => {
            let max = if ast.size == 128 { u128::MAX as int } else { max_of(ast.size as nat) };
            if ast.size > 128 {
                r matches Err(Error::EnumTooLarge)
            } else if vs@.len() == 0 {
                r matches Err(Error::ZeroVariants)
            } else if exists|i: int| 0 <= i < vs@.len() && exceeds(#[trigger] vs@[i], max as u128) {
                r matches Err(e) && exists|i: int|
                    0 <= i < vs@.len() && e == (Error::ExceedsMax { variant: i as usize, max: max as u128 })
                        && exceeds(vs@[i], max as u128) && forall|k: int|
                        0 <= k < i ==> !exceeds(#[trigger] vs@[k], max as u128)
            } else if exists|i: int, j: int| 0 <= i < j < vs@.len() && is_default(#[trigger] vs@[i]) && is_default(#[trigger] vs@[j]) {
                r matches Err(e) && exists|i: int, j: int|
                    0 <= i < j < vs@.len() && is_default(vs@[i]) && is_default(vs@[j])
                        && e == (Error::ConflictDefault { variant: j as usize })
                        && forall|k: int| 0 <= k < j && k != i ==> !is_default(#[trigger] vs@[k])
            } else if exists|i: int| 0 <= i < vs@.len() && is_default(#[trigger] vs@[i]) {
                r matches Ok(e) && e.size == ast.size && e.variants@ == vs@ && e.name == ast.name
                    && e.attr == ast.attr && e.vis == ast.vis
                    && Some(e.mask) == mask_spec(ast.size as int)
            } else {
                match r {
                    Ok(e) => coverage_outcome(vs@, max as u128, Ok(())) && e.size == ast.size
                        && e.variants@ == vs@ && e.name == ast.name && e.attr == ast.attr && e.vis == ast.vis
                        && Some(e.mask) == mask_spec(ast.size as int),
                    Err(e) => coverage_outcome(vs@, max as u128, Err(e)),
                }
            }
        },
    }
}

/// Fails at the first variant with a value above `max`.
pub fn check_range(variants: &[Variant], max: u128) -> (r: Result<(), Error>)
    ensures
        r is Ok <==> forall|i: int| 0 <= i < variants@.len() ==> !exceeds(#[trigger] variants@[i], max),
        r matches Err(e) ==> exists|i: int|
            0 <= i < variants@.len() && e == (Error::ExceedsMax { variant: i as usize, max })
                && exceeds(variants@[i], max) && forall|k: int|
                0 <= k < i ==> !exceeds(#[trigger] variants@[k], max),
{
    let mut i: usize = 0;
    while i < variants.len()
        invariant
            i <= variants@.len(),
            forall|k: int| 0 <= k < i ==> !exceeds(#[trigger] variants@[k], max),
        decreases variants.len() - i,
    {
        let values = variants[i].values.iter();
        let mut j: usize = 0;
        while j < values.len()
            invariant
                i < variants@.len(),
                j <= values@.len(),
                values@ == variants@[i as int].values@,
                forall|k: int| 0 <= k < j ==> (#[trigger] values@[k]).end <= max,
                forall|k: int| 0 <= k < i ==> !exceeds(#[trigger] variants@[k], max),
            decreases values.len() - j,
        {
            if values[j].end > max {
                proof {
                    assert(values@[j as int].end > max);
                    assert(exceeds(variants@[i as int], max));
                }
                return Err(Error::ExceedsMax { variant: i, max });
            }
            j = j + 1;
        }
        i = i + 1;
    }
    Ok(())
}

/// The values of all variants, in order.
fn flatten(variants: &[Variant]) -> (r: Vec<Value>)
    ensures
        r@ == flat(variants@),
{
    let mut out: Vec<Value> = Vec::new();
    let mut i: usize = 0;
    while i < variants.len()
        invariant
            i <= variants@.len(),
            out@ == flat(variants@.take(i as int)),
        decreases variants.len() - i,
    {
        let values = variants[i].values.iter();
        let mut j: usize = 0;
        while j < values.len()
            invariant
                i < variants@.len(),
                j <= values@.len(),
                values@ == variants@[i as int].values@,
                out@ == flat(variants@.take(i as int)) + values@.take(j as int),
            decreases values.len() - j,
        {
            out.push(values[j]);
            proof {
                assert(values@.take(j + 1) == values@.take(j as int).push(values@[j as int]));
            }
            j = j + 1;
        }
        proof {
            assert(values@.take(j as int) == values@);
            assert(variants@.take(i + 1).drop_last() == variants@.take(i as int));
        }
        i = i + 1;
    }
    proof {
        assert(variants@.take(i as int) == variants@);
    }
    out
}

/// A value of the flattened list belongs to some variant.
proof fn lemma_flat_contains(vs: Seq<Variant>, v: Value)
    requires
        flat(vs).contains(v),
    ensures
        exists|i: int| 0 <= i < vs.len() && (#[trigger] vs[i]).values@.contains(v),
    decreases vs.len(),
{
    let a = flat(vs.drop_last());
    let b = vs.last().values@;
    let k = choose|k: int| 0 <= k < flat(vs).len() && flat(vs)[k] == v;
    if k < a.len() {
        assert(a[k] == v);
        lemma_flat_contains(vs.drop_last(), v);
        let i = choose|i: int| 0 <= i < vs.drop_last().len() && (#[trigger] vs.drop_last()[i]).values@.contains(v);
        assert(vs[i] == vs.drop_last()[i]);
    } else {
        assert(b[k - a.len()] == v);
        assert(vs[vs.len() - 1].values@.contains(v));
    }
}

/// The values of each variant appear in the flattened list, and nothing else.
pub proof fn lemma_flat_covers(vs: Seq<Variant>, x: int)
    ensures
        covers(flat(vs), x) <==> exists|i: int| 0 <= i < vs.len() && covers((#[trigger] vs[i]).values@, x),
    decreases vs.len(),
{
    if vs.len() > 0 {
        let a = flat(vs.drop_last());
        let b = vs.last().values@;
        lemma_flat_covers(vs.drop_last(), x);
        if covers(flat(vs), x) {
            let k = choose|k: int| 0 <= k < flat(vs).len() && #[trigger] flat(vs)[k].contains(x);
            if k < a.len() {
                assert(a[k].contains(x));
                let i = choose|i: int| 0 <= i < vs.drop_last().len() && covers((#[trigger] vs.drop_last()[i]).values@, x);
                assert(vs[i] == vs.drop_last()[i]);
            } else {
                assert(b[k - a.len()].contains(x));
                assert(covers(vs[vs.len() - 1].values@, x));
            }
        }
        if exists|i: int| 0 <= i < vs.len() && covers((#[trigger] vs[i]).values@, x) {
            let i = choose|i: int| 0 <= i < vs.len() && covers((#[trigger] vs[i]).values@, x);
            let k = choose|k: int| 0 <= k < vs[i].values@.len() && #[trigger] vs[i].values@[k].contains(x);
            if i < vs.len() - 1 {
                assert(vs.drop_last()[i] == vs[i]);
                assert(covers(a, x));
                let k2 = choose|k2: int| 0 <= k2 < a.len() && #[trigger] a[k2].contains(x);
                assert(flat(vs)[k2] == a[k2]);
            } else {
                assert(flat(vs)[a.len() + k] == b[k]);
            }
        }
    }
}

/// The flattened values of valid variants are valid.
proof fn lemma_flat_valid(vs: Seq<Variant>)
    requires
        variants_valid(vs),
    ensures
        all_valid(flat(vs)),
    decreases vs.len(),
{
    if vs.len() > 0 {
        assert(variants_valid(vs.drop_last())) by {
            assert forall|i: int| 0 <= i < vs.drop_last().len() implies all_valid(#[trigger] vs.drop_last()[i].values@) by {
                assert(vs.drop_last()[i] == vs[i]);
            }
        }
        lemma_flat_valid(vs.drop_last());
        assert(all_valid(vs[vs.len() - 1].values@));
        let a = flat(vs.drop_last());
        let b = vs.last().values@;
        assert forall|k: int| 0 <= k < flat(vs).len() implies (#[trigger] flat(vs)[k]).is_valid() by {
            if k < a.len() {
                assert(flat(vs)[k] == a[k]);
            } else {
                assert(flat(vs)[k] == b[k - a.len()]);
            }
        }
    }
}

/// The variants of valid intervals always meet `coverage_fits`.
pub proof fn lemma_coverage_fits(vs: Seq<Variant>)
    requires
        variants_valid(vs),
    ensures
        coverage_fits(vs),
{
    lemma_flat_valid(vs);
    lemma_no_overlap(flat(vs));
    if normalize_disjoint(flat(vs)) is Ok {
        let m = normalize_disjoint(flat(vs))->Ok_0;
        lemma_normalize(flat(vs));
        lemma_normalize(m);
        lemma_canonical_gaps_fit(normalize(m));
    }
}

/// Merges the values of all variants, refusing overlaps; the error names
/// the first variant that holds the refused value.
pub fn merge_values(variants: &[Variant]) -> (r: Result<Values, Error>)
    ensures
        match normalize_disjoint(flat(variants@)) {
            Ok(m) => r matches Ok(v) && v@ == m,
            Err(c) => r matches Err(e) && is_overlap_error(variants@, c, e),
        },
{
    let all = flatten(variants);
    match Values::no_overlap(all) {
        Ok(v) => Ok(v),
        Err(cause) => {
            proof {
                lemma_no_overlap_err_in(flat(variants@));
                lemma_flat_contains(variants@, cause);
            }
            let mut i: usize = 0;
            while i < variants.len()
                invariant
                    i <= variants@.len(),
                    normalize_disjoint(flat(variants@)) == Err::<Seq<Value>, Value>(cause),
                    forall|k: int| 0 <= k < i ==> !(#[trigger] variants@[k]).values@.contains(cause),
                    exists|k: int| 0 <= k < variants@.len() && (#[trigger] variants@[k]).values@.contains(cause),
                decreases variants.len() - i,
            {
                let values = variants[i].values.iter();
                let mut j: usize = 0;
                while j < values.len()
                    invariant
                        i < variants@.len(),
                        j <= values@.len(),
                        values@ == variants@[i as int].values@,
                        forall|k: int| 0 <= k < j ==> (#[trigger] values@[k]) != cause,
                        normalize_disjoint(flat(variants@)) == Err::<Seq<Value>, Value>(cause),
                        forall|k: int| 0 <= k < i ==> !(#[trigger] variants@[k]).values@.contains(cause),
                    decreases values.len() - j,
                {
                    if values[j] == cause {
                        proof {
                            assert(variants@[i as int].values@.contains(cause));
                        }
                        return Err(Error::Overlap { variant: i, value: cause });
                    }
                    j = j + 1;
                }
                i = i + 1;
            }
            // every position was searched, and one holds the value
            proof {
                let k = choose|k: int| 0 <= k < variants@.len() && (#[trigger] variants@[k]).values@.contains(cause);
                assert(false);
            }
            Err(Error::Internal)
        },
    }
}

/// Refuses variants that overlap or that leave some value of `0..=max` uncovered.
pub fn check_coverage(variants: &[Variant], max: u128) -> (r: Result<(), Error>)
    requires
        coverage_fits(variants@),
    ensures
        coverage_outcome(variants@, max, r),
{
    let merged = match merge_values(variants) {
        Ok(m) => m,
        Err(e) => return Err(e),
    };
    match merged.bounds() {
        Ok(bounds) => {
            if 0 < bounds.start {
                Err(Error::UncoveredBelow { start: bounds.start })
            } else if bounds.end < max {
                Err(Error::UncoveredAbove { start: bounds.end + 1, max })
            } else {
                Ok(())
            }
        },
        Err(gaps) => Err(Error::UncoveredGaps(Values::from(gaps))),
    }
}

impl Enum {
    /// Checks an enum definition.
    #[verifier::loop_isolation(false)]
    pub fn try_from(ast: Data) -> (r: Result<Enum, Error>)
        requires
            ast.size <= 0x8000_0000,
            ast.body matches Body::Enum(vs) ==> coverage_fits(vs@),
        ensures
            r matches Ok(e) ==> (1 <= e.size && variants_valid(e.variants@) ==> e.wf()),
            r matches Ok(e) ==> (variants_valid(e.variants@) && forall|i: int|
                0 <= i < e.variants@.len() ==> !is_default(#[trigger] e.variants@[i])) ==> unambiguous(
                e.variants@,
            ),
            enum_outcome(ast, r),
    {
        let Data { attr, vis, name, size, body } = ast;
        let variants = match body {
            Body::Enum(variants) => variants,
            Body::Struct(_) => return Err(Error::Internal),
        };
        let mask = match Mask::new(size) {
            Some(m) => m,
            None => return Err(Error::EnumTooLarge),
        };
        let max: u128 = if size == 128 {
            u128::MAX
        } else {
            proof {
                vstd::arithmetic::power2::lemma_pow2_pos(size as nat);
            }
            pow2_u128(size) - 1
        };
        if variants.len() == 0 {
            return Err(Error::ZeroVariants);
        }
        let ghost smax: int = if size == 128 { u128::MAX as int } else { max_of(size as nat) };
        assert(max == smax as u128);
        match check_range(variants.as_slice(), max) {
            Ok(()) => {},
            Err(e) => return Err(e),
        }
        let mut has_default = false;
        let ghost mut first: int = -1;
        let mut i: usize = 0;
        while i < variants.len()
            invariant
                i <= variants@.len(),
                has_default <==> (exists|k: int| 0 <= k < i && is_default(#[trigger] variants@[k])),
                has_default ==> 0 <= first < i && is_default(variants@[first]) && forall|k: int|
                    0 <= k < i && k != first ==> !is_default(#[trigger] variants@[k]),
                !has_default ==> forall|k: int| 0 <= k < i ==> !is_default(#[trigger] variants@[k]),
            decreases variants.len() - i,
        {
            if variants[i].values.is_empty() {
                if has_default {
                    proof {
                        assert(is_default(variants@[first]) && is_default(variants@[i as int]));
                    }
                    return Err(Error::ConflictDefault { variant: i });
                }
                has_default = true;
                proof {
                    first = i as int;
                }
            }
            i = i + 1;
        }
        if !has_default {
            match check_coverage(variants.as_slice(), max) {
                Ok(()) => {},
                Err(e) => return Err(e),
            }
        }
        let e = Enum { attr, vis, name, size, mask, variants };
        proof {
            if 1 <= e.size && variants_valid(e.variants@) {
                assert forall|x: int| 0 <= x < pow2(e.size as nat) implies #[trigger] has_arm(e.variants@, x) by {
                    if has_default {
                        assert(arm_matches(e.variants@[first], x));
                    } else {
                        if size == 128 {
                            crate::num::lemma_pow2_127();
                            vstd::arithmetic::power2::lemma_pow2_unfold(128);
                        }
                        assert(x <= max);
                        lemma_coverage_total(e.variants@, max, x);
                        let i = choose|i: int| 0 <= i < e.variants@.len() && covers((#[trigger] e.variants@[i]).values@, x);
                        assert(arm_matches(e.variants@[i], x));
                    }
                }
            }
            if variants_valid(e.variants@) && !has_default {
                lemma_coverage_unambiguous(e.variants@, max);
            }
        }
        Ok(e)
    }
}


/// No value lies in the patterns of two different variants.
pub open spec fn unambiguous(vs: Seq<Variant>) -> bool {
    forall|i: int, j: int, x: int|
        0 <= i < vs.len() && 0 <= j < vs.len() && i != j ==> !(#[trigger] covers(vs[i].values@, x)
            && #[trigger] covers(vs[j].values@, x))
}

/// Flattening distributes over concatenation.
proof fn lemma_flat_append(a: Seq<Variant>, b: Seq<Variant>)
    ensures
        flat(a + b) == flat(a) + flat(b),
    decreases b.len(),
{
    if b.len() == 0 {
        assert(a + b == a);
    } else {
        lemma_flat_append(a, b.drop_last());
        assert((a + b).drop_last() == a + b.drop_last());
        assert((a + b).last() == b.last());
    }
}

/// Where value `k` of variant `i` lies in the flattened list.
proof fn lemma_flat_position(vs: Seq<Variant>, i: int, k: int) -> (p: int)
    requires
        0 <= i < vs.len(),
        0 <= k < vs[i].values@.len(),
    ensures
        p == flat(vs.take(i)).len() + k,
        0 <= p < flat(vs).len(),
        flat(vs)[p] == vs[i].values@[k],
        p < flat(vs.take(i + 1)).len(),
{
    let a = vs.take(i);
    let b = vs.skip(i);
    assert(vs == a + b);
    lemma_flat_append(a, b);
    let c = seq![vs[i]];
    let d = vs.skip(i + 1);
    assert(b == c + d);
    lemma_flat_append(c, d);
    assert(c.drop_last() == Seq::<Variant>::empty());
    assert(flat(Seq::<Variant>::empty()) == Seq::<Value>::empty());
    assert(flat(c) == flat(c.drop_last()) + vs[i].values@);
    assert(flat(c) == vs[i].values@);
    assert(vs.take(i + 1) == a + c);
    lemma_flat_append(a, c);
    flat(a).len() + k
}

/// The flattened prefixes grow with the prefix.
proof fn lemma_flat_take_mono(vs: Seq<Variant>, i: int, j: int)
    requires
        0 <= i <= j <= vs.len(),
    ensures
        flat(vs.take(i)).len() <= flat(vs.take(j)).len(),
{
    assert(vs.take(j) == vs.take(i) + vs.subrange(i, j));
    lemma_flat_append(vs.take(i), vs.subrange(i, j));
}

/// With no default, passing the coverage check means that every value up
/// to `max` lies in some variant's pattern.
pub proof fn lemma_coverage_total(vs: Seq<Variant>, max: u128, x: int)
    requires
        variants_valid(vs),
        vs.len() > 0,
        forall|i: int| 0 <= i < vs.len() ==> !is_default(#[trigger] vs[i]),
        coverage_outcome(vs, max, Ok(())),
        0 <= x <= max,
    ensures
        exists|i: int| 0 <= i < vs.len() && covers((#[trigger] vs[i]).values@, x),
{
    let f = flat(vs);
    lemma_flat_valid(vs);
    lemma_no_overlap(f);
    lemma_normalize(f);
    let m = normalize_disjoint(f)->Ok_0;
    assert(m == normalize(f));
    assert(!is_default(vs[0]));
    let y = vs[0].values@[0].start as int;
    assert(all_valid(vs[0].values@));
    assert(vs[0].values@[0].is_valid());
    assert(vs[0].values@[0].contains(y));
    assert(covers(vs[0].values@, y));
    lemma_flat_covers(vs, y);
    assert(covers(m, y));
    lemma_normalize(m);
    let b = bounds_spec(m)->Ok_0;
    assert(b.start == 0 && b.end >= max);
    if m.len() == 1 {
        assert(m[0].contains(x));
    } else {
        assert(normalize(m)[0].contains(x));
        assert(covers(normalize(m), x));
    }
    assert(covers(m, x));
    lemma_flat_covers(vs, x);
}

/// Passing the overlap check means that no value lies in two variants.
pub proof fn lemma_coverage_unambiguous(vs: Seq<Variant>, max: u128)
    requires
        variants_valid(vs),
        coverage_outcome(vs, max, Ok(())),
    ensures
        unambiguous(vs),
{
    let f = flat(vs);
    lemma_flat_valid(vs);
    lemma_no_overlap(f);
    assert forall|i: int, j: int, x: int|
        0 <= i < vs.len() && 0 <= j < vs.len() && i != j implies !(#[trigger] covers(vs[i].values@, x)
        && #[trigger] covers(vs[j].values@, x)) by {
        if covers(vs[i].values@, x) && covers(vs[j].values@, x) {
            let a = choose|a: int| 0 <= a < vs[i].values@.len() && #[trigger] vs[i].values@[a].contains(x);
            let b = choose|b: int| 0 <= b < vs[j].values@.len() && #[trigger] vs[j].values@[b].contains(x);
            let p = lemma_flat_position(vs, i, a);
            let q = lemma_flat_position(vs, j, b);
            if i < j {
                lemma_flat_take_mono(vs, i + 1, j);
            } else {
                lemma_flat_take_mono(vs, j + 1, i);
            }
            assert(p != q);
            crate::ast::value::lemma_overlap_iff_common(f[p], f[q]);
            assert(f[p].spec_overlap(f[q]));
        }
    }
}

} // verus!
