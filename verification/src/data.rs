//! Definitions of the offset syntax: a struct of `byte.bit name: uN` fields
//! or an enum of `value name` variants, sized `byte.bit`.

use vstd::prelude::*;
use vstd::arithmetic::power2::pow2;
use crate::cg::be_value;
use crate::cg::strct::write_be;
use crate::field::{Field, FieldError, WrittenType, type_spec, offset_lt};
use crate::lit::copy_range;
use crate::num::{log2_floor, lemma_log2_floor_pow2, ceil_div, clog2, div_ceil8_usize, next_pow2_usize, pow2_u128, next_pow2};
use crate::cg::enm::masked;
use crate::off::Offset;
use crate::cg::read_be;

verus! {

/// An enum variant: its value, or none for the default.
#[derive(Debug)]
pub struct Variant {
    pub name: String,
    pub value: Option<u128>,
}

/// A field as written.
#[derive(Debug)]
pub struct RawField {
    pub offset: Offset,
    pub name: String,
    pub ty: WrittenType,
}

/// A body as written.
#[derive(Debug)]
pub enum RawBody {
    Struct(Vec<RawField>),
    Enum(Vec<Variant>),
}

/// A checked body; an enum is sealed when it has no default variant.
#[derive(Debug)]
pub enum Body {
    Struct(Vec<Field>),
    Enum { variants: Vec<Variant>, sealed: bool },
}

/// A checked definition.
#[derive(Debug)]
pub struct Data {
    pub name: String,
    pub size: Offset,
    pub body: Body,
}

/// Why a definition is refused.
#[derive(Debug, Copy, Clone, PartialEq, Eq, Structural)]
pub enum DataError {
    /// The enum is wider than 128 bits.
    EnumTooLarge,
    /// The enum has no variant.
    ZeroVariants,
    /// The variant's value does not fit the enum's width.
    ValueExceeds { variant: usize },
    /// The variant is a second default.
    DuplicateDefault { variant: usize },
    /// More variants than the width can tell apart.
    Overstuffed,
    /// Without a default, the variants must number exactly `2^bits`.
    Uncovered,
    /// The field is refused.
    Field { field: usize, error: FieldError },
}

/// `n` is a power of two.
pub open spec fn is_pow2(n: nat) -> bool {
    n >= 1 && pow2(log2_floor(n)) == n
}

/// Variant `i` fails its check: its value is above `max`, or it is a
/// second default.
pub open spec fn variant_fails(vs: Seq<Variant>, i: int, max: int) -> bool {
    match vs[i].value {
        Some(v) => v > max,
        None => exists|k: int| 0 <= k < i && (#[trigger] vs[k]).value is None,
    }
}

/// The largest value of `req` bits (for `req <= 128`).
pub open spec fn enum_max(req: int) -> int {
    if req == 128 { u128::MAX as int } else { pow2(req as nat) - 1 }
}

/// What `Data::parse` yields for an enum of `req` bits.
pub open spec fn enum_spec(vs: Seq<Variant>, req: int) -> Result<bool, DataError> {
    let max = enum_max(req);
    if req > 128 {
        Err(DataError::EnumTooLarge)
    } else if vs.len() == 0 {
        Err(DataError::ZeroVariants)
    } else if exists|i: int| 0 <= i < vs.len() && variant_fails(vs, i, max) {
        let i = choose|i: int|
            0 <= i < vs.len() && variant_fails(vs, i, max) && forall|k: int|
                0 <= k < i ==> !variant_fails(vs, k, max);
        if vs[i].value is Some {
            Err(DataError::ValueExceeds { variant: i as usize })
        } else {
            Err(DataError::DuplicateDefault { variant: i as usize })
        }
    } else {
        let cur = log2_floor(vs.len());
        let has_default = exists|k: int| 0 <= k < vs.len() && (#[trigger] vs[k]).value is None;
        if cur > req || (!is_pow2(vs.len()) && cur == req) {
            Err(DataError::Overstuffed)
        } else if !has_default && req != cur {
            Err(DataError::Uncovered)
        } else {
            Ok(!has_default)
        }
    }
}

/// `floor(log2(n))` and whether `n` is a power of two.
fn log2_floor_exec(n: usize) -> (r: (u32, bool))
    requires
        n >= 1,
    ensures
        r.0 == log2_floor(n as nat),
        r.1 == is_pow2(n as nat),
{
    let mut m = n;
    let mut k: u32 = 0;
    let mut exact = true;
    proof {
        lemma_log2_floor_pow2(n as nat);
        if log2_floor(n as nat) >= 64 {
            if log2_floor(n as nat) > 64 {
                vstd::arithmetic::power2::lemma_pow2_strictly_increases(64, log2_floor(n as nat));
            }
            vstd::arithmetic::power2::lemma2_to64_rest();
        }
    }
    while m > 1
        invariant
            1 <= m <= n,
            log2_floor(n as nat) < 64,
            log2_floor(n as nat) == log2_floor(m as nat) + k,
            is_pow2(n as nat) == (exact && is_pow2(m as nat)),
        decreases m,
    {
        proof {
            lemma_pow2_halving(m as nat);
        }
        if m % 2 == 1 {
            exact = false;
        }
        m = m / 2;
        k = k + 1;
    }
    proof {
        vstd::arithmetic::power2::lemma2_to64();
        assert(is_pow2(1));
    }
    (k, exact)
}

/// Halving keeps a power of two, and odd numbers above one are none.
proof fn lemma_pow2_halving(m: nat)
    requires
        m > 1,
    ensures
        log2_floor(m) == log2_floor(m / 2) + 1,
        is_pow2(m) == (m % 2 == 0 && is_pow2(m / 2)),
{
    vstd::arithmetic::power2::lemma_pow2_unfold(log2_floor(m));
    if m % 2 == 1 && is_pow2(m) {
        assert(pow2(log2_floor(m)) == 2 * pow2(log2_floor(m / 2)));
        assert(false);
    }
}

impl Data {
    /// Checks a definition. For an enum: at most 128 bits, at least one
    /// variant, every value within the width, at most one default, no more
    /// variants than the width can tell apart, and, without a default,
    /// exactly `2^bits` variants. For a struct: each field in order.
    #[verifier::loop_isolation(false)]
    pub fn parse(name: String, size: Offset, body: RawBody) -> (r: Result<Data, DataError>)
        requires
            size.spec_bits() <= usize::MAX,
            body matches RawBody::Struct(fs) ==> forall|i: int|
                0 <= i < fs@.len() ==> (#[trigger] fs@[i]).offset.spec_bits() <= usize::MAX,
        ensures
            body matches RawBody::Enum(vs) ==> match enum_spec(vs@, size.spec_bits()) {
                Ok(sealed) => (r matches Ok(d) && d.name == name && d.size == size && (d.body matches Body::Enum {
                    variants,
                    sealed: s,
                } && variants@ == vs@ && s == sealed)),
                Err(e) => r == Err::<Data, DataError>(e),
            },
            body matches RawBody::Struct(fs) ==> match r {
                Ok(d) => d.name == name && d.size == size && (d.body matches Body::Struct(out) && out@.len()
                    == fs@.len() && forall|i: int|
                    0 <= i < fs@.len() ==> offset_lt(fs@[i].offset, size) && type_spec(
                        fs@[i].ty,
                        fs@[i].offset.spec_bits(),
                        size.spec_bits(),
                    ) == Ok::<crate::field::Type, FieldError>((#[trigger] out@[i]).ty) && out@[i].offset
                        == fs@[i].offset && out@[i].name == fs@[i].name),
                Err(DataError::Field { field, error }) => field < fs@.len() && (forall|k: int|
                    0 <= k < field ==> offset_lt(fs@[k].offset, size) && type_spec(
                        fs@[k].ty,
                        fs@[k].offset.spec_bits(),
                        size.spec_bits(),
                    ) is Ok) && (if offset_lt(fs@[field as int].offset, size) {
                    type_spec(fs@[field as int].ty, fs@[field as int].offset.spec_bits(), size.spec_bits())
                        == Err::<crate::field::Type, FieldError>(error)
                } else {
                    error == FieldError::OffsetExceeds
                }),
                Err(_) => false,
            },
    {
        match body {
            RawBody::Enum(variants) => {
                let req = size.bits();
                if req > 128 {
                    return Err(DataError::EnumTooLarge);
                }
                if variants.len() == 0 {
                    return Err(DataError::ZeroVariants);
                }
                let max: u128 = if req == 128 {
                    u128::MAX
                } else {
                    proof {
                        vstd::arithmetic::power2::lemma_pow2_pos(req as nat);
                    }
                    pow2_u128(req as u32) - 1
                };
                let ghost smax: int = enum_max(req as int);
                let mut default = false;
                let mut i: usize = 0;
                while i < variants.len()
                    invariant
                        i <= variants@.len(),
                        max == smax,
                        forall|k: int| 0 <= k < i ==> !variant_fails(variants@, k, smax),
                        default == exists|k: int| 0 <= k < i && (#[trigger] variants@[k]).value is None,
                    decreases variants.len() - i,
                {
                    match variants[i].value {
                        Some(val) => {
                            if val > max {
                                proof {
                                    assert(variant_fails(variants@, i as int, smax));
                                    lemma_first_fail(variants@, i as int, smax);
                                }
                                return Err(DataError::ValueExceeds { variant: i });
                            }
                        },
                        None => {
                            if default {
                                proof {
                                    assert(variant_fails(variants@, i as int, smax));
                                    lemma_first_fail(variants@, i as int, smax);
                                }
                                return Err(DataError::DuplicateDefault { variant: i });
                            }
                            default = true;
                        },
                    }
                    i = i + 1;
                }
                let (cur, pow) = log2_floor_exec(variants.len());
                if (cur as usize) > req || (!pow && cur as usize == req) {
                    return Err(DataError::Overstuffed);
                }
                let sealed = if !default {
                    if req != cur as usize {
                        return Err(DataError::Uncovered);
                    }
                    true
                } else {
                    false
                };
                Ok(Data { name, size, body: Body::Enum { variants, sealed } })
            },
            RawBody::Struct(mut raw) => {
                let ghost fs = raw@;
                let mut fields: Vec<Field> = Vec::new();
                let mut i: usize = 0;
                assert(fs.len() == raw.len());
                while raw.len() > 0
                    invariant
                        fs.len() <= usize::MAX,
                        i + raw@.len() == fs.len(),
                        raw@ == fs.skip(i as int),
                        fields@.len() == i,
                        size.spec_bits() <= usize::MAX,
                        forall|k: int| 0 <= k < fs.len() ==> (#[trigger] fs[k]).offset.spec_bits() <= usize::MAX,
                        forall|k: int|
                            0 <= k < i ==> offset_lt(fs[k].offset, size) && type_spec(
                                fs[k].ty,
                                fs[k].offset.spec_bits(),
                                size.spec_bits(),
                            ) == Ok::<crate::field::Type, FieldError>((#[trigger] fields@[k]).ty) && fields@[k].offset
                                == fs[k].offset && fields@[k].name == fs[k].name,
                    decreases raw.len(),
                {
                    let f = raw.remove(0);
                    proof {
                        assert(f == fs[i as int]);
                        assert(raw@ == fs.skip(i + 1));
                    }
                    match Field::parse(f.offset, f.name, f.ty, size) {
                        Ok(field) => fields.push(field),
                        Err(error) => {
                            proof {
                                assert forall|k: int| 0 <= k < i implies offset_lt(fs[k].offset, size) && type_spec(
                                    fs[k].ty,
                                    fs[k].offset.spec_bits(),
                                    size.spec_bits(),
                                ) is Ok by {
                                    assert(type_spec(fs[k].ty, fs[k].offset.spec_bits(), size.spec_bits())
                                        == Ok::<crate::field::Type, FieldError>(fields@[k].ty));
                                }
                            }
                            return Err(DataError::Field { field: i, error });
                        },
                    }
                    i = i + 1;
                }
                Ok(Data { name, size, body: Body::Struct(fields) })
            },
        }
    }
}

/// The first failing variant is the one `enum_spec` reports.
proof fn lemma_first_fail(vs: Seq<Variant>, i: int, max: int)
    requires
        0 <= i < vs.len(),
        variant_fails(vs, i, max),
        forall|k: int| 0 <= k < i ==> !variant_fails(vs, k, max),
    ensures
        (choose|j: int|
            0 <= j < vs.len() && variant_fails(vs, j, max) && forall|k: int|
                0 <= k < j ==> !variant_fails(vs, k, max)) == i,
{
    let j = choose|j: int|
        0 <= j < vs.len() && variant_fails(vs, j, max) && forall|k: int| 0 <= k < j ==> !variant_fails(vs, k, max);
    assert(0 <= j < vs.len() && variant_fails(vs, j, max));
    if j < i {
        assert(!variant_fails(vs, j, max));
    } else if j > i {
        assert(!variant_fails(vs, i, max));
    }
}

/// The item that a definition declares.
#[derive(Debug, Copy, Clone, PartialEq, Eq, Structural)]
pub enum Decl {
    /// An enum whose `repr` is this many bits wide.
    Enum { repr_bits: usize },
    /// A packed struct of this many bytes.
    Struct { bytes: usize },
}

/// The `Bits` impl of a definition: `BITS`, and the width of `Mask`
/// (none where `Mask` is `()`).
#[derive(Debug, Copy, Clone, PartialEq, Eq, Structural)]
pub struct BitsImpl {
    pub bits: usize,
    pub mask_bits: Option<usize>,
}

/// An arm of the `__from_mask` that `stub_gen_mask` writes for an enum.
#[derive(Debug, Copy, Clone, PartialEq, Eq, Structural)]
pub enum MaskArm {
    /// The mask `value` gives variant `variant`.
    Value { value: u128, variant: usize },
    /// Any mask gives the default variant `variant`.
    Default { variant: usize },
    /// The last arm of a sealed enum, which no mask reaches.
    Unreachable,
}

/// The arm of variant `v`, at position `i`.
pub open spec fn arm_of(v: Variant, i: int) -> MaskArm {
    match v.value {
        Some(x) => MaskArm::Value { value: x, variant: i as usize },
        None => MaskArm::Default { variant: i as usize },
    }
}

/// The arm of variant `v` in `__from_mask` takes `x`: its value, or any
/// value for the default.
pub open spec fn arm_takes(v: Variant, x: int) -> bool {
    match v.value {
        Some(val) => val == x,
        None => true,
    }
}

/// Some arm of `vs` takes `x`.
pub open spec fn taken(vs: Seq<Variant>, x: int) -> bool {
    exists|i: int| 0 <= i < vs.len() && arm_takes(#[trigger] vs[i], x)
}

/// Every value of `bits` bits is taken by some arm.
pub open spec fn all_taken(vs: Seq<Variant>, bits: nat) -> bool {
    forall|x: int| 0 <= x < pow2(bits) ==> #[trigger] taken(vs, x)
}

/// `i` is the first arm of `vs` that takes `x`.
pub open spec fn first_arm(vs: Seq<Variant>, x: int, i: int) -> bool {
    &&& 0 <= i < vs.len()
    &&& arm_takes(vs[i], x)
    &&& forall|k: int| 0 <= k < i ==> !arm_takes(#[trigger] vs[k], x)
}

/// No two variants carry the same value.
pub open spec fn distinct_values(vs: Seq<Variant>) -> bool {
    forall|i: int, j: int|
        0 <= i < j < vs.len() && (#[trigger] vs[i]).value is Some && (#[trigger] vs[j]).value is Some
            ==> vs[i].value != vs[j].value
}

impl Data {
    /// The bytes of the definition: its bits rounded up.
    pub open spec fn byte_len(self) -> int {
        ceil_div(self.size.spec_bits(), 8)
    }

    /// The bytes of its mask: the bytes rounded up to a power of two.
    pub open spec fn mask_byte_len(self) -> int {
        next_pow2(self.byte_len() as nat) as int
    }

    /// `stub_decl`: an enum whose `repr` is as wide as its mask, or a packed
    /// struct of its bytes.
    pub fn stub_decl(&self) -> (r: Decl)
        requires
            self.size.spec_bits() <= usize::MAX,
            self.body is Enum ==> 8 * self.mask_byte_len() <= usize::MAX,
        ensures
            self.body is Enum ==> r == (Decl::Enum { repr_bits: (8 * self.mask_byte_len()) as usize }),
            self.body is Struct ==> r == (Decl::Struct { bytes: self.byte_len() as usize }),
    {
        let bytes = div_ceil8_usize(self.size.bits());
        match &self.body {
            Body::Enum { .. } => {
                proof {
                    crate::num::lemma_clog2_bounds(bytes as nat);
                }
                Decl::Enum { repr_bits: 8 * next_pow2_usize(bytes) }
            },
            Body::Struct(_) => Decl::Struct { bytes },
        }
    }

    /// `stub_gen_mask`'s `Bits` impl: `BITS` is the size; the mask is the
    /// bytes rounded up to a power of two, and a struct of more than 16
    /// bytes has none.
    pub fn stub_gen_mask(&self) -> (r: BitsImpl)
        requires
            self.size.spec_bits() <= usize::MAX,
            self.body is Enum ==> self.size.spec_bits() <= 128,
        ensures
            r.bits == self.size.spec_bits(),
            r.mask_bits == (if self.body is Enum || self.byte_len() <= 16 {
                Some((8 * self.mask_byte_len()) as usize)
            } else {
                None::<usize>
            }),
    {
        let bits = self.size.bits();
        let bytes = div_ceil8_usize(bits);
        if bytes > 16 {
            proof {
                assert(!(self.body is Enum));
            }
            return BitsImpl { bits, mask_bits: None };
        }
        proof {
            crate::num::lemma_clog2_bounds(bytes as nat);
            lemma_next_pow2_le_16(bytes as nat);
        }
        BitsImpl { bits, mask_bits: Some(8 * next_pow2_usize(bytes)) }
    }

    /// The arms of the enum's `__from_mask`: one per variant, in order, then
    /// an unreachable arm exactly when the enum is sealed.
    pub fn stub_gen_arms(&self) -> (r: Vec<MaskArm>)
        requires
            self.body is Enum,
        ensures
            self.body matches Body::Enum { variants, sealed } && r@.len() == variants@.len() + (if sealed {
                1int
            } else {
                0int
            }) && (forall|i: int| 0 <= i < variants@.len() ==> #[trigger] r@[i] == arm_of(variants@[i], i)) && (
            sealed ==> r@.last() == MaskArm::Unreachable),
    {
        let mut out: Vec<MaskArm> = Vec::new();
        match &self.body {
            Body::Enum { variants, sealed } => {
                let mut i: usize = 0;
                while i < variants.len()
                    invariant
                        i <= variants@.len(),
                        out@.len() == i,
                        forall|k: int| 0 <= k < i ==> #[trigger] out@[k] == arm_of(variants@[k], k),
                    decreases variants.len() - i,
                {
                    let arm = match variants[i].value {
                        Some(x) => MaskArm::Value { value: x, variant: i },
                        None => MaskArm::Default { variant: i },
                    };
                    out.push(arm);
                    i = i + 1;
                }
                if *sealed {
                    out.push(MaskArm::Unreachable);
                }
            },
            Body::Struct(_) => {},
        }
        out
    }

    /// `__from_mask` of an enum: the first variant whose arm takes `mask`.
    #[verifier::loop_isolation(false)]
    pub fn variant_of_mask(&self, mask: u128) -> (r: usize)
        requires
            self.body matches Body::Enum { variants, .. } && taken(variants@, mask as int),
        ensures
            self.body matches Body::Enum { variants, .. } && first_arm(variants@, mask as int, r as int),
    {
        match &self.body {
            Body::Enum { variants, .. } => {
                let mut i: usize = 0;
                while i < variants.len()
                    invariant
                        i <= variants@.len(),
                        taken(variants@, mask as int),
                        forall|k: int| 0 <= k < i ==> !arm_takes(#[trigger] variants@[k], mask as int),
                    decreases variants.len() - i,
                {
                    let hit = match variants[i].value {
                        Some(v) => v == mask,
                        None => true,
                    };
                    if hit {
                        proof {
                            assert(arm_takes(variants@[i as int], mask as int));
                        }
                        return i;
                    }
                    i = i + 1;
                }
                proof {
                    let k = choose|k: int| 0 <= k < variants@.len() && arm_takes(#[trigger] variants@[k], mask as int);
                    assert(!arm_takes(variants@[k], mask as int));
                }
                0
            },
            Body::Struct(_) => 0,
        }
    }

    /// `from_slice` of an enum: `None` when the slice is shorter than the
    /// enum; otherwise its first bytes, big-endian and cut to the enum's bits,
    /// go through `__from_mask`.
    pub fn enum_from_slice(&self, v: &[u8]) -> (r: Option<usize>)
        requires
            1 <= self.size.spec_bits() <= 128,
            self.body matches Body::Enum { variants, .. } && all_taken(variants@, self.size.spec_bits() as nat),
        ensures
            v@.len() < self.byte_len() ==> r is None,
            v@.len() >= self.byte_len() ==> (r matches Some(i) && (self.body matches Body::Enum {
                variants,
                ..
            } && first_arm(
                variants@,
                masked(self.size.spec_bits() as nat, be_value(v@.take(self.byte_len())) as int),
                i as int,
            ))),
    {
        let bits = self.size.bits();
        let bytes = div_ceil8_usize(bits);
        if v.len() < bytes {
            return None;
        }
        let raw = read_be(v, 0, bytes);
        proof {
            assert(v@.subrange(0, bytes as int) == v@.take(bytes as int));
            vstd::arithmetic::power2::lemma_pow2_pos(bits as nat);
        }
        let mask: u128 = if bits == 128 {
            proof {
                crate::cg::lemma_be_value_bound(v@.take(16));
                crate::num::lemma_pow2_127();
                vstd::arithmetic::power2::lemma_pow2_unfold(128);
                vstd::arithmetic::div_mod::lemma_small_mod(raw as nat, pow2(128));
            }
            raw
        } else {
            raw % pow2_u128(bits as u32)
        };
        proof {
            assert(0 <= mask < pow2(bits as nat));
            assert(taken(self.body->variants@, mask as int));
        }
        Some(self.variant_of_mask(mask))
    }

    /// `from_array` of an enum: `from_slice` of exactly the enum's bytes.
    pub fn enum_from_array(&self, v: &[u8]) -> (r: usize)
        requires
            1 <= self.size.spec_bits() <= 128,
            self.body matches Body::Enum { variants, .. } && all_taken(variants@, self.size.spec_bits() as nat),
            v@.len() == self.byte_len(),
        ensures
            self.body matches Body::Enum { variants, .. } && first_arm(
                variants@,
                masked(self.size.spec_bits() as nat, be_value(v@) as int),
                r as int,
            ),
    {
        proof {
            assert(v@.take(self.byte_len()) == v@);
        }
        match self.enum_from_slice(v) {
            Some(i) => i,
            None => 0,
        }
    }

    /// `__from_mask` of a struct: its bytes are the low bytes of `mask`,
    /// most significant first; it exists while the struct has a mask.
    pub fn struct_from_mask(&self, mask: u128) -> (r: Vec<u8>)
        requires
            self.body is Struct,
            self.size.spec_bits() <= usize::MAX,
            self.byte_len() <= 16,
        ensures
            r@.len() == self.byte_len(),
            be_value(r@) == mask as int % pow2(8 * self.byte_len() as nat) as int,
    {
        let bytes = div_ceil8_usize(self.size.bits());
        write_be(mask, bytes)
    }

    /// `from_array` of a struct: the struct of exactly these bytes.
    pub fn struct_from_array(&self, a: &[u8]) -> (r: Vec<u8>)
        requires
            self.body is Struct,
            self.size.spec_bits() <= usize::MAX,
            a@.len() == self.byte_len(),
        ensures
            r@ == a@,
    {
        let r = copy_range(a, 0, a.len());
        proof {
            assert(a@.subrange(0, a@.len() as int) =~= a@);
        }
        r
    }

    /// `from_slice` of a struct: its first bytes, or `None` when the slice is
    /// shorter than the struct.
    pub fn struct_from_slice(&self, v: &[u8]) -> (r: Option<Vec<u8>>)
        requires
            self.body is Struct,
            self.size.spec_bits() <= usize::MAX,
        ensures
            v@.len() < self.byte_len() ==> r is None,
            v@.len() >= self.byte_len() ==> (r matches Some(b) && b@ == v@.take(self.byte_len())),
    {
        let bytes = div_ceil8_usize(self.size.bits());
        if v.len() < bytes {
            return None;
        }
        proof {
            assert(v@.subrange(0, bytes as int) == v@.take(bytes as int));
        }
        Some(copy_range(v, 0, bytes))
    }

    /// `stub_fields`' compile-time checks: for each field, the widest type
    /// that may stand there (none for `uN` fields); an enum has none.
    pub fn stub_fields(&self) -> (r: Vec<Option<usize>>)
        requires
            self.size.spec_bits() <= usize::MAX,
            self.body matches Body::Struct(fs) ==> forall|i: int|
                0 <= i < fs@.len() ==> (#[trigger] fs@[i]).offset.spec_bits() <= self.size.spec_bits(),
        ensures
            self.body is Enum ==> r@.len() == 0,
            self.body matches Body::Struct(fs) ==> (r@.len() == fs@.len() && forall|i: int|
                0 <= i < fs@.len() ==> #[trigger] r@[i] == (if fs@[i].ty is Literal {
                    None::<usize>
                } else {
                    Some((self.size.spec_bits() - fs@[i].offset.spec_bits()) as usize)
                })),
    {
        let mut out: Vec<Option<usize>> = Vec::new();
        match &self.body {
            Body::Struct(fields) => {
                let mut i: usize = 0;
                while i < fields.len()
                    invariant
                        i <= fields@.len(),
                        out@.len() == i,
                        self.size.spec_bits() <= usize::MAX,
                        forall|k: int| 0 <= k < fields@.len() ==> (#[trigger] fields@[k]).offset.spec_bits() <= self.size.spec_bits(),
                        forall|k: int| 0 <= k < i ==> #[trigger] out@[k] == (if fields@[k].ty is Literal {
                            None::<usize>
                        } else {
                            Some((self.size.spec_bits() - fields@[k].offset.spec_bits()) as usize)
                        }),
                    decreases fields.len() - i,
                {
                    out.push(fields[i].max_nested_bits(self.size));
                    i = i + 1;
                }
            },
            Body::Enum { .. } => {},
        }
        out
    }
}

/// Bytes up to 16 round up to a power of two of at most 16.
proof fn lemma_next_pow2_le_16(n: nat)
    requires
        n <= 16,
    ensures
        next_pow2(n) <= 16,
{
    vstd::arithmetic::power2::lemma2_to64();
    crate::num::lemma_clog2_bounds(n);
    if clog2(n) > 4 {
        vstd::arithmetic::power2::lemma_pow2_strictly_increases(4, (clog2(n) - 1) as nat);
    }
}

/// An enum that `Data::parse` accepts has an arm for every value of its
/// width: through its default, or, when it is sealed, because its
/// `2^bits` values are pairwise distinct.
pub proof fn lemma_parsed_enum_total(vs: Seq<Variant>, req: int)
    requires
        enum_spec(vs, req) is Ok,
        enum_spec(vs, req) == Ok::<bool, DataError>(true) ==> distinct_values(vs),
    ensures
        all_taken(vs, req as nat),
{
    if enum_spec(vs, req) == Ok::<bool, DataError>(false) {
        let d = choose|k: int| 0 <= k < vs.len() && (#[trigger] vs[k]).value is None;
        assert forall|x: int| 0 <= x < pow2(req as nat) implies #[trigger] taken(vs, x) by {
            assert(arm_takes(vs[d], x));
        }
    } else {
        lemma_sealed_total(vs, req);
    }
}

/// A sealed enum: `2^req` variants, each with a distinct value of `req` bits.
proof fn lemma_sealed_total(vs: Seq<Variant>, req: int)
    requires
        enum_spec(vs, req) == Ok::<bool, DataError>(true),
        distinct_values(vs),
    ensures
        all_taken(vs, req as nat),
{
    let n = vs.len();
    let max = enum_max(req);
    assert(!exists|k: int| 0 <= k < n && (#[trigger] vs[k]).value is None);
    assert(log2_floor(n) == req);
    assert(is_pow2(n));
    assert(n == pow2(req as nat));
    if req == 128 {
        crate::num::lemma_pow2_127();
        vstd::arithmetic::power2::lemma_pow2_unfold(128);
    }
    vstd::arithmetic::power2::lemma_pow2_pos(req as nat);
    assert(max == pow2(req as nat) - 1);
    let vals = Seq::new(n, |i: int| vs[i].value->0 as int);
    assert forall|i: int| 0 <= i < n implies (#[trigger] vs[i]).value is Some && vs[i].value->0 <= max by {
        assert(!variant_fails(vs, i, max));
    }
    assert(vals.no_duplicates()) by {
        assert forall|i: int, j: int| 0 <= i < n && 0 <= j < n && i != j implies vals[i] != vals[j] by {
            if i < j {
                assert(vs[i].value != vs[j].value);
            } else {
                assert(vs[j].value != vs[i].value);
            }
        }
    }
    vals.unique_seq_to_set();
    let range = vstd::set_lib::set_int_range(0, pow2(req as nat) as int);
    vstd::set_lib::lemma_int_range(0, pow2(req as nat) as int);
    assert(vals.to_set().subset_of(range)) by {
        assert forall|x: int| vals.to_set().contains(x) implies range.contains(x) by {
            assert(vals.contains(x));
            let i = choose|i: int| 0 <= i < vals.len() && vals[i] == x;
            assert(vs[i].value is Some);
        }
    }
    vals.lemma_cardinality_of_set();
    vstd::set_lib::lemma_subset_equality(vals.to_set(), range);
    assert forall|x: int| 0 <= x < pow2(req as nat) implies #[trigger] taken(vs, x) by {
        assert(range.contains(x));
        assert(vals.to_set().contains(x));
        assert(vals.contains(x));
        let i = choose|i: int| 0 <= i < vals.len() && vals[i] == x;
        assert(vs[i].value is Some);
        assert(arm_takes(vs[i], x));
    }
}

} // verus!
