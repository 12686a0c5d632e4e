//! Fields of the offset syntax (`byte.bit name: uN` or `byte.bit name: Type`),
//! and what their getters read.

use vstd::prelude::*;
use vstd::arithmetic::power2::pow2;
use crate::cg::{be_value, field_bits, read_be, lemma_window, lemma_be_value_bound};
use crate::cg::layout::FieldValue;
use crate::hir::mask::{mask_bits, lemma_mask_bits, lemma_mask_bits_le_128};
use crate::lit::{repr_spec, size_of};
use crate::num::{ceil_div, div_ceil8_usize, next_pow2_usize, pow2_u128};
use crate::off::Offset;

verus! {

/// A written field type: its single identifier when it is one, and its text.
#[derive(Debug)]
pub struct WrittenType {
    pub ident: Option<Vec<u8>>,
    pub text: String,
}

/// The type of a field.
#[derive(Debug)]
pub enum Type {
    /// `uN`: `bits` bits, read through an integer of `mask_bits` bits.
    Literal { bits: usize, mask_bits: usize },
    /// A written type at a byte boundary.
    Aligned(String),
    /// A written type inside a byte.
    Unaligned(String),
}

/// Why a field is refused.
#[derive(Debug, Copy, Clone, PartialEq, Eq, Structural)]
pub enum FieldError {
    /// The field ends past the struct.
    ExceedsBounds,
    /// The bytes from the struct start to the field's end are more than 16.
    TooLarge,
    /// The field starts at or past the end of the struct.
    OffsetExceeds,
}

/// The width that a written type names, if it is `uN` with `N` a non-zero `usize`.
pub open spec fn literal_bits(t: WrittenType) -> Option<int> {
    match t.ident {
        Some(i) => match repr_spec(i@, usize::MAX as int) {
            Some(v) => if v == 0 { None } else { Some(v) },
            None => None,
        },
        None => None,
    }
}

/// What `Type::parse` yields for a field at `offset` of a struct of `bound` bits.
pub open spec fn type_spec(t: WrittenType, offset: int, bound: int) -> Result<Type, FieldError> {
    match literal_bits(t) {
        Some(bits) => {
            let total = offset + bits;
            if total > bound {
                Err(FieldError::ExceedsBounds)
            } else if mask_bits(total) > 128 {
                Err(FieldError::TooLarge)
            } else {
                Ok(Type::Literal { bits: bits as usize, mask_bits: mask_bits(total) as usize })
            }
        },
        None => if offset % 8 == 0 {
            Ok(Type::Aligned(t.text))
        } else {
            Ok(Type::Unaligned(t.text))
        },
    }
}

/// The type a getter returns.
#[derive(Debug, Clone, PartialEq, Eq)]
pub enum RetTy {
    Bool,
    /// The unsigned integer of this many bits.
    Uint(usize),
    /// The written type.
    Named(String),
}

impl Type {
    /// Settles the type of a field at `offset` of a struct of `bound` bits:
    /// a `uN` type must end inside the struct, within its first 16 bytes.
    pub fn parse(raw: WrittenType, offset: Offset, bound: Offset) -> (r: Result<Type, FieldError>)
        requires
            offset.spec_bits() <= usize::MAX,
            bound.spec_bits() <= usize::MAX,
        ensures
            r == type_spec(raw, offset.spec_bits(), bound.spec_bits()),
    {
        let bits = match &raw.ident {
            Some(i) => match size_of(i.as_slice()) {
                Some(o) => {
                    assert(o.spec_bits() == literal_bits(raw)->Some_0);
                    Some(o.bits())
                },
                None => None,
            },
            None => None,
        };
        match bits {
            Some(bits) => {
                let off = offset.bits();
                let bound = bound.bits();
                if bits > bound || off > bound - bits {
                    return Err(FieldError::ExceedsBounds);
                }
                let total = off + bits;
                let bytes = div_ceil8_usize(total);
                if bytes > 16 {
                    proof {
                        lemma_mask_bits(total as int);
                        crate::hir::mask::lemma_next_pow2_ge(bytes as nat);
                    }
                    return Err(FieldError::TooLarge);
                }
                proof {
                    lemma_mask_bits_le_128(total as int);
                }
                let mask_bits = next_pow2_usize(bytes) * 8;
                Ok(Type::Literal { bits, mask_bits })
            },
            None => {
                if offset.bits() % 8 == 0 {
                    Ok(Type::Aligned(raw.text))
                } else {
                    Ok(Type::Unaligned(raw.text))
                }
            },
        }
    }

    /// The getter's return type: `bool` for one bit, the mask's integer for
    /// other `uN` fields, and the written type otherwise.
    pub fn ret_ty(&self) -> (r: RetTy)
        ensures
            match self {
                Type::Literal { bits, mask_bits } => r == (if *bits == 1 { RetTy::Bool } else { RetTy::Uint(*mask_bits) }),
                Type::Aligned(t) => r == RetTy::Named(*t),
                Type::Unaligned(t) => r == RetTy::Named(*t),
            },
    {
        match self {
            Type::Literal { bits, mask_bits } => if *bits == 1 {
                RetTy::Bool
            } else {
                RetTy::Uint(*mask_bits)
            },
            Type::Aligned(t) => RetTy::Named(t.clone()),
            Type::Unaligned(t) => RetTy::Named(t.clone()),
        }
    }
}

/// The low `size` bits of the bytes `data[start..start + len]`, after
/// dropping the `shr` bits below them.
fn read_bits(data: &[u8], start: usize, len: usize, shr: u32, size: u32) -> (r: u128)
    requires
        len <= 16,
        start + len <= data@.len(),
        shr < 128,
        1 <= size <= 128,
    ensures
        r == (be_value(data@.subrange(start as int, start + len)) as int / pow2(shr as nat) as int) % pow2(
            size as nat,
        ) as int,
{
    let v = read_be(data, start, len);
    proof {
        vstd::arithmetic::power2::lemma_pow2_pos(shr as nat);
        vstd::arithmetic::power2::lemma_pow2_pos(size as nat);
    }
    let v = v / pow2_u128(shr);
    if size == 128 {
        proof {
            crate::num::lemma_pow2_127();
            vstd::arithmetic::power2::lemma_pow2_unfold(128);
            vstd::arithmetic::div_mod::lemma_small_mod(v as nat, pow2(128));
        }
        v
    } else {
        v % pow2_u128(size)
    }
}

impl Type {
    /// The getter of a field of this type at `offset`, run on the struct
    /// bytes `data`; `nested_bits` is the width of a written type.
    pub fn reader(&self, offset: Offset, data: &[u8], nested_bits: u32) -> (r: FieldValue)
        requires
            offset.bit < 8,
            match self {
                Type::Literal { bits, mask_bits } => {
                    &&& 1 <= *bits
                    &&& *mask_bits == crate::hir::mask::mask_bits(offset.spec_bits() + *bits)
                    &&& *mask_bits <= 128
                    &&& offset.byte + ceil_div(offset.bit + *bits, 8) <= data@.len()
                },
                Type::Aligned(_) => {
                    &&& offset.bit == 0
                    &&& 1 <= nested_bits
                    &&& (nested_bits % 8 != 0 ==> ceil_div(nested_bits as int, 8) <= 16)
                    &&& offset.byte + ceil_div(nested_bits as int, 8) <= data@.len()
                },
                Type::Unaligned(_) => {
                    &&& 1 <= nested_bits
                    &&& ceil_div(offset.bit + nested_bits, 8) <= 16
                    &&& offset.byte + ceil_div(offset.bit + nested_bits, 8) <= data@.len()
                },
            },
        ensures
            match self {
                Type::Literal { bits, mask_bits } => if *bits == 1 {
                    r == FieldValue::Bool(field_bits(data@, offset.spec_bits(), 1) == 1)
                } else {
                    r == FieldValue::Uint(field_bits(data@, offset.spec_bits(), *bits as int) as u128)
                },
                Type::Aligned(_) => if nested_bits % 8 == 0 {
                    r matches FieldValue::Bytes(b) && b@ == data@.subrange(
                        offset.byte as int,
                        offset.byte + nested_bits / 8,
                    ) && be_value(b@) == field_bits(data@, offset.spec_bits(), nested_bits as int)
                } else {
                    r == FieldValue::Mask(field_bits(data@, offset.spec_bits(), nested_bits as int) as u128)
                },
                Type::Unaligned(_) => r == FieldValue::Mask(
                    field_bits(data@, offset.spec_bits(), nested_bits as int) as u128,
                ),
            },
    {
        match self {
            Type::Literal { bits, mask_bits } => {
                proof {
                    lemma_mask_bits(offset.spec_bits() + *bits);
                }
                let off_bytes = offset.byte;
                let upper = offset.bit + *bits;
                let read_bytes = div_ceil8_usize(upper);
                let lpad = (read_bytes * 8 - upper) as u32;
                proof {
                    lemma_window(data@, off_bytes as int, read_bytes as int, offset.spec_bits(), *bits as int);
                }
                let val = read_bits(data, off_bytes, read_bytes, lpad, *bits as u32);
                if *bits == 1 {
                    FieldValue::Bool(val == 1)
                } else {
                    FieldValue::Uint(val)
                }
            },
            Type::Aligned(_) => {
                let size = div_ceil8_usize(nested_bits as usize);
                if nested_bits % 8 == 0 {
                    let mut out: Vec<u8> = Vec::new();
                    let mut i: usize = 0;
                    while i < size
                        invariant
                            i <= size,
                            offset.byte + size <= data.len(),
                            out@ == data@.subrange(offset.byte as int, offset.byte + i),
                        decreases size - i,
                    {
                        out.push(data[offset.byte + i]);
                        proof {
                            assert(data@.subrange(offset.byte as int, offset.byte + i + 1) == data@.subrange(
                                offset.byte as int,
                                offset.byte + i,
                            ).push(data@[offset.byte + i]));
                        }
                        i = i + 1;
                    }
                    proof {
                        lemma_window(data@, offset.byte as int, size as int, offset.spec_bits(), nested_bits as int);
                        lemma_be_value_bound(out@);
                        vstd::arithmetic::power2::lemma2_to64();
                        vstd::arithmetic::div_mod::lemma_small_mod(be_value(out@), pow2(nested_bits as nat));
                        let w = be_value(out@) as int;
                        assert(w / 1 == w);
                        assert(8 * size == nested_bits);
                    }
                    FieldValue::Bytes(out)
                } else {
                    let shr = (size * 8 - nested_bits as usize) as u32;
                    proof {
                        lemma_window(data@, offset.byte as int, size as int, offset.spec_bits(), nested_bits as int);
                    }
                    FieldValue::Mask(read_bits(data, offset.byte, size, shr, nested_bits))
                }
            },
            Type::Unaligned(_) => {
                let upper = offset.bit + nested_bits as usize;
                let size = div_ceil8_usize(upper);
                let shr = (size * 8 - upper) as u32;
                proof {
                    lemma_window(data@, offset.byte as int, size as int, offset.spec_bits(), nested_bits as int);
                }
                FieldValue::Mask(read_bits(data, offset.byte, size, shr, nested_bits))
            },
        }
    }
}

/// A field of the offset syntax.
#[derive(Debug)]
pub struct Field {
    pub offset: Offset,
    pub name: String,
    pub ty: Type,
}

/// `a` comes before `b` (the order of the derived `Ord`: byte, then bit).
pub open spec fn offset_lt(a: Offset, b: Offset) -> bool {
    a.byte < b.byte || (a.byte == b.byte && a.bit < b.bit)
}

impl Field {
    /// Checks a field at `offset` of a struct of `bound`: it must start
    /// inside the struct, and its type is settled by `Type::parse`.
    pub fn parse(offset: Offset, name: String, raw: WrittenType, bound: Offset) -> (r: Result<Field, FieldError>)
        requires
            offset.spec_bits() <= usize::MAX,
            bound.spec_bits() <= usize::MAX,
        ensures
            !offset_lt(offset, bound) ==> r == Err::<Field, FieldError>(FieldError::OffsetExceeds),
            offset_lt(offset, bound) ==> match type_spec(raw, offset.spec_bits(), bound.spec_bits()) {
                Ok(t) => r == Ok::<Field, FieldError>(Field { offset, name, ty: t }),
                Err(e) => r == Err::<Field, FieldError>(e),
            },
    {
        if !(offset.byte < bound.byte || (offset.byte == bound.byte && offset.bit < bound.bit)) {
            return Err(FieldError::OffsetExceeds);
        }
        match Type::parse(raw, offset, bound) {
            Ok(ty) => Ok(Field { offset, name, ty }),
            Err(e) => Err(e),
        }
    }

    /// The widest written type that fits between the field and the end of a
    /// struct of `size` (the compile-time check on it); `None` for `uN`
    /// fields, which `Type::parse` checked already.
    pub fn max_nested_bits(&self, size: Offset) -> (r: Option<usize>)
        requires
            size.spec_bits() <= usize::MAX,
            self.offset.spec_bits() <= size.spec_bits(),
        ensures
            self.ty is Literal ==> r is None,
            !(self.ty is Literal) ==> r == Some((size.spec_bits() - self.offset.spec_bits()) as usize),
    {
        match &self.ty {
            Type::Literal { .. } => None,
            _ => Some(size.bits() - self.offset.bits()),
        }
    }
}

} // verus!
