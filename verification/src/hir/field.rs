//! Checking one struct field and settling its type.

use vstd::prelude::*;
use crate::ast;
use crate::error::Error;
use crate::hir::Layout;
use crate::hir::layout::layout_spec;
use crate::hir::mask::mask_bits;
use crate::num::{div_ceil8_u32, next_pow2_u32};
use crate::tt::{Token, Type};

verus! {

/// A checked field.
#[derive(Debug)]
pub struct Field {
    pub attr: Vec<Token>,
    pub layout: Layout,
    pub vis: Vec<Token>,
    pub name: String,
    pub ty: Type,
    /// The type was not written, but chosen from the width.
    pub builtin: bool,
}

/// The type of a field of no written type and `size` bits.
pub open spec fn builtin_type(size: int) -> Type {
    if size == 1 {
        Type::Bool
    } else {
        Type::Literal(mask_bits(size) as u32)
    }
}

/// The field that `Field::try_from` makes of `ast` when it accepts it.
pub open spec fn field_spec(ast: ast::Field) -> Field {
    Field {
        attr: ast.attr,
        layout: layout_spec(ast.layout),
        vis: ast.vis,
        name: ast.name,
        ty: match ast.ty {
            Some(t) => t,
            None => builtin_type(ast.layout.size as int),
        },
        builtin: ast.ty is None,
    }
}

/// The field is refused: it has no written type and no bits, or more than 128.
pub open spec fn field_refused(ast: ast::Field) -> bool {
    ast.ty is None && (ast.layout.size == 0 || ast.layout.size > 128)
}

impl Field {
    /// Checks a field; a field of no written type gets `bool` for one bit
    /// and otherwise the smallest of `u8`..`u128` that holds it.
    pub fn try_from(ast: ast::Field) -> (r: Result<Field, Error>)
        requires
            ast.layout.offset % 8 + ast.layout.size <= 0x8000_0000,
        ensures
            !field_refused(ast) ==> r == Ok::<Field, Error>(field_spec(ast)),
            r matches Ok(f) ==> f.layout.wf(),
            field_refused(ast) && ast.layout.size == 0 ==> r == Err::<Field, Error>(
                Error::ZeroSizeField { name: ast.name },
            ),
            field_refused(ast) && ast.layout.size > 128 ==> r == Err::<Field, Error>(
                Error::FieldTooLarge { name: ast.name },
            ),
    {
        let layout = Layout::from(ast.layout);
        let builtin = ast.ty.is_none();
        let ty = match ast.ty {
            Some(ty) => ty,
            None => {
                let size = layout.size;
                if size == 1 {
                    Type::boolean()
                } else if 2 <= size && size <= 128 {
                    let bytes = div_ceil8_u32(size);
                    proof {
                        crate::hir::mask::lemma_mask_bits_le_128(layout.size as int);
                    }
                    let size = next_pow2_u32(bytes) * 8;
                    Type::literal(size)
                } else if size == 0 {
                    return Err(Error::ZeroSizeField { name: ast.name });
                } else {
                    return Err(Error::FieldTooLarge { name: ast.name });
                }
            },
        };
        Ok(Field { attr: ast.attr, layout, vis: ast.vis, name: ast.name, ty, builtin })
    }
}

/// A field of no written type gets `bool` for one bit and otherwise the
/// smallest of `u8`, `u16`, `u32`, `u64` and `u128` that holds its width:
/// the choice depends on the width alone, not on where the field starts.
pub proof fn lemma_builtin_type_by_width(a: ast::Field)
    requires
        a.ty is None,
        !field_refused(a),
    ensures
        a.layout.size == 1 ==> field_spec(a).ty == Type::Bool,
        a.layout.size >= 2 ==> (field_spec(a).ty matches Type::Literal(w) && (w == 8 || w == 16 || w == 32 || w
            == 64 || w == 128) && a.layout.size <= w && (w == 8 || w / 2 < a.layout.size)),
{
    let n = a.layout.size as int;
    if n >= 2 {
        let b = crate::num::ceil_div(n, 8);
        vstd::arithmetic::power2::lemma2_to64();
        let k: nat = if b <= 1 {
            0
        } else if b <= 2 {
            1
        } else if b <= 4 {
            2
        } else if b <= 8 {
            3
        } else {
            4
        };
        crate::num::lemma_next_pow2_unique(k, b as nat);
        assert(mask_bits(n) == 8 * vstd::arithmetic::power2::pow2(k));
    }
}

/// The type given to a field of no written type and `size` (2 to 128) bits
/// is the smallest of `u8`, `u16`, `u32`, `u64`, `u128` that holds it.
pub proof fn lemma_builtin_type_smallest(size: int)
    requires
        2 <= size <= 128,
    ensures
        builtin_type(size) matches Type::Literal(w) && (w == 8 || w == 16 || w == 32 || w == 64 || w == 128) && size
            <= w && (w == 8 || w / 2 < size),
{
    let b = crate::num::ceil_div(size, 8);
    vstd::arithmetic::power2::lemma2_to64();
    let k: nat = if b <= 1 {
        0
    } else if b <= 2 {
        1
    } else if b <= 4 {
        2
    } else if b <= 8 {
        3
    } else {
        4
    };
    crate::num::lemma_next_pow2_unique(k, b as nat);
    assert(mask_bits(size) == 8 * vstd::arithmetic::power2::pow2(k));
}

} // verus!
