//! Checking a struct definition: every field in bounds.

use vstd::prelude::*;
use crate::tt::Token;
use crate::ast::{self, Body, Data};
use crate::error::Error;
use crate::hir::{Field, Mask};
use crate::hir::field::{field_refused, field_spec};
use crate::hir::mask::mask_spec;

verus! {

/// A checked struct of `size` bits.
#[derive(Debug)]
pub struct Struct {
    pub attr: Vec<Token>,
    pub vis: Vec<Token>,
    pub name: String,
    pub size: u32,
    pub mask: Option<Mask>,
    pub fields: Vec<Field>,
}

/// The field reaches past bit `size`.
pub open spec fn field_exceeds(f: ast::Field, size: u32) -> bool {
    f.layout.offset + f.layout.size > size
}

/// The field placements fit the arithmetic of the checks.
pub open spec fn fields_fit(fs: Seq<ast::Field>) -> bool {
    forall|i: int| 0 <= i < fs.len() ==> {
        &&& (#[trigger] fs[i]).layout.offset % 8 + fs[i].layout.size <= 0x8000_0000
        &&& fs[i].layout.offset + fs[i].layout.size <= u32::MAX
    }
}

/// What `Struct::try_from` yields for `ast`: the first refused field, else
/// the first field out of bounds, else the checked struct.
pub open spec fn struct_outcome(ast: Data, r: Result<Struct, Error>) -> bool {
    match ast.body {
        Body::Enum(_) => r matches Err(Error::Internal),
        Body::Struct(fs) => if exists|i: int| 0 <= i < fs@.len() && field_refused(#[trigger] fs@[i]) {
            exists|i: int|
                0 <= i < fs@.len() && field_refused(fs@[i]) && (forall|k: int|
                    0 <= k < i ==> !field_refused(#[trigger] fs@[k])) && r == Err::<Struct, Error>(
                    if fs@[i].layout.size == 0 {
                        Error::ZeroSizeField { name: fs@[i].name }
                    } else {
                        Error::FieldTooLarge { name: fs@[i].name }
                    },
                )
        } else if exists|i: int| 0 <= i < fs@.len() && field_exceeds(#[trigger] fs@[i], ast.size) {
            exists|i: int|
                0 <= i < fs@.len() && field_exceeds(fs@[i], ast.size) && (forall|k: int|
                    0 <= k < i ==> !field_exceeds(#[trigger] fs@[k], ast.size)) && r == Err::<
                    Struct,
                    Error,
                >(Error::FieldExceeds { name: fs@[i].name })
        } else {
            r matches Ok(s) && s.attr == ast.attr && s.vis == ast.vis && s.name == ast.name && s.size == ast.size && s.mask == mask_spec(
                ast.size as int,
            ) && s.fields@.len() == fs@.len() && forall|i: int|
                0 <= i < fs@.len() ==> (#[trigger] s.fields@[i]) == field_spec(fs@[i])
        },
    }
}

impl Struct {
    /// Checks a struct definition.
    #[verifier::loop_isolation(false)]
    pub fn try_from(ast: Data) -> (r: Result<Struct, Error>)
        requires
            ast.size <= 0x8000_0000,
            ast.body matches Body::Struct(fs) ==> fields_fit(fs@),
        ensures
            struct_outcome(ast, r),
    {
        let Data { attr, vis, name, size, body } = ast;
        let mut raw = match body {
            Body::Struct(fields) => fields,
            Body::Enum(_) => return Err(Error::Internal),
        };
        let ghost fs = raw@;
        assert(fs.len() == raw.len());
        let mut fields: Vec<Field> = Vec::new();
        let mut i: usize = 0;
        while raw.len() > 0
            invariant
                fields_fit(fs),
                fs.len() <= usize::MAX,
                i + raw@.len() == fs.len(),
                raw@ == fs.skip(i as int),
                fields@.len() == i,
                forall|k: int| 0 <= k < i ==> !field_refused(#[trigger] fs[k]),
                forall|k: int| 0 <= k < i ==> (#[trigger] fields@[k]) == field_spec(fs[k]),
            decreases raw.len(),
        {
            let f = raw.remove(0);
            proof {
                assert(f == fs[i as int]);
                assert(raw@ == fs.skip(i + 1));
            }
            match Field::try_from(f) {
                Ok(field) => fields.push(field),
                Err(e) => {
                    proof {
                        assert(field_refused(fs[i as int]));
                        assert(0 <= i < fs.len() && field_refused(fs[i as int]) && (forall|k: int|
                            0 <= k < i ==> !field_refused(#[trigger] fs[k])));
                    }
                    return Err(e);
                },
            }
            i = i + 1;
        }
        let mut j: usize = 0;
        while j < fields.len()
            invariant
                i == fs.len(),
                fields@.len() == fs.len(),
                j <= fields@.len(),
                forall|k: int| 0 <= k < fs.len() ==> !field_refused(#[trigger] fs[k]),
                forall|k: int| 0 <= k < fs.len() ==> (#[trigger] fields@[k]) == field_spec(fs[k]),
                forall|k: int| 0 <= k < j ==> !field_exceeds(#[trigger] fs[k], size),
                fields_fit(fs),
            decreases fields.len() - j,
        {
            proof {
                assert(fields@[j as int] == field_spec(fs[j as int]));
                assert(fs[j as int].layout.offset + fs[j as int].layout.size <= u32::MAX);
            }
            if fields[j].layout.offset + fields[j].layout.size > size {
                let f = fields.remove(j);
                proof {
                    assert(f == field_spec(fs[j as int]));
                    assert(field_exceeds(fs[j as int], size));
                    assert(!(exists|k: int| 0 <= k < fs.len() && field_refused(#[trigger] fs[k])));
                }
                return Err(Error::FieldExceeds { name: f.name });
            }
            j = j + 1;
        }
        let mask = Mask::new(size);
        Ok(Struct { attr, vis, name, size, mask, fields })
    }
}

} // verus!
