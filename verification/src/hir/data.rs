//! A checked definition of either kind.

use vstd::prelude::*;
use crate::ast::{self, Body};
use crate::error::Error;
use crate::hir::{Enum, Struct};
use crate::ast::Values;
use crate::ast::values::{normalize, gaps_fit};
use crate::hir::enm::{enum_outcome, coverage_fits, merge_values};
use crate::hir::strct::{struct_outcome, fields_fit};

verus! {

/// A checked enum or struct.
#[derive(Debug)]
pub enum Data {
    Enum(Enum),
    Struct(Struct),
}

impl Data {
    /// Checks a definition as an enum or as a struct, after its body.
    pub fn try_from(ast: ast::Data) -> (r: Result<Data, Error>)
        requires
            ast.size <= 0x8000_0000,
            ast.body matches Body::Enum(vs) ==> coverage_fits(vs@),
            ast.body matches Body::Struct(fs) ==> fields_fit(fs@),
        ensures
            ast.body is Enum ==> match r {
                Ok(Data::Enum(e)) => enum_outcome(ast, Ok(e)),
                Ok(Data::Struct(_)) => false,
                Err(e) => enum_outcome(ast, Err(e)),
            },
            ast.body is Struct ==> match r {
                Ok(Data::Struct(s)) => struct_outcome(ast, Ok(s)),
                Ok(Data::Enum(_)) => false,
                Err(e) => struct_outcome(ast, Err(e)),
            },
    {
        if matches!(&ast.body, Body::Enum(_)) {
            match Enum::try_from(ast) {
                Ok(e) => Ok(Data::Enum(e)),
                Err(e) => Err(e),
            }
        } else {
            match Struct::try_from(ast) {
                Ok(s) => Ok(Data::Struct(s)),
                Err(e) => Err(e),
            }
        }
    }
}

/// The checks run on `ast` without overflow: its size has a mask width in
/// `u32`, the gaps between the merged values of an enum have bounds, and
/// the ends of a struct's fields fit `u32`. `Data::try_from` asks for this.
#[verifier::loop_isolation(false)]
pub fn fits(ast: &ast::Data) -> (r: bool)
    ensures
        r == (ast.size <= 0x8000_0000 && (ast.body matches Body::Enum(vs) ==> coverage_fits(vs@)) && (
        ast.body matches Body::Struct(fs) ==> fields_fit(fs@))),
{
    if ast.size > 0x8000_0000 {
        return false;
    }
    match &ast.body {
        Body::Enum(vs) => match merge_values(vs.as_slice()) {
            Ok(v) => {
                if v.0.len() <= 1 {
                    return true;
                }
                let n = Values::from(v.0);
                let mut i: usize = 0;
                while i < n.0.len() && i + 1 < n.0.len()
                    invariant
                        n@ == normalize(v@),
                        forall|k: int| 0 <= k < i ==> #[trigger] n@[k].end < u128::MAX && 0 < n@[k + 1].start,
                    decreases n.0.len() - i,
                {
                    if !(n.0[i].end < u128::MAX && 0 < n.0[i + 1].start) {
                        proof {
                            assert(!(n@[i as int].end < u128::MAX && 0 < n@[i + 1].start));
                            assert(!gaps_fit(normalize(v@)));
                        }
                        return false;
                    }
                    i = i + 1;
                }
                true
            },
            Err(_) => true,
        },
        Body::Struct(fs) => {
            let mut i: usize = 0;
            while i < fs.len()
                invariant
                    i <= fs@.len(),
                    forall|k: int| 0 <= k < i ==> {
                        &&& (#[trigger] fs@[k]).layout.offset % 8 + fs@[k].layout.size <= 0x8000_0000
                        &&& fs@[k].layout.offset + fs@[k].layout.size <= u32::MAX
                    },
                decreases fs.len() - i,
            {
                let l = fs[i].layout;
                if (l.offset % 8) as u64 + l.size as u64 > 0x8000_0000 || l.offset as u64 + l.size as u64 > 0xffff_ffff {
                    proof {
                        assert(!fields_fit(fs@)) by {
                            assert(!({
                                &&& fs@[i as int].layout.offset % 8 + fs@[i as int].layout.size <= 0x8000_0000
                                &&& fs@[i as int].layout.offset + fs@[i as int].layout.size <= u32::MAX
                            }));
                        }
                    }
                    return false;
                }
                i = i + 1;
            }
            true
        },
    }
}

} // verus!
