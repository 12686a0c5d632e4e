//! The getter generated for a field.

use vstd::prelude::*;
use crate::cg::field_bits;
use crate::cg::layout::{FieldValue, read_outcome, read_spec, lemma_read_is_field_bits};
use crate::hir::Field;
use crate::hir::layout::lemma_layout_covers;
use crate::num::ceil_div;
use crate::cg::layout::{colons, ident, num, punct, read_tokens, return_trees, type_tokens, type_trees};
use crate::cg::item::{const_fn, const_fn_tokens, inline_attr, inline_tokens};
use crate::tt::copy_tokens;
use crate::cg::run::{is_ident, is_punct, lit_num, lemma_lit_num};
use crate::tt;
use crate::tt::{Delimiter, Token, Tree, group, lemma_trees_index, number, put, put_all, trees, word};
use vstd::string::*;
use vstd::utf8::encode_utf8;

verus! {

/// The message of the size check of the field `name`, as a string literal:
/// "field `name` has incompatible size with its type".
pub open spec fn size_message(name: Seq<char>) -> Seq<u8> {
    encode_utf8("\"field `"@) + encode_utf8(name) + encode_utf8("` has incompatible size with its type\""@)
}

/// The size check at the head of the getter of a field of a written type:
/// `::core::assert!(<TY as ::bitx::Bits>::BITS == SIZE, "...");`; a field of
/// no written type has none.
pub open spec fn assert_trees(f: Field) -> Seq<Tree> {
    if f.builtin {
        Seq::empty()
    } else {
        colons() + seq![ident("core"@)] + colons() + seq![
            ident("assert"@),
            punct('!'),
            Tree::Group(
                Delimiter::Parenthesis,
                seq![punct('<')] + type_trees(f.ty) + seq![ident("as"@)] + colons() + seq![ident("bitx"@)]
                    + colons() + seq![ident("Bits"@), punct('>')] + colons() + seq![
                    ident("BITS"@), punct('='), punct('='), num(f.layout.size as int), punct(','),
                    Tree::Literal(size_message(f.name@)),
                ],
            ),
            punct(';'),
        ]
    }
}

/// The getter of a field: its attributes, `#[inline]`, its visibility,
/// `const fn name(&self) -> RET { CHECK BODY }`, with the return type, the
/// size check and the read that the field's plan gives.
pub open spec fn getter_trees(f: Field) -> Seq<Tree> {
    const_fn(
        trees(f.attr@) + inline_attr(),
        trees(f.vis@),
        f.name@,
        seq![punct('&'), ident("self"@)],
        return_trees(f.layout, f.ty, f.builtin),
        assert_trees(f) + read_tokens(f.layout, f.ty, f.builtin),
    )
}

impl Field {
    /// The getter of the field, run on the struct bytes `data`.
    pub fn get(&self, data: &[u8]) -> (r: FieldValue)
        requires
            self.layout.wf(),
            self.layout.read_offset_bytes + self.layout.read_bytes <= data@.len(),
            self.builtin && self.layout.aligned ==> self.layout.read_bytes <= 16,
            !self.layout.aligned && self.layout.mask is Some ==> 1 <= self.layout.size,
        ensures
            read_outcome(self.layout, data@, self.builtin, r),
    {
        self.layout.read(data, self.builtin)
    }

    /// The check that the getter asserts at compile time: a field of a
    /// written type is exactly as wide as that type (`nested_bits` bits).
    pub fn size_matches(&self, nested_bits: u32) -> (ok: bool)
        ensures
            ok == (self.builtin || nested_bits == self.layout.size),
    {
        self.builtin || nested_bits == self.layout.size
    }
}

impl Field {
    /// The tokens of the field's getter (see `getter_trees`).
    pub fn quote_getter(&self) -> (r: Vec<Token>)
        requires
            self.layout.wf(),
            self.layout.aligned && self.builtin ==> self.layout.mask is Some,
        ensures
            trees(r@) == getter_trees(*self),
    {
        let mut attrs = copy_tokens(&self.attr);
        put_all(&mut attrs, inline_tokens());
        let params = vec![Token::Punct('&'), word("self")];
        proof {
            lemma_trees_index(params@);
            assert(trees(params@) =~= seq![punct('&'), ident("self"@)]);
        }
        let mut body = self.quote_assert();
        put_all(&mut body, self.layout.quote_read(&self.ty, self.builtin));
        const_fn_tokens(
            attrs,
            copy_tokens(&self.vis),
            self.name.as_str(),
            params,
            self.layout.return_type(&self.ty, self.builtin),
            body,
        )
    }

    /// The size check that opens the getter (see `assert_trees`).
    pub fn quote_assert(&self) -> (r: Vec<Token>)
        ensures
            trees(r@) == assert_trees(*self),
    {
        if self.builtin {
            let v: Vec<Token> = Vec::new();
            proof {
                assert(trees(v@) =~= Seq::<Tree>::empty());
            }
            return v;
        }
        let mut msg = "\"field `".as_bytes_vec();
        let mut name = self.name.as_str().as_bytes_vec();
        let mut tail = "` has incompatible size with its type\"".as_bytes_vec();
        msg.append(&mut name);
        msg.append(&mut tail);
        assert(msg@ == size_message(self.name@));
        let mut inner: Vec<Token> = Vec::new();
        proof {
            assert(trees(inner@) =~= Seq::<Tree>::empty());
        }
        put(&mut inner, Token::Punct('<'));
        put_all(&mut inner, type_tokens(&self.ty));
        let mid = vec![
            word("as"), Token::Punct(':'), Token::Punct(':'), word("bitx"), Token::Punct(':'), Token::Punct(':'),
            word("Bits"), Token::Punct('>'), Token::Punct(':'), Token::Punct(':'), word("BITS"),
            Token::Punct('='), Token::Punct('='), number(self.layout.size as usize), Token::Punct(','),
            Token::Literal(msg),
        ];
        proof {
            lemma_trees_index(mid@);
            assert(trees(mid@) =~= seq![ident("as"@)] + colons() + seq![ident("bitx"@)] + colons() + seq![
                ident("Bits"@), punct('>'),
            ] + colons() + seq![
                ident("BITS"@), punct('='), punct('='), num(self.layout.size as int), punct(','),
                Tree::Literal(size_message(self.name@)),
            ]);
        }
        put_all(&mut inner, mid);
        let ghost body = trees(inner@);
        let v = vec![
            Token::Punct(':'), Token::Punct(':'), word("core"), Token::Punct(':'), Token::Punct(':'),
            word("assert"), Token::Punct('!'), group(Delimiter::Parenthesis, inner), Token::Punct(';'),
        ];
        proof {
            lemma_trees_index(v@);
            assert(trees(v@) =~= colons() + seq![ident("core"@)] + colons() + seq![
                ident("assert"@), punct('!'), Tree::Group(Delimiter::Parenthesis, body), punct(';'),
            ]);
            assert(body =~= seq![punct('<')] + type_trees(self.ty) + seq![ident("as"@)] + colons() + seq![
                ident("bitx"@),
            ] + colons() + seq![ident("Bits"@), punct('>')] + colons() + seq![
                ident("BITS"@), punct('='), punct('='), num(self.layout.size as int), punct(','),
                Tree::Literal(size_message(self.name@)),
            ]);
        }
        v
    }
}

/// The getter of every checked field stays inside the bytes of any struct
/// that holds the field, and returns the field's bits: MSB-0, big-endian,
/// `size` bits from bit `offset`.
pub proof fn lemma_getter_reads_field(f: Field, data: Seq<u8>, struct_size: int)
    requires
        f.layout.wf(),
        f.layout.offset + f.layout.size <= struct_size,
        data.len() == ceil_div(struct_size, 8),
    ensures
        f.layout.read_offset_bytes + f.layout.read_bytes <= data.len(),
        read_spec(f.layout, data, f.builtin) == field_bits(data, f.layout.offset as int, f.layout.size as int),
{
    lemma_layout_covers(tt::Layout { offset: f.layout.offset, size: f.layout.size });
    let ro = f.layout.read_offset_bytes as int;
    let rb = f.layout.read_bytes as int;
    assert(8 * (ro + rb) < f.layout.offset + f.layout.size + 8);
    assert(8 * (ro + rb) < struct_size + 8);
    assert(ro + rb <= ceil_div(struct_size, 8));
    lemma_read_is_field_bits(f.layout, data, f.builtin);
}

/// The size check of a getter, read back: none for a field of no written
/// type; for one of a written type, `::core::assert!(<T as
/// ::bitx::Bits>::BITS == n, ..)` with `T` the field's type and `n` its
/// width in bits.
pub proof fn lemma_size_check_reads(f: Field)
    ensures
        f.builtin ==> assert_trees(f).len() == 0,
        !f.builtin ==> {
            let t = assert_trees(f);
            let ty = type_trees(f.ty);
            let n = ty.len() as int;
            &&& t.len() == 9
            &&& is_punct(t[0], ':') && is_punct(t[1], ':') && is_ident(t[2], "core"@) && is_punct(t[3], ':')
            &&& is_punct(t[4], ':') && is_ident(t[5], "assert"@) && is_punct(t[6], '!') && is_punct(t[8], ';')
            &&& t[7] matches Tree::Group(Delimiter::Parenthesis, g) && g.len() == n + 17 && is_punct(g[0], '<')
                && g.subrange(1, 1 + n) == ty && is_ident(g[n + 1], "as"@) && is_ident(
                g[n + 4],
                "bitx"@,
            ) && is_ident(g[n + 7], "Bits"@) && is_punct(g[n + 8], '>') && is_ident(
                g[n + 11],
                "BITS"@,
            ) && is_punct(g[n + 12], '=') && is_punct(g[n + 13], '=') && lit_num(g[n + 14])
                == Some(f.layout.size as int) && is_punct(g[n + 15], ',')
        },
{
    lemma_lit_num(f.layout.size as nat);
    if !f.builtin {
        let ty = type_trees(f.ty);
        let g = seq![punct('<')] + ty + seq![ident("as"@)] + colons() + seq![ident("bitx"@)] + colons() + seq![
            ident("Bits"@), punct('>'),
        ] + colons() + seq![
            ident("BITS"@), punct('='), punct('='), num(f.layout.size as int), punct(','),
            Tree::Literal(size_message(f.name@)),
        ];
        assert(g.subrange(1, 1 + ty.len() as int) =~= ty);
        assert(g[ty.len() as int + 14] == num(f.layout.size as int));
    }
}

} // verus!
