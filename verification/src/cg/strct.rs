//! The constructors generated for a struct: `__from_mask`, `from_array`, `from_slice`.

use vstd::prelude::*;
use vstd::arithmetic::power2::pow2;
use crate::cg::be_value;
use crate::hir::Struct;
use crate::hir::mask::mask_spec;
use crate::num::{ceil_div, div_ceil8_u32, pow2_u128};
use crate::ast;
use crate::cg::field::getter_trees;
use crate::cg::item::{
    bits_body, bits_body_tokens, bits_impl, bits_impl_tokens, byte_array, byte_array_token, const_fn,
    const_fn_tokens, empty_tokens, hidden_attr, hidden_tokens, inline_attr, inline_tokens, option_path,
    option_path_tokens, option_tokens, option_variant, outer_attr, outer_attr_tokens, take_or_none,
    take_or_none_tokens, last_body, checked_split_count, lemma_take_or_none_count,
};
use crate::cg::layout::{colons, ident, num, punct, uint_tokens, uint_trees};
use crate::hir::Field;
use crate::hir::field::{field_spec, field_refused};
use crate::hir::mask::Mask;
use crate::hir::strct::struct_outcome;
use crate::reader::zero_u8;
use crate::cg::run::{byte_array_len, diff_group, fn_params, is_ident, is_punct, lemma_byte_array_len, lemma_lit_num, lemma_uint_name, lit_num, prim_width, zeroed_array};
use crate::text::dec;
use crate::tt::{Delimiter, Token, Tree, copy_tokens, group, lemma_trees_index, number, put, put_all, trees, word};

verus! {

/// `val`'s low `n` bytes, most significant first.
pub fn write_be(val: u128, n: usize) -> (r: Vec<u8>)
    requires
        n <= 16,
    ensures
        r@.len() == n,
        be_value(r@) == val as int % pow2(8 * n as nat) as int,
{
    let mut out: Vec<u8> = Vec::new();
    let mut k: usize = 0;
    proof {
        vstd::arithmetic::power2::lemma2_to64();
    }
    while k < n
        invariant
            k <= n <= 16,
            out@.len() == k,
            be_value(out@) == (val as int / pow2(8 * (n - k) as nat) as int) % pow2(8 * k as nat) as int,
        decreases n - k,
    {
        let e = (8 * (n - k - 1)) as u32;
        proof {
            vstd::arithmetic::power2::lemma_pow2_pos(e as nat);
            vstd::arithmetic::power2::lemma_pow2_pos(8 * k as nat);
            vstd::arithmetic::power2::lemma_pow2_adds(e as nat, 8);
            vstd::arithmetic::power2::lemma_pow2_adds(8 * k as nat, 8);
            let a1: nat = e as nat + 8;
            let a2: nat = 8 * (n - k) as nat;
            assert(a1 == a2);
            let b1: nat = 8 * k as nat + 8;
            let b2: nat = 8 * (k + 1) as nat;
            assert(b1 == b2);
        }
        let y = val / pow2_u128(e);
        let b = (y % 256) as u8;
        proof {
            vstd::arithmetic::power2::lemma2_to64();
            let d = pow2(e as nat) as int;
            let p = pow2(8 * k as nat) as int;
            vstd::arithmetic::div_mod::lemma_div_denominator(val as int, d, 256);
            vstd::arithmetic::div_mod::lemma_mod_breakdown(y as int, 256, p);
            assert(out@.push(b).drop_last() == out@);
            assert(be_value(out@.push(b)) == be_value(out@) * 256 + b);
            assert(pow2(8 * (n - k) as nat) == d * 256);
            assert(pow2(8 * (k + 1) as nat) == p * 256);
            assert((y as int % (256 * p)) == 256 * ((y as int / 256) % p) + y as int % 256);
            assert(256 * p == p * 256) by (nonlinear_arith);
            assert(256 * ((y as int / 256) % p) == ((y as int / 256) % p) * 256) by (nonlinear_arith);
        }
        out.push(b);
        k = k + 1;
    }
    proof {
        vstd::arithmetic::power2::lemma2_to64();
        let z: nat = 8 * (n - k) as nat;
        assert(z == 0);
        assert(pow2(z) == 1);
        assert(val as int / 1 == val);
    }
    out
}

/// Every field can have its getter written: its plan is the one
/// `Layout::from` makes, and an aligned field of no written type has a mask.
pub open spec fn getters_ready(fs: Seq<Field>) -> bool {
    forall|i: int|
        0 <= i < fs.len() ==> {
            &&& (#[trigger] fs[i]).layout.wf()
            &&& fs[i].layout.aligned && fs[i].builtin ==> fs[i].layout.mask is Some
        }
}

/// The getters, one after another.
pub open spec fn getters_trees(fs: Seq<Field>) -> Seq<Tree>
    decreases fs.len(),
{
    if fs.len() == 0 {
        Seq::empty()
    } else {
        getters_trees(fs.drop_last()) + getter_trees(fs.last())
    }
}

/// The `Mask` of a struct: its mask, or `()` for a struct over 128 bits.
pub open spec fn struct_mask_trees(s: Struct) -> Seq<Tree> {
    match s.mask {
        Some(m) => uint_trees(m.size as nat),
        None => seq![Tree::Group(Delimiter::Parenthesis, Seq::empty())],
    }
}

/// The packed struct of the bytes, and its `Bits` impl.
pub open spec fn struct_head(s: Struct) -> Seq<Tree> {
    trees(s.attr@) + outer_attr(seq![
        ident("repr"@),
        Tree::Group(Delimiter::Parenthesis, seq![ident("C"@), punct(','), ident("packed"@)]),
    ]) + trees(s.vis@) + seq![
        ident("struct"@), ident(s.name@), Tree::Group(Delimiter::Parenthesis, seq![byte_array(s.bytes())]),
        punct(';'),
    ] + bits_impl(
        s.name@,
        bits_body(struct_mask_trees(s), seq![punct('&'), punct('\''), ident("a"@), ident(s.name@)], s.size as int),
    )
}

/// `__from_mask` of a struct with the mask `m`: the low bytes of the mask,
/// most significant first.
pub open spec fn struct_from_mask_fn(s: Struct, m: Mask) -> Seq<Tree> {
    const_fn(
        inline_attr() + hidden_attr(),
        trees(s.vis@),
        "__from_mask"@,
        seq![ident("mask"@), punct(':')] + uint_trees(m.size as nat),
        seq![ident("Self"@)],
        seq![
            ident("let"@), ident("bytes"@), punct('='), ident("mask"@), punct('.'), ident("to_be_bytes"@),
            Tree::Group(Delimiter::Parenthesis, Seq::empty()), punct(';'), ident("let"@), ident("from"@), punct('='),
            ident("bytes"@), punct('.'), ident("split_at"@),
            Tree::Group(Delimiter::Parenthesis, seq![num((m.size / 8) as int), punct('-'), num(s.bytes())]),
            punct('.'), num(1), punct(';'), ident("let"@), ident("mut"@), ident("buf"@), punct('='),
            Tree::Group(Delimiter::Bracket, seq![zero_u8(), punct(';'), num(s.bytes())]), punct(';'),
        ] + colons() + seq![ident("bitx"@)] + colons() + seq![
            ident("copy"@),
            Tree::Group(Delimiter::Parenthesis, seq![punct('&'), ident("mut"@), ident("buf"@), punct(','), ident("from"@)]),
            punct(';'), ident("Self"@), Tree::Group(Delimiter::Parenthesis, seq![ident("buf"@)]),
        ],
    )
}

/// `from_array`: the struct of exactly these bytes.
pub open spec fn struct_from_array_fn(s: Struct) -> Seq<Tree> {
    const_fn(
        inline_attr(),
        trees(s.vis@),
        "from_array"@,
        seq![ident("v"@), punct(':'), byte_array(s.bytes())],
        seq![ident("Self"@)],
        seq![ident("Self"@), Tree::Group(Delimiter::Parenthesis, seq![ident("v"@)])],
    )
}

/// `from_slice`: `None` for a slice shorter than the struct, else its first
/// bytes seen as the struct in place (the struct is a packed byte array).
pub open spec fn struct_from_slice_fn(s: Struct) -> Seq<Tree> {
    const_fn(
        inline_attr(),
        trees(s.vis@),
        "from_slice"@,
        seq![ident("v"@), punct(':'), punct('&'), Tree::Group(Delimiter::Bracket, uint_trees(8))],
        option_path() + seq![punct('<'), punct('&'), ident("Self"@), punct('>')],
        take_or_none("v"@, s.bytes()) + option_variant("Some"@) + seq![
            Tree::Group(Delimiter::Parenthesis, seq![
                ident("unsafe"@),
                Tree::Group(Delimiter::Brace, seq![
                    punct('&'), punct('*'), ident("v"@), punct('.'), ident("as_ptr"@),
                    Tree::Group(Delimiter::Parenthesis, Seq::empty()), punct('.'), ident("cast"@),
                    Tree::Group(Delimiter::Parenthesis, Seq::empty()),
                ]),
            ]),
        ],
    )
}

/// The items generated for a struct: the packed struct of its bytes; its
/// `Bits` impl; `__from_mask` when it has a mask; `from_array`;
/// `from_slice`; and the getter of every field.
pub open spec fn struct_item_trees(s: Struct) -> Seq<Tree> {
    struct_head(s) + seq![
        ident("impl"@),
        ident(s.name@),
        Tree::Group(
            Delimiter::Brace,
            match s.mask {
                Some(m) => struct_from_mask_fn(s, m),
                None => Seq::empty(),
            } + struct_from_array_fn(s) + struct_from_slice_fn(s) + getters_trees(s.fields@),
        ),
    ]
}

/// The tokens of `getters_trees`.
fn getters_tokens(fs: &Vec<Field>) -> (r: Vec<Token>)
    requires
        getters_ready(fs@),
    ensures
        trees(r@) == getters_trees(fs@),
{
    let mut out = empty_tokens();
    let mut i: usize = 0;
    proof {
        assert(fs@.take(0) =~= Seq::<Field>::empty());
    }
    while i < fs.len()
        invariant
            i <= fs@.len(),
            getters_ready(fs@),
            trees(out@) == getters_trees(fs@.take(i as int)),
        decreases fs.len() - i,
    {
        proof {
            assert(fs@[i as int].layout.wf());
        }
        put_all(&mut out, fs[i].quote_getter());
        proof {
            let t = fs@.take(i + 1);
            assert(t.drop_last() =~= fs@.take(i as int));
            assert(t.last() == fs@[i as int]);
        }
        i = i + 1;
    }
    proof {
        assert(fs@.take(fs@.len() as int) =~= fs@);
    }
    out
}

impl Struct {
    /// The tokens of `struct_head`.
    fn head_tokens(&self) -> (r: Vec<Token>)
        ensures
            trees(r@) == struct_head(*self),
    {
        let name = self.name.as_str();
        let bytes = div_ceil8_u32(self.size);
        let repr_args = vec![word("C"), Token::Punct(','), word("packed")];
        proof {
            lemma_trees_index(repr_args@);
            assert(trees(repr_args@) =~= seq![ident("C"@), punct(','), ident("packed"@)]);
        }
        let ghost rt = trees(repr_args@);
        let repr = vec![word("repr"), group(Delimiter::Parenthesis, repr_args)];
        proof {
            lemma_trees_index(repr@);
            assert(trees(repr@) =~= seq![ident("repr"@), Tree::Group(Delimiter::Parenthesis, rt)]);
        }
        let array = vec![byte_array_token(bytes)];
        proof {
            lemma_trees_index(array@);
            assert(trees(array@) =~= seq![byte_array(bytes as int)]);
        }
        let ghost at = trees(array@);
        let decl = vec![word("struct"), word(name), group(Delimiter::Parenthesis, array), Token::Punct(';')];
        proof {
            lemma_trees_index(decl@);
            assert(trees(decl@) =~= seq![
                ident("struct"@), ident(self.name@), Tree::Group(Delimiter::Parenthesis, at), punct(';'),
            ]);
        }
        let mask = match &self.mask {
            Some(m) => uint_tokens(m.size),
            None => {
                let v = vec![group(Delimiter::Parenthesis, empty_tokens())];
                proof {
                    lemma_trees_index(v@);
                    assert(trees(v@) =~= seq![Tree::Group(Delimiter::Parenthesis, Seq::empty())]);
                }
                v
            },
        };
        let read = vec![Token::Punct('&'), Token::Punct('\''), word("a"), word(name)];
        proof {
            lemma_trees_index(read@);
            assert(trees(read@) =~= seq![punct('&'), punct('\''), ident("a"@), ident(self.name@)]);
        }
        let mut out = copy_tokens(&self.attr);
        put_all(&mut out, outer_attr_tokens(repr));
        put_all(&mut out, copy_tokens(&self.vis));
        put_all(&mut out, decl);
        put_all(&mut out, bits_impl_tokens(name, bits_body_tokens(mask, read, self.size)));
        out
    }

    /// The tokens of `struct_from_mask_fn`.
    fn from_mask_fn_tokens(&self, m: &Mask) -> (r: Vec<Token>)
        ensures
            trees(r@) == struct_from_mask_fn(*self, *m),
    {
        let bytes = div_ceil8_u32(self.size);
        let mut attrs = inline_tokens();
        put_all(&mut attrs, hidden_tokens());
        let mut params = vec![word("mask"), Token::Punct(':')];
        proof {
            lemma_trees_index(params@);
            assert(trees(params@) =~= seq![ident("mask"@), punct(':')]);
        }
        put_all(&mut params, uint_tokens(m.size));
        let ret = vec![word("Self")];
        proof {
            lemma_trees_index(ret@);
            assert(trees(ret@) =~= seq![ident("Self"@)]);
        }
        let diff = vec![number((m.size / 8) as usize), Token::Punct('-'), number(bytes as usize)];
        let size = vec![Token::Literal(vec![48u8, 117u8, 56u8]), Token::Punct(';'), number(bytes as usize)];
        let args = vec![Token::Punct('&'), word("mut"), word("buf"), Token::Punct(','), word("from")];
        let buf = vec![word("buf")];
        proof {
            lemma_trees_index(diff@);
            lemma_trees_index(size@);
            lemma_trees_index(args@);
            lemma_trees_index(buf@);
            assert(trees(diff@) =~= seq![num((m.size / 8) as int), punct('-'), num(bytes as int)]);
            assert(trees(size@) =~= seq![zero_u8(), punct(';'), num(bytes as int)]);
            assert(trees(args@) =~= seq![punct('&'), ident("mut"@), ident("buf"@), punct(','), ident("from"@)]);
            assert(trees(buf@) =~= seq![ident("buf"@)]);
        }
        let ghost dt = trees(diff@);
        let ghost st = trees(size@);
        let ghost gt = trees(args@);
        let body = vec![
            word("let"), word("bytes"), Token::Punct('='), word("mask"), Token::Punct('.'), word("to_be_bytes"),
            group(Delimiter::Parenthesis, empty_tokens()), Token::Punct(';'), word("let"), word("from"),
            Token::Punct('='), word("bytes"), Token::Punct('.'), word("split_at"), group(Delimiter::Parenthesis, diff),
            Token::Punct('.'), number(1), Token::Punct(';'), word("let"), word("mut"), word("buf"), Token::Punct('='),
            group(Delimiter::Bracket, size), Token::Punct(';'), Token::Punct(':'), Token::Punct(':'), word("bitx"),
            Token::Punct(':'), Token::Punct(':'), word("copy"), group(Delimiter::Parenthesis, args), Token::Punct(';'),
            word("Self"), group(Delimiter::Parenthesis, buf),
        ];
        proof {
            lemma_trees_index(body@);
            assert(trees(body@) =~= seq![
                ident("let"@), ident("bytes"@), punct('='), ident("mask"@), punct('.'), ident("to_be_bytes"@),
                Tree::Group(Delimiter::Parenthesis, Seq::empty()), punct(';'), ident("let"@), ident("from"@),
                punct('='), ident("bytes"@), punct('.'), ident("split_at"@), Tree::Group(Delimiter::Parenthesis, dt),
                punct('.'), num(1), punct(';'), ident("let"@), ident("mut"@), ident("buf"@), punct('='),
                Tree::Group(Delimiter::Bracket, st), punct(';'),
            ] + colons() + seq![ident("bitx"@)] + colons() + seq![
                ident("copy"@), Tree::Group(Delimiter::Parenthesis, gt), punct(';'), ident("Self"@),
                Tree::Group(Delimiter::Parenthesis, seq![ident("buf"@)]),
            ]);
        }
        const_fn_tokens(attrs, copy_tokens(&self.vis), "__from_mask", params, ret, body)
    }

    /// The tokens of `struct_from_array_fn`.
    fn from_array_fn_tokens(&self) -> (r: Vec<Token>)
        ensures
            trees(r@) == struct_from_array_fn(*self),
    {
        let bytes = div_ceil8_u32(self.size);
        let params = vec![word("v"), Token::Punct(':'), byte_array_token(bytes)];
        let ret = vec![word("Self")];
        let v = vec![word("v")];
        proof {
            lemma_trees_index(params@);
            lemma_trees_index(ret@);
            lemma_trees_index(v@);
            assert(trees(params@) =~= seq![ident("v"@), punct(':'), byte_array(bytes as int)]);
            assert(trees(ret@) =~= seq![ident("Self"@)]);
            assert(trees(v@) =~= seq![ident("v"@)]);
        }
        let body = vec![word("Self"), group(Delimiter::Parenthesis, v)];
        proof {
            lemma_trees_index(body@);
            assert(trees(body@) =~= seq![ident("Self"@), Tree::Group(Delimiter::Parenthesis, seq![ident("v"@)])]);
        }
        const_fn_tokens(inline_tokens(), copy_tokens(&self.vis), "from_array", params, ret, body)
    }

    /// The tokens of `struct_from_slice_fn`.
    fn from_slice_fn_tokens(&self) -> (r: Vec<Token>)
        ensures
            trees(r@) == struct_from_slice_fn(*self),
    {
        let bytes = div_ceil8_u32(self.size);
        let mut params = vec![word("v"), Token::Punct(':'), Token::Punct('&')];
        proof {
            lemma_trees_index(params@);
            assert(trees(params@) =~= seq![ident("v"@), punct(':'), punct('&')]);
        }
        put(&mut params, group(Delimiter::Bracket, uint_tokens(8)));
        let mut ret = option_path_tokens();
        let angle = vec![Token::Punct('<'), Token::Punct('&'), word("Self"), Token::Punct('>')];
        proof {
            lemma_trees_index(angle@);
            assert(trees(angle@) =~= seq![punct('<'), punct('&'), ident("Self"@), punct('>')]);
        }
        put_all(&mut ret, angle);
        let view = vec![
            Token::Punct('&'), Token::Punct('*'), word("v"), Token::Punct('.'), word("as_ptr"),
            group(Delimiter::Parenthesis, empty_tokens()), Token::Punct('.'), word("cast"),
            group(Delimiter::Parenthesis, empty_tokens()),
        ];
        proof {
            lemma_trees_index(view@);
            assert(trees(view@) =~= seq![
                punct('&'), punct('*'), ident("v"@), punct('.'), ident("as_ptr"@),
                Tree::Group(Delimiter::Parenthesis, Seq::empty()), punct('.'), ident("cast"@),
                Tree::Group(Delimiter::Parenthesis, Seq::empty()),
            ]);
        }
        let ghost vt = trees(view@);
        let inner = vec![word("unsafe"), group(Delimiter::Brace, view)];
        proof {
            lemma_trees_index(inner@);
            assert(trees(inner@) =~= seq![ident("unsafe"@), Tree::Group(Delimiter::Brace, vt)]);
        }
        let mut body = take_or_none_tokens("v", bytes);
        put_all(&mut body, option_tokens("Some"));
        put(&mut body, group(Delimiter::Parenthesis, inner));
        proof {
            assert(trees(body@) =~= take_or_none("v"@, self.bytes()) + option_variant("Some"@) + seq![
                Tree::Group(Delimiter::Parenthesis, seq![
                    ident("unsafe"@),
                    Tree::Group(Delimiter::Brace, seq![
                        punct('&'), punct('*'), ident("v"@), punct('.'), ident("as_ptr"@),
                        Tree::Group(Delimiter::Parenthesis, Seq::empty()), punct('.'), ident("cast"@),
                        Tree::Group(Delimiter::Parenthesis, Seq::empty()),
                    ]),
                ]),
            ]);
            assert(trees(params@) =~= seq![
                ident("v"@), punct(':'), punct('&'), Tree::Group(Delimiter::Bracket, uint_trees(8)),
            ]);
            assert(trees(ret@) =~= option_path() + seq![punct('<'), punct('&'), ident("Self"@), punct('>')]);
        }
        const_fn_tokens(inline_tokens(), copy_tokens(&self.vis), "from_slice", params, ret, body)
    }

    /// The items generated for the struct (see `struct_item_trees`).
    pub fn quote_item(&self) -> (r: Vec<Token>)
        requires
            getters_ready(self.fields@),
        ensures
            trees(r@) == struct_item_trees(*self),
    {
        let mut body = match &self.mask {
            Some(m) => self.from_mask_fn_tokens(m),
            None => empty_tokens(),
        };
        put_all(&mut body, self.from_array_fn_tokens());
        put_all(&mut body, self.from_slice_fn_tokens());
        put_all(&mut body, getters_tokens(&self.fields));
        let ghost bt = trees(body@);
        let tail = vec![word("impl"), word(self.name.as_str()), group(Delimiter::Brace, body)];
        proof {
            lemma_trees_index(tail@);
            assert(trees(tail@) =~= seq![ident("impl"@), ident(self.name@), Tree::Group(Delimiter::Brace, bt)]);
        }
        let mut out = self.head_tokens();
        put_all(&mut out, tail);
        out
    }
}

/// Every struct that `Struct::try_from` accepts can have its items written:
/// each field's plan is `Layout::from`'s, and an aligned field of no written
/// type is at most 16 bytes, so it has a mask.
pub proof fn lemma_checked_struct_ready(a: ast::Data, s: Struct)
    requires
        struct_outcome(a, Ok(s)),
    ensures
        getters_ready(s.fields@),
{
    match a.body {
        ast::Body::Struct(fs) => {
            assert forall|i: int| 0 <= i < s.fields@.len() implies {
                &&& (#[trigger] s.fields@[i]).layout.wf()
                &&& s.fields@[i].layout.aligned && s.fields@[i].builtin ==> s.fields@[i].layout.mask is Some
            } by {
                let f = fs@[i];
                assert(!field_refused(f));
                assert(s.fields@[i] == field_spec(f));
                if f.ty is None && f.layout.offset % 8 == 0 && f.layout.size % 8 == 0 {
                    assert(1 <= f.layout.size <= 128);
                    assert(crate::hir::layout::span_bytes(f.layout) * 8 == f.layout.size) by (nonlinear_arith)
                        requires
                            f.layout.offset % 8 == 0,
                            f.layout.size % 8 == 0,
                            crate::hir::layout::span_bytes(f.layout) == crate::num::ceil_div(
                                f.layout.offset % 8 + f.layout.size,
                                8,
                            ),
                            crate::num::ceil_div(f.layout.offset % 8 + f.layout.size, 8) == (f.layout.offset % 8
                                + f.layout.size + 7) / 8,
                    ;
                }
            }
        },
        ast::Body::Enum(_) => {},
    }
}

impl Struct {
    /// The bytes of the struct: `size` bits rounded up.
    pub open spec fn bytes(self) -> int {
        ceil_div(self.size as int, 8)
    }

    /// `from_array`: the struct is its bytes.
    pub fn from_array(&self, v: &[u8]) -> (r: Vec<u8>)
        requires
            v@.len() == self.bytes(),
        ensures
            r@ == v@,
    {
        let mut out: Vec<u8> = Vec::new();
        let mut i: usize = 0;
        while i < v.len()
            invariant
                i <= v.len(),
                out@ == v@.take(i as int),
            decreases v.len() - i,
        {
            out.push(v[i]);
            proof {
                assert(v@.take(i + 1) == v@.take(i as int).push(v@[i as int]));
            }
            i = i + 1;
        }
        proof {
            assert(v@.take(i as int) == v@);
        }
        out
    }

    /// `from_slice`: the first bytes of the slice, or `None` when it is shorter
    /// than the struct.
    pub fn from_slice(&self, v: &[u8]) -> (r: Option<Vec<u8>>)
        ensures
            v@.len() < self.bytes() ==> r is None,
            v@.len() >= self.bytes() ==> (r matches Some(b) && b@ == v@.take(self.bytes())),
    {
        let bytes = div_ceil8_u32(self.size) as usize;
        if v.len() < bytes {
            return None;
        }
        let mut out: Vec<u8> = Vec::new();
        let mut i: usize = 0;
        while i < bytes
            invariant
                i <= bytes <= v.len(),
                out@ == v@.take(i as int),
            decreases bytes - i,
        {
            out.push(v[i]);
            proof {
                assert(v@.take(i + 1) == v@.take(i as int).push(v@[i as int]));
            }
            i = i + 1;
        }
        Some(out)
    }

    /// `__from_mask`: the struct whose bytes are the low bytes of `mask`,
    /// most significant first; it exists when the struct has a mask.
    pub fn from_mask(&self, mask: u128) -> (r: Vec<u8>)
        requires
            self.mask == mask_spec(self.size as int),
            self.mask is Some,
        ensures
            r@.len() == self.bytes(),
            be_value(r@) == mask as int % pow2(8 * self.bytes() as nat) as int,
    {
        let bytes = div_ceil8_u32(self.size) as usize;
        write_be(mask, bytes)
    }
}

/// Equal-length bytes with equal big-endian values are equal.
pub proof fn lemma_be_value_injective(a: Seq<u8>, b: Seq<u8>)
    requires
        a.len() == b.len(),
        be_value(a) == be_value(b),
    ensures
        a == b,
    decreases a.len(),
{
    if a.len() > 0 {
        let (x, y) = (be_value(a.drop_last()) as int, be_value(b.drop_last()) as int);
        let (l, m) = (a.last() as int, b.last() as int);
        assert(x * 256 + l == y * 256 + m);
        vstd::arithmetic::div_mod::lemma_fundamental_div_mod_converse(x * 256 + l, 256, x, l);
        vstd::arithmetic::div_mod::lemma_fundamental_div_mod_converse(y * 256 + m, 256, y, m);
        lemma_be_value_injective(a.drop_last(), b.drop_last());
        assert(a == a.drop_last().push(a.last()));
        assert(b == b.drop_last().push(b.last()));
    }
}

/// `__from_mask` undoes the mask of a struct's bytes: rebuilt from the
/// big-endian value of its bytes, a struct has the same bytes.
pub proof fn lemma_from_mask_of_bytes(s: Struct, bytes: Seq<u8>, rebuilt: Seq<u8>)
    requires
        bytes.len() == s.bytes(),
        rebuilt.len() == s.bytes(),
        be_value(rebuilt) == be_value(bytes) as int % pow2(8 * s.bytes() as nat) as int,
    ensures
        rebuilt == bytes,
{
    crate::cg::lemma_be_value_bound(bytes);
    vstd::arithmetic::div_mod::lemma_small_mod(be_value(bytes), pow2(8 * s.bytes() as nat));
    lemma_be_value_injective(rebuilt, bytes);
}

/// The generated `from_slice` of a struct splits off exactly the struct's
/// bytes, `ceil(size / 8)`: the count that `Struct::from_slice` takes.
pub proof fn lemma_from_slice_takes_struct_bytes(s: Struct)
    ensures
        checked_split_count(last_body(struct_from_slice_fn(s))) == Some(ceil_div(s.size as int, 8)),
{
    let rest = option_variant("Some"@) + seq![
        Tree::Group(Delimiter::Parenthesis, seq![
            ident("unsafe"@),
            Tree::Group(Delimiter::Brace, seq![
                punct('&'), punct('*'), ident("v"@), punct('.'), ident("as_ptr"@),
                Tree::Group(Delimiter::Parenthesis, Seq::empty()), punct('.'), ident("cast"@),
                Tree::Group(Delimiter::Parenthesis, Seq::empty()),
            ]),
        ]),
    ];
    let body = take_or_none("v"@, s.bytes()) + rest;
    assert(last_body(struct_from_slice_fn(s)) =~= body);
    lemma_take_or_none_count("v"@, s.bytes() as nat, rest);
}

/// The body `let bytes = mask.to_be_bytes(); let from = bytes.split_at(m - n).1;
/// let mut buf = [0u8; c]; ::bitx::copy(&mut buf, from); Self(buf)`: the
/// struct of the last bytes of the mask's big-endian bytes, read as
/// `(m, n, c)`.
pub open spec fn from_mask_reading(b: Seq<Tree>) -> Option<(int, int, int)> {
    if b.len() == 34 && is_ident(b[0], "let"@) && is_ident(b[1], "bytes"@) && is_punct(b[2], '=') && is_ident(
        b[3],
        "mask"@,
    ) && is_punct(b[4], '.') && is_ident(b[5], "to_be_bytes"@) && b[6] == Tree::Group(
        Delimiter::Parenthesis,
        Seq::empty(),
    ) && is_punct(b[7], ';') && is_ident(b[8], "let"@) && is_ident(b[9], "from"@) && is_punct(b[10], '=')
        && is_ident(b[11], "bytes"@) && is_punct(b[12], '.') && is_ident(b[13], "split_at"@) && diff_group(b[14]) is Some
        && is_punct(b[15], '.') && lit_num(b[16]) == Some(1int) && is_punct(b[17], ';') && is_ident(b[18], "let"@)
        && is_ident(b[19], "mut"@) && is_ident(b[20], "buf"@) && is_punct(b[21], '=') && zeroed_array(b[22]) is Some
        && is_punct(b[23], ';') && is_punct(b[24], ':') && is_punct(b[25], ':') && is_ident(b[26], "bitx"@)
        && is_punct(b[27], ':') && is_punct(b[28], ':') && is_ident(b[29], "copy"@) && b[30] == Tree::Group(
        Delimiter::Parenthesis,
        seq![Tree::Punct('&'), Tree::Ident("mut"@), Tree::Ident("buf"@), Tree::Punct(','), Tree::Ident("from"@)],
    ) && is_punct(b[31], ';') && is_ident(b[32], "Self"@) && b[33] == Tree::Group(
        Delimiter::Parenthesis,
        seq![Tree::Ident("buf"@)],
    ) {
        Some((diff_group(b[14])->Some_0.0, diff_group(b[14])->Some_0.1, zeroed_array(b[22])->Some_0))
    } else {
        None
    }
}

/// The generated `from_array` of a struct takes an array of exactly the
/// struct's `ceil(size / 8)` bytes and is the struct of those bytes.
pub proof fn lemma_struct_from_array_reads(s: Struct)
    ensures
        fn_params(struct_from_array_fn(s), 1) matches Some(p) && p.len() == 3 && is_ident(p[0], "v"@) && is_punct(
            p[1],
            ':',
        ) && byte_array_len(p[2]) == Some(ceil_div(s.size as int, 8)),
        last_body(struct_from_array_fn(s)) == seq![
            Tree::Ident("Self"@),
            Tree::Group(Delimiter::Parenthesis, seq![Tree::Ident("v"@)]),
        ],
{
    lemma_byte_array_len(s.bytes() as nat);
}

/// The generated `__from_mask` of a struct with the mask `m` takes a `uK`
/// for the mask's `K` bits, and is the struct of the last `ceil(size / 8)`
/// of the mask's `K / 8` big-endian bytes.
pub proof fn lemma_struct_from_mask_reads(s: Struct, m: Mask)
    ensures
        fn_params(struct_from_mask_fn(s, m), 1) matches Some(p) && p.len() == 11 && is_ident(p[0], "mask"@)
            && is_punct(p[1], ':') && prim_width(p, 2) == Some(m.size as nat),
        from_mask_reading(last_body(struct_from_mask_fn(s, m))) == Some(
            ((m.size / 8) as int, ceil_div(s.size as int, 8), ceil_div(s.size as int, 8)),
        ),
{
    let p = seq![ident("mask"@), punct(':')] + uint_trees(m.size as nat);
    lemma_uint_name(m.size as nat);
    assert(uint_trees(m.size as nat) =~= seq![
        punct(':'), punct(':'), ident("core"@), punct(':'), punct(':'), ident("primitive"@), punct(':'), punct(':'),
        ident(seq!['u'] + dec(m.size as nat)),
    ]);
    assert(prim_width(p, 2) == Some(m.size as nat));
    lemma_lit_num((m.size / 8) as nat);
    lemma_lit_num(s.bytes() as nat);
    lemma_lit_num(1);
    let b = last_body(struct_from_mask_fn(s, m));
    assert(b.len() == 34);
}

/// The generated `from_slice` of a struct, read back: when the slice is
/// shorter it returns `None`; otherwise it returns `Some` of the first bytes
/// seen as the struct in place.
pub proof fn lemma_from_slice_returns(s: Struct)
    ensures
        ({
            let b = last_body(struct_from_slice_fn(s));
            &&& b.len() == 35
            &&& is_ident(b[19], "else"@)
            &&& b[20] == Tree::Group(
                Delimiter::Brace,
                seq![
                    Tree::Ident("return"@), Tree::Punct(':'), Tree::Punct(':'), Tree::Ident("core"@), Tree::Punct(':'),
                    Tree::Punct(':'), Tree::Ident("option"@), Tree::Punct(':'), Tree::Punct(':'),
                    Tree::Ident("Option"@), Tree::Punct(':'), Tree::Punct(':'), Tree::Ident("None"@), Tree::Punct(';'),
                ],
            )
            &&& is_ident(b[30], "Option"@) && is_ident(b[33], "Some"@)
            &&& b[34] == Tree::Group(
                Delimiter::Parenthesis,
                seq![
                    Tree::Ident("unsafe"@),
                    Tree::Group(
                        Delimiter::Brace,
                        seq![
                            Tree::Punct('&'), Tree::Punct('*'), Tree::Ident("v"@), Tree::Punct('.'),
                            Tree::Ident("as_ptr"@), Tree::Group(Delimiter::Parenthesis, Seq::empty()), Tree::Punct('.'),
                            Tree::Ident("cast"@), Tree::Group(Delimiter::Parenthesis, Seq::empty()),
                        ],
                    ),
                ],
            )
        }),
{
    let b = last_body(struct_from_slice_fn(s));
    let none = option_variant("None"@);
    assert(none =~= seq![
        punct(':'), punct(':'), ident("core"@), punct(':'), punct(':'), ident("option"@), punct(':'), punct(':'),
        ident("Option"@), punct(':'), punct(':'), ident("None"@),
    ]);
    let some = option_variant("Some"@);
    assert(some =~= seq![
        punct(':'), punct(':'), ident("core"@), punct(':'), punct(':'), ident("option"@), punct(':'), punct(':'),
        ident("Option"@), punct(':'), punct(':'), ident("Some"@),
    ]);
    assert(seq![ident("return"@)] + none + seq![punct(';')] =~= seq![
        Tree::Ident("return"@), Tree::Punct(':'), Tree::Punct(':'), Tree::Ident("core"@), Tree::Punct(':'),
        Tree::Punct(':'), Tree::Ident("option"@), Tree::Punct(':'), Tree::Punct(':'), Tree::Ident("Option"@),
        Tree::Punct(':'), Tree::Punct(':'), Tree::Ident("None"@), Tree::Punct(';'),
    ]);
    let t = take_or_none("v"@, s.bytes());
    assert(t =~= seq![ident("let"@)] + some + seq![
        Tree::Group(
            Delimiter::Parenthesis,
            seq![Tree::Group(Delimiter::Parenthesis, seq![ident("v"@), punct(','), ident("_"@)])],
        ),
        punct('='), ident("v"@), punct('.'), ident("split_at_checked"@),
        Tree::Group(Delimiter::Parenthesis, seq![num(s.bytes())]), ident("else"@),
        Tree::Group(Delimiter::Brace, seq![ident("return"@)] + none + seq![punct(';')]),
        punct(';'),
    ]);
    assert(t.len() == 22);
    let tail = seq![
        Tree::Group(Delimiter::Parenthesis, seq![
            ident("unsafe"@),
            Tree::Group(Delimiter::Brace, seq![
                punct('&'), punct('*'), ident("v"@), punct('.'), ident("as_ptr"@),
                Tree::Group(Delimiter::Parenthesis, Seq::empty()), punct('.'), ident("cast"@),
                Tree::Group(Delimiter::Parenthesis, Seq::empty()),
            ]),
        ]),
    ];
    assert(b =~= t + some + tail);
    assert(b[19] == t[19]);
    assert(b[20] == t[20]);
    assert(b[30] == some[8]);
    assert(b[33] == some[11]);
    assert(b[34] == tail[0]);
}

} // verus!
