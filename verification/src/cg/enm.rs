//! The constructors generated for an enum: `__from_mask`, `from_array`, `from_slice`.

use vstd::prelude::*;
use vstd::arithmetic::power2::pow2;
use crate::ast::Variant;
use crate::ast::values::covers;
use crate::cg::{be_value, read_be};
use crate::hir::Enum;
use crate::hir::enm::is_default;
use crate::hir::mask::{mask_bits, lemma_mask_bits};
use crate::num::{ceil_div, pow2_u128, div_ceil8_u32};
use crate::cg::item::{
    bits_body, bits_body_tokens, bits_impl, bits_impl_tokens, byte_array, byte_array_token, const_fn,
    const_fn_tokens, empty_tokens, hidden_attr, hidden_tokens, inline_attr, inline_tokens, option_path,
    option_path_tokens, option_tokens, option_variant, outer_attr, outer_attr_tokens, take_or_none,
    take_or_none_tokens, last_body, checked_split_count, lemma_take_or_none_count,
};
use crate::cg::layout::{colons, ident, num, punct, uint_ident, uint_tokens, uint_trees};
use crate::cg::variant::{arm_trees, def_trees, arm_take, lemma_arm_reads};
use crate::reader::zero_u8;
use crate::cg::run::{byte_array_len, diff_group, fn_params, is_ident, is_punct, lemma_byte_array_len, lemma_lit_num, lemma_uint_name, lit_num, prim_width, zeroed_array};
use crate::text::dec;
use crate::tt::{Delimiter, Token, Tree, copy_tokens, group, lemma_trees_index, number, put, put_all, trees, word};

verus! {

/// The value that a constructor produced: the variant, and the value it
/// carries unless it is a unit variant.
#[derive(Debug, Copy, Clone, PartialEq, Eq, Structural)]
pub struct Decoded {
    pub variant: usize,
    pub value: Option<u128>,
}

/// The arm of variant `v` matches the value `x`.
pub open spec fn arm_matches(v: Variant, x: int) -> bool {
    is_default(v) || covers(v.values@, x)
}

/// Some arm of `vs` matches `x`.
pub open spec fn has_arm(vs: Seq<Variant>, x: int) -> bool {
    exists|i: int| 0 <= i < vs.len() && arm_matches(#[trigger] vs[i], x)
}

/// The variant is declared without a value (its pattern is a single value).
pub open spec fn is_unit(v: Variant) -> bool {
    v.values@.len() == 1 && v.values@[0].start == v.values@[0].end
}

/// `d` is what the match over the arms of `vs`, in order, yields for `x`.
pub open spec fn decodes_to(vs: Seq<Variant>, x: int, d: Decoded) -> bool {
    &&& 0 <= d.variant < vs.len()
    &&& arm_matches(vs[d.variant as int], x)
    &&& forall|k: int| 0 <= k < d.variant ==> !arm_matches(#[trigger] vs[k], x)
    &&& d.value == (if is_unit(vs[d.variant as int]) { None } else { Some(x as u128) })
}

/// The low `size` bits of `val`.
pub open spec fn masked(size: nat, val: int) -> int {
    val % pow2(size) as int
}

/// The variant declarations, joined by `,`.
pub open spec fn defs_trees(vs: Seq<Variant>, mask: Seq<Tree>) -> Seq<Tree>
    decreases vs.len(),
{
    if vs.len() == 0 {
        Seq::empty()
    } else if vs.len() == 1 {
        def_trees(vs[0], mask)
    } else {
        defs_trees(vs.drop_last(), mask) + seq![punct(',')] + def_trees(vs.last(), mask)
    }
}

/// The match arms, each followed by `,`.
pub open spec fn arms_trees(vs: Seq<Variant>) -> Seq<Tree>
    decreases vs.len(),
{
    if vs.len() == 0 {
        Seq::empty()
    } else {
        arms_trees(vs.drop_last()) + arm_trees(vs.last()) + seq![punct(',')]
    }
}

/// The body of `__from_mask`: the low `size` bits of `val` matched against
/// the arms in order, then `_ => unreachable!(),`.
pub open spec fn from_mask_body(e: Enum) -> Seq<Tree> {
    let mt = uint_trees(e.mask.size as nat);
    seq![
        ident("match"@), ident("val"@), punct('&'),
        Tree::Group(Delimiter::Parenthesis, mt + colons() + seq![
            ident("MAX"@), punct('>'), punct('>'),
            Tree::Group(Delimiter::Parenthesis, seq![num(e.mask.size as int), punct('-'), num(e.size as int)]),
        ]),
        Tree::Group(Delimiter::Brace, arms_trees(e.variants@) + seq![
            ident("_"@), punct('='), punct('>'), ident("unreachable"@), punct('!'),
            Tree::Group(Delimiter::Parenthesis, Seq::empty()), punct(','),
        ]),
    ]
}

/// `let mut buffer = [0u8; mb]; buffer.split_at_mut(mb - bytes).1.copy_from_slice(src);`
pub open spec fn buffer_fill(mb: int, bytes: int, src: Seq<Tree>) -> Seq<Tree> {
    seq![
        ident("let"@), ident("mut"@), ident("buffer"@), punct('='),
        Tree::Group(Delimiter::Bracket, seq![zero_u8(), punct(';'), num(mb)]), punct(';'), ident("buffer"@),
        punct('.'), ident("split_at_mut"@), Tree::Group(Delimiter::Parenthesis, seq![num(mb), punct('-'), num(bytes)]),
        punct('.'), num(1), punct('.'), ident("copy_from_slice"@), Tree::Group(Delimiter::Parenthesis, src),
        punct(';'),
    ]
}

/// `Self::__from_mask(mt::from_be_bytes(buffer))`
pub open spec fn decode_call(mt: Seq<Tree>) -> Seq<Tree> {
    seq![ident("Self"@)] + colons() + seq![
        ident("__from_mask"@),
        Tree::Group(Delimiter::Parenthesis, mt + colons() + seq![
            ident("from_be_bytes"@), Tree::Group(Delimiter::Parenthesis, seq![ident("buffer"@)]),
        ]),
    ]
}

/// The derives of the generated enum.
pub open spec fn enum_derive() -> Seq<Tree> {
    outer_attr(seq![
        ident("derive"@),
        Tree::Group(Delimiter::Parenthesis, seq![
            ident("Debug"@), punct(','), ident("Copy"@), punct(','), ident("Clone"@), punct(','),
            ident("PartialEq"@), punct(','), ident("Eq"@),
        ]),
    ])
}

/// The enum declaration, `repr` as wide as its mask, and its `Bits` impl.
pub open spec fn enum_head(e: Enum) -> Seq<Tree> {
    let mt = uint_trees(e.mask.size as nat);
    trees(e.attr@) + enum_derive() + outer_attr(seq![
        ident("repr"@),
        Tree::Group(Delimiter::Parenthesis, seq![ident("C"@), punct(','), ident(seq!['u'] + dec(e.mask.size as nat))]),
    ]) + trees(e.vis@) + seq![ident("enum"@), ident(e.name@), Tree::Group(Delimiter::Brace, defs_trees(e.variants@, mt))]
        + bits_impl(e.name@, bits_body(mt, seq![ident("Self"@)], e.size as int))
}

/// `__from_mask`: the low bits of the value matched against the arms.
pub open spec fn from_mask_fn(e: Enum) -> Seq<Tree> {
    const_fn(
        inline_attr() + hidden_attr(),
        trees(e.vis@),
        "__from_mask"@,
        seq![ident("val"@), punct(':')] + uint_trees(e.mask.size as nat),
        seq![ident("Self"@)],
        from_mask_body(e),
    )
}

/// `from_array`: the bytes, big-endian, as the low bytes of the mask.
pub open spec fn from_array_fn(e: Enum) -> Seq<Tree> {
    const_fn(
        inline_attr(),
        trees(e.vis@),
        "from_array"@,
        seq![ident("val"@), punct(':'), byte_array(e.bytes())],
        seq![ident("Self"@)],
        buffer_fill((e.mask.size / 8) as int, e.bytes(), seq![punct('&'), ident("val"@)]) + decode_call(
            uint_trees(e.mask.size as nat),
        ),
    )
}

/// `from_slice`: `None` for a slice shorter than the enum, else its first
/// bytes read as `from_array` reads them.
pub open spec fn from_slice_fn(e: Enum) -> Seq<Tree> {
    const_fn(
        inline_attr(),
        trees(e.vis@),
        "from_slice"@,
        seq![ident("val"@), punct(':'), punct('&'), Tree::Group(Delimiter::Bracket, uint_trees(8))],
        option_path() + seq![punct('<'), ident("Self"@), punct('>')],
        take_or_none("val"@, e.bytes()) + buffer_fill((e.mask.size / 8) as int, e.bytes(), seq![ident("val"@)])
            + option_variant("Some"@) + seq![
            Tree::Group(Delimiter::Parenthesis, decode_call(uint_trees(e.mask.size as nat))),
        ],
    )
}

/// The items generated for an enum: the enum itself, `repr` as wide as its
/// mask; its `Bits` impl; `__from_mask`, which matches the value's low bits
/// against the arms; `from_array`, which reads the bytes big-endian into the
/// mask; and `from_slice`, which does so for the first bytes of a slice, or
/// gives `None` when the slice is shorter.
pub open spec fn enum_item_trees(e: Enum) -> Seq<Tree> {
    enum_head(e) + seq![
        ident("impl"@),
        ident(e.name@),
        Tree::Group(Delimiter::Brace, from_mask_fn(e) + from_array_fn(e) + from_slice_fn(e)),
    ]
}

/// The tokens of `defs_trees`.
fn defs_tokens(vs: &Vec<Variant>, mask: &Vec<Token>) -> (r: Vec<Token>)
    ensures
        trees(r@) == defs_trees(vs@, trees(mask@)),
{
    let mut out = empty_tokens();
    let mut i: usize = 0;
    proof {
        assert(vs@.take(0) =~= Seq::<Variant>::empty());
    }
    while i < vs.len()
        invariant
            i <= vs@.len(),
            trees(out@) == defs_trees(vs@.take(i as int), trees(mask@)),
        decreases vs.len() - i,
    {
        if i > 0 {
            put(&mut out, Token::Punct(','));
        }
        put_all(&mut out, vs[i].quote_def(mask));
        proof {
            let t = vs@.take(i + 1);
            assert(t.drop_last() =~= vs@.take(i as int));
            assert(t.last() == vs@[i as int]);
            if i == 0 {
                assert(trees(out@) =~= def_trees(vs@[0], trees(mask@)));
            } else {
                assert(trees(out@) =~= defs_trees(vs@.take(i as int), trees(mask@)) + seq![punct(',')] + def_trees(
                    vs@[i as int],
                    trees(mask@),
                ));
            }
        }
        i = i + 1;
    }
    proof {
        assert(vs@.take(vs@.len() as int) =~= vs@);
    }
    out
}

/// The tokens of `arms_trees`.
fn arms_tokens(vs: &Vec<Variant>) -> (r: Vec<Token>)
    ensures
        trees(r@) == arms_trees(vs@),
{
    let mut out = empty_tokens();
    let mut i: usize = 0;
    proof {
        assert(vs@.take(0) =~= Seq::<Variant>::empty());
    }
    while i < vs.len()
        invariant
            i <= vs@.len(),
            trees(out@) == arms_trees(vs@.take(i as int)),
        decreases vs.len() - i,
    {
        put_all(&mut out, vs[i].quote_arm());
        put(&mut out, Token::Punct(','));
        proof {
            let t = vs@.take(i + 1);
            assert(t.drop_last() =~= vs@.take(i as int));
            assert(t.last() == vs@[i as int]);
            assert(trees(out@) =~= arms_trees(vs@.take(i as int)) + arm_trees(vs@[i as int]) + seq![punct(',')]);
        }
        i = i + 1;
    }
    proof {
        assert(vs@.take(vs@.len() as int) =~= vs@);
    }
    out
}

/// The tokens of `buffer_fill`.
fn buffer_fill_tokens(mb: u32, bytes: u32, src: Vec<Token>) -> (r: Vec<Token>)
    ensures
        trees(r@) == buffer_fill(mb as int, bytes as int, trees(src@)),
{
    let size = vec![Token::Literal(vec![48u8, 117u8, 56u8]), Token::Punct(';'), number(mb as usize)];
    let diff = vec![number(mb as usize), Token::Punct('-'), number(bytes as usize)];
    proof {
        lemma_trees_index(size@);
        lemma_trees_index(diff@);
        assert(trees(size@) =~= seq![zero_u8(), punct(';'), num(mb as int)]);
        assert(trees(diff@) =~= seq![num(mb as int), punct('-'), num(bytes as int)]);
    }
    let ghost st = trees(src@);
    let v = vec![
        word("let"), word("mut"), word("buffer"), Token::Punct('='), group(Delimiter::Bracket, size),
        Token::Punct(';'), word("buffer"), Token::Punct('.'), word("split_at_mut"),
        group(Delimiter::Parenthesis, diff), Token::Punct('.'), number(1), Token::Punct('.'),
        word("copy_from_slice"), group(Delimiter::Parenthesis, src), Token::Punct(';'),
    ];
    proof {
        lemma_trees_index(v@);
        assert(trees(v@) =~= buffer_fill(mb as int, bytes as int, st));
    }
    v
}

/// The tokens of `decode_call`.
fn decode_call_tokens(mask_size: u32) -> (r: Vec<Token>)
    ensures
        trees(r@) == decode_call(uint_trees(mask_size as nat)),
{
    let buffer = vec![word("buffer")];
    proof {
        lemma_trees_index(buffer@);
        assert(trees(buffer@) =~= seq![ident("buffer"@)]);
    }
    let mut inner = uint_tokens(mask_size);
    let tail = vec![Token::Punct(':'), Token::Punct(':'), word("from_be_bytes"), group(Delimiter::Parenthesis, buffer)];
    proof {
        lemma_trees_index(tail@);
        assert(trees(tail@) =~= colons() + seq![
            ident("from_be_bytes"@), Tree::Group(Delimiter::Parenthesis, seq![ident("buffer"@)]),
        ]);
    }
    put_all(&mut inner, tail);
    let ghost it = trees(inner@);
    proof {
        assert(it =~= uint_trees(mask_size as nat) + colons() + seq![
            ident("from_be_bytes"@), Tree::Group(Delimiter::Parenthesis, seq![ident("buffer"@)]),
        ]);
    }
    let v = vec![
        word("Self"), Token::Punct(':'), Token::Punct(':'), word("__from_mask"), group(Delimiter::Parenthesis, inner),
    ];
    proof {
        lemma_trees_index(v@);
        assert(trees(v@) =~= decode_call(uint_trees(mask_size as nat)));
    }
    v
}

/// The tokens of `enum_derive`.
fn derive_tokens() -> (r: Vec<Token>)
    ensures
        trees(r@) == enum_derive(),
{
    let names = vec![
        word("Debug"), Token::Punct(','), word("Copy"), Token::Punct(','), word("Clone"), Token::Punct(','),
        word("PartialEq"), Token::Punct(','), word("Eq"),
    ];
    proof {
        lemma_trees_index(names@);
        assert(trees(names@) =~= seq![
            ident("Debug"@), punct(','), ident("Copy"@), punct(','), ident("Clone"@), punct(','),
            ident("PartialEq"@), punct(','), ident("Eq"@),
        ]);
    }
    let ghost nt = trees(names@);
    let inner = vec![word("derive"), group(Delimiter::Parenthesis, names)];
    proof {
        lemma_trees_index(inner@);
        assert(trees(inner@) =~= seq![ident("derive"@), Tree::Group(Delimiter::Parenthesis, nt)]);
    }
    outer_attr_tokens(inner)
}

impl Enum {
    /// The tokens of `from_mask_body`.
    fn from_mask_body_tokens(&self) -> (r: Vec<Token>)
        ensures
            trees(r@) == from_mask_body(*self),
    {
        let diff = vec![number(self.mask.size as usize), Token::Punct('-'), number(self.size as usize)];
        proof {
            lemma_trees_index(diff@);
            assert(trees(diff@) =~= seq![num(self.mask.size as int), punct('-'), num(self.size as int)]);
        }
        let ghost dt = trees(diff@);
        let mut cut = uint_tokens(self.mask.size);
        let max = vec![
            Token::Punct(':'), Token::Punct(':'), word("MAX"), Token::Punct('>'), Token::Punct('>'),
            group(Delimiter::Parenthesis, diff),
        ];
        proof {
            lemma_trees_index(max@);
            assert(trees(max@) =~= colons() + seq![
                ident("MAX"@), punct('>'), punct('>'), Tree::Group(Delimiter::Parenthesis, dt),
            ]);
        }
        put_all(&mut cut, max);
        let ghost ct = trees(cut@);
        proof {
            assert(ct =~= uint_trees(self.mask.size as nat) + colons() + seq![
                ident("MAX"@), punct('>'), punct('>'),
                Tree::Group(Delimiter::Parenthesis, seq![num(self.mask.size as int), punct('-'), num(self.size as int)]),
            ]);
        }
        let mut arms = arms_tokens(&self.variants);
        let last = vec![
            word("_"), Token::Punct('='), Token::Punct('>'), word("unreachable"), Token::Punct('!'),
            group(Delimiter::Parenthesis, empty_tokens()), Token::Punct(','),
        ];
        proof {
            lemma_trees_index(last@);
            assert(trees(last@) =~= seq![
                ident("_"@), punct('='), punct('>'), ident("unreachable"@), punct('!'),
                Tree::Group(Delimiter::Parenthesis, Seq::empty()), punct(','),
            ]);
        }
        put_all(&mut arms, last);
        let ghost at = trees(arms@);
        proof {
            assert(at =~= arms_trees(self.variants@) + seq![
                ident("_"@), punct('='), punct('>'), ident("unreachable"@), punct('!'),
                Tree::Group(Delimiter::Parenthesis, Seq::empty()), punct(','),
            ]);
        }
        let v = vec![
            word("match"), word("val"), Token::Punct('&'), group(Delimiter::Parenthesis, cut),
            group(Delimiter::Brace, arms),
        ];
        proof {
            lemma_trees_index(v@);
            assert(trees(v@) =~= from_mask_body(*self));
        }
        v
    }

    /// The tokens of `enum_head`.
    fn head_tokens(&self) -> (r: Vec<Token>)
        ensures
            trees(r@) == enum_head(*self),
    {
        let name = self.name.as_str();
        let repr_args = vec![word("C"), Token::Punct(','), uint_ident(self.mask.size)];
        proof {
            lemma_trees_index(repr_args@);
            assert(trees(repr_args@) =~= seq![ident("C"@), punct(','), ident(seq!['u'] + dec(self.mask.size as nat))]);
        }
        let ghost rt = trees(repr_args@);
        let repr = vec![word("repr"), group(Delimiter::Parenthesis, repr_args)];
        proof {
            lemma_trees_index(repr@);
            assert(trees(repr@) =~= seq![ident("repr"@), Tree::Group(Delimiter::Parenthesis, rt)]);
        }
        let defs = defs_tokens(&self.variants, &uint_tokens(self.mask.size));
        let ghost dt = trees(defs@);
        let decl = vec![word("enum"), word(name), group(Delimiter::Brace, defs)];
        proof {
            lemma_trees_index(decl@);
            assert(trees(decl@) =~= seq![ident("enum"@), ident(self.name@), Tree::Group(Delimiter::Brace, dt)]);
        }
        let read = vec![word("Self")];
        proof {
            lemma_trees_index(read@);
            assert(trees(read@) =~= seq![ident("Self"@)]);
        }
        let mut out = copy_tokens(&self.attr);
        put_all(&mut out, derive_tokens());
        put_all(&mut out, outer_attr_tokens(repr));
        put_all(&mut out, copy_tokens(&self.vis));
        put_all(&mut out, decl);
        put_all(&mut out, bits_impl_tokens(name, bits_body_tokens(uint_tokens(self.mask.size), read, self.size)));
        out
    }

    /// The tokens of `from_mask_fn`.
    fn from_mask_fn_tokens(&self) -> (r: Vec<Token>)
        ensures
            trees(r@) == from_mask_fn(*self),
    {
        let mut attrs = inline_tokens();
        put_all(&mut attrs, hidden_tokens());
        let mut params = vec![word("val"), Token::Punct(':')];
        proof {
            lemma_trees_index(params@);
            assert(trees(params@) =~= seq![ident("val"@), punct(':')]);
        }
        put_all(&mut params, uint_tokens(self.mask.size));
        let ret = vec![word("Self")];
        proof {
            lemma_trees_index(ret@);
            assert(trees(ret@) =~= seq![ident("Self"@)]);
        }
        const_fn_tokens(attrs, copy_tokens(&self.vis), "__from_mask", params, ret, self.from_mask_body_tokens())
    }

    /// The tokens of `from_array_fn`.
    fn from_array_fn_tokens(&self) -> (r: Vec<Token>)
        ensures
            trees(r@) == from_array_fn(*self),
    {
        let mb = self.mask.size / 8;
        let bytes = div_ceil8_u32(self.size);
        let params = vec![word("val"), Token::Punct(':'), byte_array_token(bytes)];
        proof {
            lemma_trees_index(params@);
            assert(trees(params@) =~= seq![ident("val"@), punct(':'), byte_array(bytes as int)]);
        }
        let src = vec![Token::Punct('&'), word("val")];
        proof {
            lemma_trees_index(src@);
            assert(trees(src@) =~= seq![punct('&'), ident("val"@)]);
        }
        let mut fill = buffer_fill_tokens(mb, bytes, src);
        put_all(&mut fill, decode_call_tokens(self.mask.size));
        let ret = vec![word("Self")];
        proof {
            lemma_trees_index(ret@);
            assert(trees(ret@) =~= seq![ident("Self"@)]);
        }
        const_fn_tokens(inline_tokens(), copy_tokens(&self.vis), "from_array", params, ret, fill)
    }

    /// The tokens of `from_slice_fn`.
    fn from_slice_fn_tokens(&self) -> (r: Vec<Token>)
        ensures
            trees(r@) == from_slice_fn(*self),
    {
        let mb = self.mask.size / 8;
        let bytes = div_ceil8_u32(self.size);
        let mut params = vec![word("val"), Token::Punct(':'), Token::Punct('&')];
        proof {
            lemma_trees_index(params@);
            assert(trees(params@) =~= seq![ident("val"@), punct(':'), punct('&')]);
        }
        put(&mut params, group(Delimiter::Bracket, uint_tokens(8)));
        let mut ret = option_path_tokens();
        let angle = vec![Token::Punct('<'), word("Self"), Token::Punct('>')];
        proof {
            lemma_trees_index(angle@);
            assert(trees(angle@) =~= seq![punct('<'), ident("Self"@), punct('>')]);
        }
        put_all(&mut ret, angle);
        let src = vec![word("val")];
        proof {
            lemma_trees_index(src@);
            assert(trees(src@) =~= seq![ident("val"@)]);
        }
        let mut body = take_or_none_tokens("val", bytes);
        put_all(&mut body, buffer_fill_tokens(mb, bytes, src));
        put_all(&mut body, option_tokens("Some"));
        put(&mut body, group(Delimiter::Parenthesis, decode_call_tokens(self.mask.size)));
        proof {
            assert(trees(params@) =~= seq![
                ident("val"@), punct(':'), punct('&'), Tree::Group(Delimiter::Bracket, uint_trees(8)),
            ]);
            assert(trees(ret@) =~= option_path() + seq![punct('<'), ident("Self"@), punct('>')]);
            assert(trees(body@) =~= take_or_none("val"@, self.bytes()) + buffer_fill(
                (self.mask.size / 8) as int,
                self.bytes(),
                seq![ident("val"@)],
            ) + option_variant("Some"@) + seq![
                Tree::Group(Delimiter::Parenthesis, decode_call(uint_trees(self.mask.size as nat))),
            ]);
        }
        const_fn_tokens(inline_tokens(), copy_tokens(&self.vis), "from_slice", params, ret, body)
    }

    /// The items generated for the enum (see `enum_item_trees`).
    pub fn quote_item(&self) -> (r: Vec<Token>)
        ensures
            trees(r@) == enum_item_trees(*self),
    {
        let mut body = self.from_mask_fn_tokens();
        put_all(&mut body, self.from_array_fn_tokens());
        put_all(&mut body, self.from_slice_fn_tokens());
        let ghost bt = trees(body@);
        let tail = vec![word("impl"), word(self.name.as_str()), group(Delimiter::Brace, body)];
        proof {
            lemma_trees_index(tail@);
            assert(trees(tail@) =~= seq![ident("impl"@), ident(self.name@), Tree::Group(Delimiter::Brace, bt)]);
        }
        let mut out = self.head_tokens();
        put_all(&mut out, tail);
        out
    }
}

impl Enum {
    /// Every value of `size` bits matches some arm.
    pub open spec fn total(self) -> bool {
        forall|x: int| 0 <= x < pow2(self.size as nat) ==> #[trigger] has_arm(self.variants@, x)
    }

    /// The enum can be generated: 1 to 128 bits, its mask, and an arm for every value.
    pub open spec fn wf(self) -> bool {
        &&& 1 <= self.size <= 128
        &&& self.mask.size == mask_bits(self.size as int)
        &&& self.total()
    }

    /// The bytes of the enum: `size` bits rounded up.
    pub open spec fn bytes(self) -> int {
        ceil_div(self.size as int, 8)
    }

    /// `__from_mask`: matches the low `size` bits of `val` against the arms in order.
    #[verifier::loop_isolation(false)]
    pub fn from_mask(&self, val: u128) -> (r: Decoded)
        requires
            self.wf(),
        ensures
            decodes_to(self.variants@, masked(self.size as nat, val as int), r),
    {
        let x: u128 = if self.size == 128 {
            proof {
                crate::num::lemma_pow2_127();
                vstd::arithmetic::power2::lemma_pow2_unfold(128);
                vstd::arithmetic::div_mod::lemma_small_mod(val as nat, pow2(128));
            }
            val
        } else {
            proof {
                vstd::arithmetic::power2::lemma_pow2_pos(self.size as nat);
            }
            val % pow2_u128(self.size)
        };
        proof {
            vstd::arithmetic::power2::lemma_pow2_pos(self.size as nat);
            assert(0 <= x < pow2(self.size as nat));
        }
        let mut i: usize = 0;
        while i < self.variants.len()
            invariant
                self.wf(),
                i <= self.variants@.len(),
                x == masked(self.size as nat, val as int),
                0 <= x < pow2(self.size as nat),
                forall|k: int| 0 <= k < i ==> !arm_matches(#[trigger] self.variants@[k], x as int),
            decreases self.variants.len() - i,
        {
            let values = self.variants[i].values.iter();
            if values.len() == 0 {
                return Decoded { variant: i, value: Some(x) };
            }
            let mut j: usize = 0;
            while j < values.len()
                invariant
                    i < self.variants@.len(),
                    j <= values@.len(),
                    values@ == self.variants@[i as int].values@,
                    forall|k: int| 0 <= k < j ==> !(#[trigger] values@[k]).contains(x as int),
                decreases values.len() - j,
            {
                if values[j].start <= x && x <= values[j].end {
                    proof {
                        assert(values@[j as int].contains(x as int));
                    }
                    let unit = values.len() == 1 && values[0].start == values[0].end;
                    if unit {
                        return Decoded { variant: i, value: None };
                    } else {
                        return Decoded { variant: i, value: Some(x) };
                    }
                }
                j = j + 1;
            }
            i = i + 1;
        }
        proof {
            assert(has_arm(self.variants@, x as int));
            let k = choose|k: int| 0 <= k < self.variants@.len() && arm_matches(#[trigger] self.variants@[k], x as int);
            assert(false);
        }
        Decoded { variant: 0, value: None }
    }

    /// `from_array`: the bytes, big-endian, as the low bytes of the mask.
    pub fn from_array(&self, val: &[u8]) -> (r: Decoded)
        requires
            self.wf(),
            val@.len() == self.bytes(),
        ensures
            decodes_to(self.variants@, masked(self.size as nat, be_value(val@) as int), r),
    {
        let bytes = div_ceil8_u32(self.size);
        proof {
            assert(val@.subrange(0, bytes as int) == val@);
        }
        let v = read_be(val, 0, bytes as usize);
        self.from_mask(v)
    }

    /// `from_slice`: `None` when the slice is shorter than the enum;
    /// otherwise `from_array` of its first bytes.
    pub fn from_slice(&self, val: &[u8]) -> (r: Option<Decoded>)
        requires
            self.wf(),
        ensures
            val@.len() < self.bytes() ==> r is None,
            val@.len() >= self.bytes() ==> (r matches Some(d) && decodes_to(
                self.variants@,
                masked(self.size as nat, be_value(val@.subrange(0, self.bytes())) as int),
                d,
            )),
    {
        let bytes = div_ceil8_u32(self.size) as usize;
        if val.len() < bytes {
            return None;
        }
        proof {
            crate::hir::mask::lemma_mask_bits_le_128(self.size as int);
            assert(bytes <= 16);
        }
        let v = read_be(val, 0, bytes);
        Some(self.from_mask(v))
    }
}

/// The match over the arms yields one value for each input: so
/// `from_slice` of a slice is `from_array` of its first bytes.
pub proof fn lemma_decoding_is_unique(vs: Seq<Variant>, x: int, d1: Decoded, d2: Decoded)
    requires
        decodes_to(vs, x, d1),
        decodes_to(vs, x, d2),
    ensures
        d1 == d2,
{
    if d1.variant < d2.variant {
        assert(!arm_matches(vs[d1.variant as int], x));
    } else if d2.variant < d1.variant {
        assert(!arm_matches(vs[d2.variant as int], x));
    }
}

/// The generated `from_slice` of an enum splits off exactly the enum's
/// bytes, `ceil(size / 8)`: the count that `Enum::from_slice` takes.
pub proof fn lemma_from_slice_takes_enum_bytes(e: Enum)
    ensures
        checked_split_count(last_body(from_slice_fn(e))) == Some(ceil_div(e.size as int, 8)),
{
    let rest = buffer_fill((e.mask.size / 8) as int, e.bytes(), seq![ident("val"@)]) + option_variant("Some"@)
        + seq![Tree::Group(Delimiter::Parenthesis, decode_call(uint_trees(e.mask.size as nat)))];
    let body = take_or_none("val"@, e.bytes()) + rest;
    assert(last_body(from_slice_fn(e)) =~= body);
    lemma_take_or_none_count("val"@, e.bytes() as nat, rest);
}

/// The generated `from_array` of an enum takes an array of exactly the
/// enum's `ceil(size / 8)` bytes and copies them into the last bytes of a
/// buffer as wide as the mask (`M / 8` bytes for a `uM` mask).
pub proof fn lemma_enum_from_array_reads(e: Enum)
    ensures
        fn_params(from_array_fn(e), 1) matches Some(p) && p.len() == 3 && is_ident(p[0], "val"@) && is_punct(
            p[1],
            ':',
        ) && byte_array_len(p[2]) == Some(ceil_div(e.size as int, 8)),
        zeroed_array(last_body(from_array_fn(e))[4]) == Some((e.mask.size / 8) as int),
        diff_group(last_body(from_array_fn(e))[9]) == Some(((e.mask.size / 8) as int, ceil_div(e.size as int, 8))),
        is_ident(last_body(from_array_fn(e))[13], "copy_from_slice"@),
{
    lemma_byte_array_len(e.bytes() as nat);
    lemma_lit_num((e.mask.size / 8) as nat);
    lemma_lit_num(e.bytes() as nat);
    let b = last_body(from_array_fn(e));
    assert(b =~= buffer_fill((e.mask.size / 8) as int, e.bytes(), seq![punct('&'), ident("val"@)]) + decode_call(
        uint_trees(e.mask.size as nat),
    ));
}

/// The generated `__from_mask` of an enum matches the value cut to its
/// `size` bits: `val & (uM::MAX >> (M - size))` for its `uM` mask.
pub proof fn lemma_enum_from_mask_cut(e: Enum)
    ensures
        last_body(from_mask_fn(e))[3] matches Tree::Group(Delimiter::Parenthesis, c) && c.len() == 15 && prim_width(
            c,
            0,
        ) == Some(e.mask.size as nat) && is_ident(c[11], "MAX"@) && is_punct(c[12], '>') && is_punct(c[13], '>')
            && diff_group(c[14]) == Some((e.mask.size as int, e.size as int)),
        is_ident(last_body(from_mask_fn(e))[0], "match"@) && is_ident(last_body(from_mask_fn(e))[1], "val"@)
            && is_punct(last_body(from_mask_fn(e))[2], '&'),
{
    lemma_uint_name(e.mask.size as nat);
    lemma_lit_num(e.mask.size as nat);
    lemma_lit_num(e.size as nat);
    let c = uint_trees(e.mask.size as nat) + colons() + seq![
        ident("MAX"@), punct('>'), punct('>'),
        Tree::Group(Delimiter::Parenthesis, seq![num(e.mask.size as int), punct('-'), num(e.size as int)]),
    ];
    assert(uint_trees(e.mask.size as nat) =~= seq![
        punct(':'), punct(':'), ident("core"@), punct(':'), punct(':'), ident("primitive"@), punct(':'), punct(':'),
        ident(seq!['u'] + dec(e.mask.size as nat)),
    ]);
    assert(prim_width(c, 0) == Some(e.mask.size as nat));
    assert(last_body(from_mask_fn(e)) == from_mask_body(e));
}

/// The arms of a match, read from their trees, each ended by `,`, applied to
/// `x` in order: the first arm that takes `x` decides (`Some(None)` when
/// none does); `None` when the trees are not such arms.
#[verifier::opaque]
pub open spec fn arms_take(t: Seq<Tree>, x: int) -> Option<Option<(Seq<char>, Option<int>)>>
    decreases t.len(),
{
    if t.len() == 0 {
        Some(None)
    } else if t.last() == Tree::Punct(',') {
        let body = t.drop_last();
        let (prev, arm) = if exists|j: int| 0 <= j < body.len() && body[j] == Tree::Punct(',') {
            let j = choose|j: int|
                0 <= j < body.len() && body[j] == Tree::Punct(',') && forall|k: int|
                    j < k < body.len() ==> body[k] != Tree::Punct(',');
            (body.take(j + 1), body.skip(j + 1))
        } else {
            (Seq::empty(), body)
        };
        if prev.len() < t.len() {
            match (arms_take(prev, x), arm_take(arm, x)) {
                (Some(Some(r)), Some(_)) => Some(Some(r)),
                (Some(None), Some(a)) => Some(a),
                _ => None,
            }
        } else {
            None
        }
    } else {
        None
    }
}

/// An arm has no `,` of its own.
proof fn lemma_arm_no_comma(v: Variant)
    ensures
        forall|k: int| 0 <= k < arm_trees(v).len() ==> arm_trees(v)[k] != Tree::Punct(','),
{
    let a = arm_trees(v);
    let bound = crate::cg::variant::self_path(v.name@) + seq![Tree::Group(Delimiter::Parenthesis, seq![ident("val"@)])];
    if v.values@.len() == 0 {
        assert(a =~= seq![ident("val"@), punct('='), punct('>'), ident("Self"@), punct(':'), punct(':'), ident(v.name@),
            Tree::Group(Delimiter::Parenthesis, seq![ident("val"@)])]);
    } else if is_unit(v) {
        assert(a =~= seq![num(v.values@[0].start as int), punct('='), punct('>'), ident("Self"@), punct(':'), punct(':'),
            ident(v.name@)]);
    } else {
        assert(a =~= seq![ident("val"@), punct('@'), Tree::Group(Delimiter::Parenthesis, crate::cg::variant::alts_trees(v.values@)),
            punct('='), punct('>'), ident("Self"@), punct(':'), punct(':'), ident(v.name@),
            Tree::Group(Delimiter::Parenthesis, seq![ident("val"@)])]);
    }
}

/// Reading one more arm after arms that end with `,` (or none).
proof fn lemma_arms_take_step(a: Seq<Tree>, arm: Seq<Tree>, x: int)
    requires
        a.len() == 0 || a.last() == Tree::Punct(','),
        forall|k: int| 0 <= k < arm.len() ==> arm[k] != Tree::Punct(','),
    ensures
        arms_take(a + arm + seq![Tree::Punct(',')], x) == match (arms_take(a, x), arm_take(arm, x)) {
            (Some(Some(r)), Some(_)) => Some(Some(r)),
            (Some(None), Some(b)) => Some(b),
            _ => None,
        },
{
    reveal(arms_take);
    let t = a + arm + seq![Tree::Punct(',')];
    let body = a + arm;
    assert(t.drop_last() =~= body);
    assert(t.last() == Tree::Punct(','));
    if a.len() > 0 {
        let j0 = a.len() - 1;
        assert(body[j0] == Tree::Punct(','));
        assert forall|k: int| j0 < k < body.len() implies body[k] != Tree::Punct(',') by {
            assert(body[k] == arm[k - a.len()]);
        }
        let j = choose|j: int|
            0 <= j < body.len() && body[j] == Tree::Punct(',') && forall|k: int|
                j < k < body.len() ==> body[k] != Tree::Punct(',');
        assert(j == j0) by {
            if j < j0 {
            } else if j > j0 {
                assert(body[j] == arm[j - a.len()]);
            }
        }
        assert(body.take(j + 1) =~= a);
        assert(body.skip(j + 1) =~= arm);
    } else {
        assert(body =~= arm);
        assert(!(exists|j: int| 0 <= j < body.len() && body[j] == Tree::Punct(','))) by {
            if exists|j: int| 0 <= j < body.len() && body[j] == Tree::Punct(',') {
                let j = choose|j: int| 0 <= j < body.len() && body[j] == Tree::Punct(',');
                assert(body[j] == arm[j]);
            }
        }
        assert(a =~= Seq::<Tree>::empty());
    }
}

/// No arms read as taking nothing.
proof fn lemma_arms_take_empty(x: int)
    ensures
        arms_take(Seq::empty(), x) == Some(None::<(Seq<char>, Option<int>)>),
{
    reveal(arms_take);
}

/// The match arms generated for the variants, read as code, send every
/// value to the first variant whose pattern takes it, carrying the value
/// unless that variant is a unit one: what `Enum::from_mask` decodes.
pub proof fn lemma_match_reads(vs: Seq<Variant>, x: int)
    ensures
        forall|d: Decoded|
            decodes_to(vs, x, d) ==> arms_take(arms_trees(vs), x) == Some(
                Some((vs[d.variant as int].name@, if is_unit(vs[d.variant as int]) { None::<int> } else { Some(x) })),
            ),
        (forall|i: int| 0 <= i < vs.len() ==> !arm_matches(#[trigger] vs[i], x)) ==> arms_take(arms_trees(vs), x)
            == Some(None::<(Seq<char>, Option<int>)>),
    decreases vs.len(),
{
    if vs.len() == 0 {
        lemma_arms_take_empty(x);
        assert(arms_trees(vs) == Seq::<Tree>::empty());
    } else {
        let p = vs.drop_last();
        let v = vs.last();
        lemma_match_reads(p, x);
        lemma_arm_reads(v, x);
        lemma_arm_no_comma(v);
        let a = arms_trees(p);
        assert(p.len() > 0 ==> a.last() == Tree::Punct(','));
        assert(p.len() == 0 ==> a.len() == 0);
        lemma_arms_take_step(a, arm_trees(v), x);
        assert(arms_trees(vs) == a + arm_trees(v) + seq![Tree::Punct(',')]);
        assert forall|d: Decoded| decodes_to(vs, x, d) implies arms_take(arms_trees(vs), x) == Some(
            Some((vs[d.variant as int].name@, if is_unit(vs[d.variant as int]) { None::<int> } else { Some(x) })),
        ) by {
            if d.variant < p.len() {
                assert(decodes_to(p, x, d)) by {
                    assert forall|k: int| 0 <= k < d.variant implies !arm_matches(#[trigger] p[k], x) by {
                        assert(p[k] == vs[k]);
                    }
                    assert(p[d.variant as int] == vs[d.variant as int]);
                }
                assert(p[d.variant as int] == vs[d.variant as int]);
            } else {
                assert forall|i: int| 0 <= i < p.len() implies !arm_matches(#[trigger] p[i], x) by {
                    assert(p[i] == vs[i]);
                }
            }
        }
        if forall|i: int| 0 <= i < vs.len() ==> !arm_matches(#[trigger] vs[i], x) {
            assert forall|i: int| 0 <= i < p.len() implies !arm_matches(#[trigger] p[i], x) by {
                assert(p[i] == vs[i]);
            }
            assert(!arm_matches(vs[vs.len() - 1], x));
        }
    }
}

} // verus!
