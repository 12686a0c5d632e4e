//! What a generated getter computes from the plan of its field.

use vstd::prelude::*;
use vstd::arithmetic::power2::pow2;
use crate::cg::{be_value, field_bits, read_be, lemma_be_value_bound, lemma_window};
use crate::hir::Layout;
use crate::hir::layout::lemma_layout_covers;
use crate::num::pow2_u128;
use crate::tt;
use crate::tt::{Delimiter, Token, Tree, usize_lit, usize_number, group, lemma_trees_index, number, put, put_all, trees, word, copy_tokens};
use crate::lit::decimal;
use crate::text::{dec, push_dec};
use vstd::string::*;
use vstd::utf8::encode_utf8;

verus! {

/// The value a getter returns.
#[derive(Debug, PartialEq, Eq)]
pub enum FieldValue {
    /// A one-bit field of no written type.
    Bool(bool),
    /// A field of no written type, as an unsigned integer.
    Uint(u128),
    /// The bytes of a byte-aligned field of a written type, for its `from_slice`.
    Bytes(Vec<u8>),
    /// The bits of an unaligned field of a written type, for its `__from_mask`.
    Mask(u128),
    /// The field is unaligned and wider than any mask; no getter is generated.
    Unsupported,
}

/// The value of the field read through plan `l` from `data`, as the generated
/// getter computes it: whole bytes for aligned fields, and otherwise the
/// bytes shifted right by `shr` and cut to `size` bits.
pub open spec fn read_spec(l: Layout, data: Seq<u8>, builtin: bool) -> int {
    let w = be_value(data.subrange(l.read_offset_bytes as int, l.read_offset_bytes + l.read_bytes)) as int;
    if l.aligned {
        w
    } else {
        (w / pow2(l.shr as nat) as int) % pow2(l.size as nat) as int
    }
}

/// What the getter returns for plan `l`, struct bytes `data`, and a field
/// of no written type (`builtin`) or of one.
pub open spec fn read_outcome(l: Layout, data: Seq<u8>, builtin: bool, r: FieldValue) -> bool {
    &&& l.aligned && builtin ==> r == FieldValue::Uint(read_spec(l, data, builtin) as u128)
    &&& l.aligned && !builtin ==> (r matches FieldValue::Bytes(b) && b@ == data.subrange(
        l.read_offset_bytes as int,
        l.read_offset_bytes + l.read_bytes,
    ))
    &&& !l.aligned && l.mask is None ==> r is Unsupported
    &&& !l.aligned && l.mask is Some && !builtin ==> r == FieldValue::Mask(read_spec(l, data, builtin) as u128)
    &&& !l.aligned && l.mask is Some && builtin && l.size > 1 ==> r == FieldValue::Uint(
        read_spec(l, data, builtin) as u128,
    )
    &&& !l.aligned && l.mask is Some && builtin && l.size == 1 ==> r == FieldValue::Bool(
        read_spec(l, data, builtin) == 1,
    )
}

impl Layout {
    /// The getter emitted for this plan, run on the struct bytes `data`;
    /// `builtin` tells a field of no written type.
    pub fn read(&self, data: &[u8], builtin: bool) -> (r: FieldValue)
        requires
            self.wf(),
            self.read_offset_bytes + self.read_bytes <= data@.len(),
            builtin && self.aligned ==> self.read_bytes <= 16,
            !self.aligned && self.mask is Some ==> 1 <= self.size,
        ensures
            read_outcome(*self, data@, builtin, r),
    {
        proof {
            lemma_layout_covers(tt::Layout { offset: self.offset, size: self.size });
        }
        let ro = self.read_offset_bytes;
        let rb = self.read_bytes;
        if self.aligned {
            if builtin {
                let v = read_be(data, ro, rb);
                FieldValue::Uint(v)
            } else {
                let mut out: Vec<u8> = Vec::new();
                let mut i: usize = 0;
                while i < rb
                    invariant
                        i <= rb,
                        ro + rb <= data.len(),
                        out@ == data@.subrange(ro as int, ro + i),
                    decreases rb - i,
                {
                    out.push(data[ro + i]);
                    proof {
                        assert(data@.subrange(ro as int, ro + i + 1) == data@.subrange(ro as int, ro + i).push(
                            data@[ro + i],
                        ));
                    }
                    i = i + 1;
                }
                FieldValue::Bytes(out)
            }
        } else if self.mask.is_some() {
            let v = read_be(data, ro, rb);
            proof {
                vstd::arithmetic::power2::lemma_pow2_pos(self.shr as nat);
                vstd::arithmetic::power2::lemma_pow2_pos(self.size as nat);
            }
            let v = v / pow2_u128(self.shr);
            let v = if self.size == 128 {
                proof {
                    crate::num::lemma_pow2_127();
                    vstd::arithmetic::power2::lemma_pow2_unfold(128);
                    vstd::arithmetic::div_mod::lemma_small_mod(v as nat, pow2(128));
                }
                v
            } else {
                v % pow2_u128(self.size)
            };
            if !builtin {
                FieldValue::Mask(v)
            } else if self.size > 1 {
                FieldValue::Uint(v)
            } else {
                FieldValue::Bool(v == 1)
            }
        } else {
            FieldValue::Unsupported
        }
    }
}

/// The getter of every plan returns the field's bits of the struct bytes.
pub proof fn lemma_read_is_field_bits(l: Layout, data: Seq<u8>, builtin: bool)
    requires
        l.wf(),
        l.read_offset_bytes + l.read_bytes <= data.len(),
    ensures
        read_spec(l, data, builtin) == field_bits(data, l.offset as int, l.size as int),
{
    lemma_layout_covers(tt::Layout { offset: l.offset, size: l.size });
    let ro = l.read_offset_bytes as int;
    let rb = l.read_bytes as int;
    lemma_window(data, ro, rb, l.offset as int, l.size as int);
    assert(8 * (ro + rb) - l.offset - l.size == l.shr);
    let w = be_value(data.subrange(ro, ro + rb)) as int;
    if l.aligned {
        assert(l.shr == 0);
        vstd::arithmetic::power2::lemma2_to64();
        assert(w / 1 == w);
        lemma_be_value_bound(data.subrange(ro, ro + rb));
        assert(8 * rb == l.size);
        vstd::arithmetic::div_mod::lemma_small_mod(w as nat, pow2(l.size as nat));
    }
}

/// The text of the error a getter is replaced with when no mask holds its
/// unaligned field.
pub open spec fn unsupported_text() -> Seq<u8> {
    encode_utf8("\"unaligned large custom types are not supported yet\""@)
}

/// The identifier tree `w`.
pub open spec fn ident(w: Seq<char>) -> Tree {
    Tree::Ident(w)
}

/// The punctuation tree `c`.
pub open spec fn punct(c: char) -> Tree {
    Tree::Punct(c)
}

/// The number `n`, written in decimal.
pub open spec fn num(n: int) -> Tree {
    Tree::Literal(decimal(n as nat))
}

/// `::`
pub open spec fn colons() -> Seq<Tree> {
    seq![punct(':'), punct(':')]
}

/// `::core::primitive::name`
pub open spec fn primitive(name: Seq<char>) -> Seq<Tree> {
    colons() + seq![ident("core"@)] + colons() + seq![ident("primitive"@)] + colons() + seq![ident(name)]
}

/// `::core::primitive::uN`
pub open spec fn uint_trees(bits: nat) -> Seq<Tree> {
    primitive(seq!['u'] + dec(bits))
}

/// The tokens of a field type.
pub open spec fn type_trees(ty: tt::Type) -> Seq<Tree> {
    match ty {
        tt::Type::Bool => primitive("bool"@),
        tt::Type::Literal(n) => uint_trees(n as nat),
        tt::Type::Named(ts) => trees(ts@),
    }
}

/// `let from = self.0.split_at(ro).1.split_at(rb).0;`
pub open spec fn window_trees(ro: int, rb: int) -> Seq<Tree> {
    seq![
        ident("let"@), ident("from"@), punct('='), ident("self"@), punct('.'), num(0), punct('.'),
        ident("split_at"@), Tree::Group(Delimiter::Parenthesis, seq![usize_lit(ro as nat)]), punct('.'), num(1),
        punct('.'), ident("split_at"@), Tree::Group(Delimiter::Parenthesis, seq![usize_lit(rb as nat)]), punct('.'),
        num(0), punct(';'),
    ]
}

/// `let mut buffer = [0u8; mb]; let into = buffer.split_at_mut(mb - rb).1;
/// ::bitx::copy(into, from);`: the window's bytes at the end of a buffer.
pub open spec fn buffer_trees(mb: int, rb: int) -> Seq<Tree> {
    seq![
        ident("let"@), ident("mut"@), ident("buffer"@), punct('='),
        Tree::Group(Delimiter::Bracket, seq![Tree::Literal(seq![48u8, 117u8, 56u8]), punct(';'), num(mb)]),
        punct(';'), ident("let"@), ident("into"@), punct('='), ident("buffer"@), punct('.'), ident("split_at_mut"@),
        Tree::Group(Delimiter::Parenthesis, seq![num(mb), punct('-'), usize_lit(rb as nat)]), punct('.'), num(1),
        punct(';'),
    ] + colons() + seq![ident("bitx"@)] + colons() + seq![
        ident("copy"@),
        Tree::Group(Delimiter::Parenthesis, seq![ident("into"@), punct(','), ident("from"@)]),
        punct(';'),
    ]
}

/// `<ty>`
pub open spec fn angle(ty: Seq<Tree>) -> Seq<Tree> {
    seq![punct('<')] + ty + seq![punct('>')]
}

/// `<ty>::f(arg)`
pub open spec fn call(ty: Seq<Tree>, f: Seq<char>, arg: Seq<char>) -> Seq<Tree> {
    angle(ty) + colons() + seq![ident(f), Tree::Group(Delimiter::Parenthesis, seq![ident(arg)])]
}

/// The last step of a masked read: the value as the field's type.
pub open spec fn convert_trees(l: Layout, ty: tt::Type, builtin: bool) -> Seq<Tree> {
    if !builtin {
        seq![ident("let"@), ident("val"@), punct('='), ident("val"@), ident("as"@), punct('<')] + type_trees(ty)
            + seq![ident("as"@)] + colons() + seq![ident("bitx"@)] + colons() + seq![ident("Bits"@), punct('>')]
            + colons() + seq![ident("Mask"@), punct(';')] + call(type_trees(ty), "__from_mask"@, "val"@)
    } else if l.size > 1 {
        seq![ident("val"@), ident("as"@)] + type_trees(ty)
    } else {
        seq![ident("val"@), punct('='), punct('='), num(1)]
    }
}

/// The body of the getter of plan `l` for a field of type `ty`
/// (`builtin`: of no written type). Aligned fields take their bytes (into a
/// mask-wide buffer for integers, through `from_slice` otherwise); unaligned
/// ones read the window through the mask, shift right by `shr` and keep
/// `size` bits; with no mask the getter is a compile error.
pub open spec fn read_tokens(l: Layout, ty: tt::Type, builtin: bool) -> Seq<Tree> {
    let window = window_trees(l.read_offset_bytes as int, l.read_bytes as int);
    if l.aligned {
        if builtin {
            window + buffer_trees((l.mask->Some_0.size / 8) as int, l.read_bytes as int) + call(
                type_trees(ty),
                "from_be_bytes"@,
                "buffer"@,
            )
        } else {
            window + call(type_trees(ty), "from_slice"@, "from"@)
        }
    } else {
        match l.mask {
            Some(m) => {
                let mt = uint_trees(m.size as nat);
                window + buffer_trees((m.size / 8) as int, l.read_bytes as int) + seq![
                    ident("let"@),
                    ident("mut"@),
                    ident("val"@),
                    punct('='),
                ] + call(mt, "from_be_bytes"@, "buffer"@) + seq![
                    punct(';'), ident("val"@), punct('>'), punct('>'), punct('='), num(l.shr as int), punct(';'),
                    ident("val"@), punct('&'), punct('='),
                ] + angle(mt) + colons() + seq![
                    ident("MAX"@), punct('>'), punct('>'),
                    Tree::Group(Delimiter::Parenthesis, seq![num(m.size as int), punct('-'), num(l.size as int)]),
                    punct(';'),
                ] + convert_trees(l, ty, builtin)
            },
            None => colons() + seq![ident("core"@)] + colons() + seq![
                ident("compile_error"@),
                punct('!'),
                Tree::Group(Delimiter::Parenthesis, seq![Tree::Literal(unsupported_text())]),
            ],
        }
    }
}

/// `::`
pub(crate) fn colon_tokens() -> (r: Vec<Token>)
    ensures
        trees(r@) == colons(),
{
    let v = vec![Token::Punct(':'), Token::Punct(':')];
    proof {
        lemma_trees_index(v@);
        assert(trees(v@) =~= colons());
    }
    v
}

/// `::core::primitive::` followed by the identifier `name`.
pub(crate) fn primitive_tokens(name: Token) -> (r: Vec<Token>)
    requires
        name is Ident,
    ensures
        trees(r@) == primitive(name.tree()->Ident_0),
{
    let v = vec![
        Token::Punct(':'), Token::Punct(':'), word("core"), Token::Punct(':'), Token::Punct(':'), word("primitive"),
        Token::Punct(':'), Token::Punct(':'), name,
    ];
    proof {
        lemma_trees_index(v@);
        assert(trees(v@) =~= primitive(name.tree()->Ident_0));
    }
    v
}

/// `::core::primitive::uN`
pub(crate) fn uint_tokens(bits: u32) -> (r: Vec<Token>)
    ensures
        trees(r@) == uint_trees(bits as nat),
{
    primitive_tokens(uint_ident(bits))
}

/// The identifier `uN`.
pub(crate) fn uint_ident(bits: u32) -> (t: Token)
    ensures
        t.tree() == ident(seq!['u'] + dec(bits as nat)),
        t is Ident,
{
    proof {
        reveal_strlit("u");
        assert("u"@ == seq!['u']);
    }
    let mut name = String::from_str("u");
    push_dec(&mut name, bits);
    Token::Ident(name)
}

/// The tokens of a field type.
pub(crate) fn type_tokens(ty: &tt::Type) -> (r: Vec<Token>)
    ensures
        trees(r@) == type_trees(*ty),
{
    match ty {
        tt::Type::Bool => primitive_tokens(word("bool")),
        tt::Type::Literal(n) => uint_tokens(*n),
        tt::Type::Named(ts) => copy_tokens(ts),
    }
}

/// Appends `<ty>::f(arg)` for the type tokens `ty`.
pub(crate) fn put_call(out: &mut Vec<Token>, ty: Vec<Token>, f: &str, arg: &str)
    ensures
        trees(final(out)@) == trees(old(out)@) + call(trees(ty@), f@, arg@),
{
    let ghost before = trees(out@);
    let ghost t = trees(ty@);
    put(out, Token::Punct('<'));
    put_all(out, ty);
    put(out, Token::Punct('>'));
    let inner = vec![word(arg)];
    proof {
        lemma_trees_index(inner@);
        assert(trees(inner@) =~= seq![ident(arg@)]);
    }
    let tail = vec![
        Token::Punct(':'), Token::Punct(':'), word(f), group(Delimiter::Parenthesis, inner),
    ];
    proof {
        lemma_trees_index(tail@);
        assert(trees(tail@) =~= colons() + seq![ident(f@), Tree::Group(Delimiter::Parenthesis, seq![ident(arg@)])]);
    }
    put_all(out, tail);
    proof {
        assert(trees(out@) =~= before + call(t, f@, arg@));
    }
}

/// A group of one `usize` number.
fn usize_group(n: usize) -> (t: Token)
    ensures
        t.tree() == Tree::Group(Delimiter::Parenthesis, seq![usize_lit(n as nat)]),
{
    let inner = vec![usize_number(n)];
    proof {
        lemma_trees_index(inner@);
        assert(trees(inner@) =~= seq![usize_lit(n as nat)]);
    }
    group(Delimiter::Parenthesis, inner)
}

/// `let from = self.0.split_at(ro).1.split_at(rb).0;`
fn window_tokens(ro: usize, rb: usize) -> (r: Vec<Token>)
    ensures
        trees(r@) == window_trees(ro as int, rb as int),
{
    let v = vec![
        word("let"), word("from"), Token::Punct('='), word("self"), Token::Punct('.'), number(0), Token::Punct('.'),
        word("split_at"), usize_group(ro), Token::Punct('.'), number(1), Token::Punct('.'),
        word("split_at"), usize_group(rb), Token::Punct('.'), number(0), Token::Punct(';'),
    ];
    proof {
        lemma_trees_index(v@);
        assert(trees(v@) =~= window_trees(ro as int, rb as int));
    }
    v
}

/// The copy of the window into the end of a `mb`-byte buffer.
fn buffer_tokens(mb: usize, rb: usize) -> (r: Vec<Token>)
    ensures
        trees(r@) == buffer_trees(mb as int, rb as int),
{
    let size = vec![Token::Literal(vec![48u8, 117u8, 56u8]), Token::Punct(';'), number(mb)];
    let diff = vec![number(mb), Token::Punct('-'), usize_number(rb)];
    let args = vec![word("into"), Token::Punct(','), word("from")];
    proof {
        lemma_trees_index(size@);
        lemma_trees_index(diff@);
        lemma_trees_index(args@);
        assert(trees(size@) =~= seq![Tree::Literal(seq![48u8, 117u8, 56u8]), punct(';'), num(mb as int)]);
        assert(trees(diff@) =~= seq![num(mb as int), punct('-'), usize_lit(rb as nat)]);
        assert(trees(args@) =~= seq![ident("into"@), punct(','), ident("from"@)]);
    }
    let v = vec![
        word("let"), word("mut"), word("buffer"), Token::Punct('='), group(Delimiter::Bracket, size),
        Token::Punct(';'), word("let"), word("into"), Token::Punct('='), word("buffer"), Token::Punct('.'),
        word("split_at_mut"), group(Delimiter::Parenthesis, diff), Token::Punct('.'), number(1), Token::Punct(';'),
        Token::Punct(':'), Token::Punct(':'), word("bitx"), Token::Punct(':'), Token::Punct(':'), word("copy"),
        group(Delimiter::Parenthesis, args), Token::Punct(';'),
    ];
    proof {
        lemma_trees_index(v@);
        assert(trees(v@) =~= buffer_trees(mb as int, rb as int));
    }
    v
}

/// The last step of a masked read.
fn convert_tokens(l: &Layout, ty: &tt::Type, builtin: bool) -> (r: Vec<Token>)
    ensures
        trees(r@) == convert_trees(*l, *ty, builtin),
{
    let mut out: Vec<Token> = Vec::new();
    if !builtin {
        let head = vec![word("let"), word("val"), Token::Punct('='), word("val"), word("as"), Token::Punct('<')];
        let mid = vec![
            word("as"), Token::Punct(':'), Token::Punct(':'), word("bitx"), Token::Punct(':'), Token::Punct(':'),
            word("Bits"), Token::Punct('>'), Token::Punct(':'), Token::Punct(':'), word("Mask"), Token::Punct(';'),
        ];
        proof {
            lemma_trees_index(head@);
            lemma_trees_index(mid@);
            assert(trees(head@) =~= seq![
                ident("let"@), ident("val"@), punct('='), ident("val"@), ident("as"@), punct('<'),
            ]);
            assert(trees(mid@) =~= seq![ident("as"@)] + colons() + seq![ident("bitx"@)] + colons() + seq![
                ident("Bits"@), punct('>'),
            ] + colons() + seq![ident("Mask"@), punct(';')]);
        }
        put_all(&mut out, head);
        put_all(&mut out, type_tokens(ty));
        put_all(&mut out, mid);
        put_call(&mut out, type_tokens(ty), "__from_mask", "val");
    } else if l.size > 1 {
        let head = vec![word("val"), word("as")];
        proof {
            lemma_trees_index(head@);
            assert(trees(head@) =~= seq![ident("val"@), ident("as"@)]);
        }
        put_all(&mut out, head);
        put_all(&mut out, type_tokens(ty));
    } else {
        let v = vec![word("val"), Token::Punct('='), Token::Punct('='), number(1)];
        proof {
            lemma_trees_index(v@);
            assert(trees(v@) =~= seq![ident("val"@), punct('='), punct('='), num(1)]);
        }
        put_all(&mut out, v);
    }
    proof {
        assert(trees(Seq::<Token>::empty()) == Seq::<Tree>::empty());
        assert(trees(out@) =~= convert_trees(*l, *ty, builtin));
    }
    out
}

/// The masked read: shift and cut the window read through a
/// `mask_size`-bit integer.
fn mask_tokens(l: &Layout, mask_size: u32) -> (r: Vec<Token>)
    ensures
        trees(r@) == seq![ident("let"@), ident("mut"@), ident("val"@), punct('=')] + call(
            uint_trees(mask_size as nat),
            "from_be_bytes"@,
            "buffer"@,
        ) + seq![
            punct(';'), ident("val"@), punct('>'), punct('>'), punct('='), num(l.shr as int), punct(';'),
            ident("val"@), punct('&'), punct('='),
        ] + angle(uint_trees(mask_size as nat)) + colons() + seq![
            ident("MAX"@), punct('>'), punct('>'),
            Tree::Group(Delimiter::Parenthesis, seq![num(mask_size as int), punct('-'), num(l.size as int)]),
            punct(';'),
        ],
{
    let ghost mt = uint_trees(mask_size as nat);
    let mut out: Vec<Token> = Vec::new();
    let head = vec![word("let"), word("mut"), word("val"), Token::Punct('=')];
    proof {
        lemma_trees_index(head@);
        assert(trees(head@) =~= seq![ident("let"@), ident("mut"@), ident("val"@), punct('=')]);
        assert(trees(Seq::<Token>::empty()) == Seq::<Tree>::empty());
    }
    put_all(&mut out, head);
    put_call(&mut out, uint_tokens(mask_size), "from_be_bytes", "buffer");
    let shift = vec![
        Token::Punct(';'), word("val"), Token::Punct('>'), Token::Punct('>'), Token::Punct('='),
        number(l.shr as usize), Token::Punct(';'), word("val"), Token::Punct('&'), Token::Punct('='),
        Token::Punct('<'),
    ];
    proof {
        lemma_trees_index(shift@);
        assert(trees(shift@) =~= seq![
            punct(';'), ident("val"@), punct('>'), punct('>'), punct('='), num(l.shr as int), punct(';'),
            ident("val"@), punct('&'), punct('='), punct('<'),
        ]);
    }
    put_all(&mut out, shift);
    put_all(&mut out, uint_tokens(mask_size));
    let diff = vec![number(mask_size as usize), Token::Punct('-'), number(l.size as usize)];
    proof {
        lemma_trees_index(diff@);
        assert(trees(diff@) =~= seq![num(mask_size as int), punct('-'), num(l.size as int)]);
    }
    let tail = vec![
        Token::Punct('>'), Token::Punct(':'), Token::Punct(':'), word("MAX"), Token::Punct('>'), Token::Punct('>'),
        group(Delimiter::Parenthesis, diff), Token::Punct(';'),
    ];
    proof {
        lemma_trees_index(tail@);
        assert(trees(tail@) =~= seq![punct('>')] + colons() + seq![
            ident("MAX"@), punct('>'), punct('>'),
            Tree::Group(Delimiter::Parenthesis, seq![num(mask_size as int), punct('-'), num(l.size as int)]),
            punct(';'),
        ]);
    }
    put_all(&mut out, tail);
    proof {
        assert(trees(out@) =~= seq![ident("let"@), ident("mut"@), ident("val"@), punct('=')] + call(
            mt,
            "from_be_bytes"@,
            "buffer"@,
        ) + seq![
            punct(';'), ident("val"@), punct('>'), punct('>'), punct('='), num(l.shr as int), punct(';'),
            ident("val"@), punct('&'), punct('='),
        ] + angle(mt) + colons() + seq![
            ident("MAX"@), punct('>'), punct('>'),
            Tree::Group(Delimiter::Parenthesis, seq![num(mask_size as int), punct('-'), num(l.size as int)]),
            punct(';'),
        ]);
    }
    out
}

/// `::core::compile_error!("...")` for a field that no mask holds.
fn unsupported_tokens() -> (r: Vec<Token>)
    ensures
        trees(r@) == colons() + seq![ident("core"@)] + colons() + seq![
            ident("compile_error"@),
            punct('!'),
            Tree::Group(Delimiter::Parenthesis, seq![Tree::Literal(unsupported_text())]),
        ],
{
    let text = "\"unaligned large custom types are not supported yet\"".as_bytes_vec();
    let inner = vec![Token::Literal(text)];
    proof {
        lemma_trees_index(inner@);
        assert(trees(inner@) =~= seq![Tree::Literal(unsupported_text())]);
    }
    let v = vec![
        Token::Punct(':'), Token::Punct(':'), word("core"), Token::Punct(':'), Token::Punct(':'),
        word("compile_error"), Token::Punct('!'), group(Delimiter::Parenthesis, inner),
    ];
    proof {
        lemma_trees_index(v@);
        assert(trees(v@) =~= colons() + seq![ident("core"@)] + colons() + seq![
            ident("compile_error"@),
            punct('!'),
            Tree::Group(Delimiter::Parenthesis, seq![Tree::Literal(unsupported_text())]),
        ]);
    }
    v
}

/// The return type of the getter: the field's type, or, for an aligned
/// field of a written type, `::core::option::Option<<ty as ::bitx::Bits>::Read<'_>>`.
pub open spec fn return_trees(l: Layout, ty: tt::Type, builtin: bool) -> Seq<Tree> {
    if !builtin && l.aligned {
        colons() + seq![ident("core"@)] + colons() + seq![ident("option"@)] + colons() + seq![
            ident("Option"@), punct('<'), punct('<'),
        ] + type_trees(ty) + seq![ident("as"@)] + colons() + seq![ident("bitx"@)] + colons() + seq![
            ident("Bits"@), punct('>'),
        ] + colons() + seq![ident("Read"@), punct('<'), punct('\''), ident("_"@), punct('>'), punct('>')]
    } else {
        type_trees(ty)
    }
}

impl Layout {
    /// The body of the getter that this plan makes, for a field of type `ty`
    /// (`builtin`: of no written type); see `read_tokens`, whose steps are
    /// those that `Layout::read` computes.
    #[verifier::rlimit(40)]
    pub fn quote_read(&self, ty: &tt::Type, builtin: bool) -> (r: Vec<Token>)
        requires
            self.wf(),
            self.aligned && builtin ==> self.mask is Some,
        ensures
            trees(r@) == read_tokens(*self, *ty, builtin),
    {
        let mut out: Vec<Token> = Vec::new();
        proof {
            assert(trees(Seq::<Token>::empty()) == Seq::<Tree>::empty());
        }
        if self.aligned {
            put_all(&mut out, window_tokens(self.read_offset_bytes, self.read_bytes));
            if builtin {
                let mb = match &self.mask {
                    Some(m) => (m.size / 8) as usize,
                    None => 0,
                };
                put_all(&mut out, buffer_tokens(mb, self.read_bytes));
                put_call(&mut out, type_tokens(ty), "from_be_bytes", "buffer");
            } else {
                put_call(&mut out, type_tokens(ty), "from_slice", "from");
            }
        } else {
            match &self.mask {
                Some(m) => {
                    put_all(&mut out, window_tokens(self.read_offset_bytes, self.read_bytes));
                    put_all(&mut out, buffer_tokens((m.size / 8) as usize, self.read_bytes));
                    put_all(&mut out, mask_tokens(self, m.size));
                    put_all(&mut out, convert_tokens(self, ty, builtin));
                    proof {
                        let mt = uint_trees(m.size as nat);
                        assert(angle(mt) =~= seq![punct('<')] + mt + seq![punct('>')]);
                    }
                },
                None => {
                    put_all(&mut out, unsupported_tokens());
                },
            }
        }
        proof {
            assert(trees(out@) =~= read_tokens(*self, *ty, builtin));
        }
        out
    }
}

impl Layout {
    /// The return type of the getter (see `return_trees`).
    pub fn return_type(&self, ty: &tt::Type, builtin: bool) -> (r: Vec<Token>)
        ensures
            trees(r@) == return_trees(*self, *ty, builtin),
    {
        if !builtin && self.aligned {
            let head = vec![
                Token::Punct(':'), Token::Punct(':'), word("core"), Token::Punct(':'), Token::Punct(':'),
                word("option"), Token::Punct(':'), Token::Punct(':'), word("Option"), Token::Punct('<'),
                Token::Punct('<'),
            ];
            let tail = vec![
                word("as"), Token::Punct(':'), Token::Punct(':'), word("bitx"), Token::Punct(':'), Token::Punct(':'),
                word("Bits"), Token::Punct('>'), Token::Punct(':'), Token::Punct(':'), word("Read"),
                Token::Punct('<'), Token::Punct('\''), word("_"), Token::Punct('>'), Token::Punct('>'),
            ];
            proof {
                lemma_trees_index(head@);
                lemma_trees_index(tail@);
                assert(trees(head@) =~= colons() + seq![ident("core"@)] + colons() + seq![ident("option"@)]
                    + colons() + seq![ident("Option"@), punct('<'), punct('<')]);
                assert(trees(tail@) =~= seq![ident("as"@)] + colons() + seq![ident("bitx"@)] + colons() + seq![
                    ident("Bits"@), punct('>'),
                ] + colons() + seq![ident("Read"@), punct('<'), punct('\''), ident("_"@), punct('>'), punct('>')]);
                assert(trees(Seq::<Token>::empty()) == Seq::<Tree>::empty());
            }
            let mut out: Vec<Token> = Vec::new();
            put_all(&mut out, head);
            put_all(&mut out, type_tokens(ty));
            put_all(&mut out, tail);
            proof {
                assert(trees(out@) =~= return_trees(*self, *ty, builtin));
            }
            out
        } else {
            type_tokens(ty)
        }
    }
}

} // verus!
