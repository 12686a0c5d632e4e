//! The tokens of the getters of the offset syntax (`byte.bit name: uN` or
//! `byte.bit name: Type`).

use vstd::prelude::*;
use crate::cg::layout::{
    call, colons, ident, num, primitive, primitive_tokens, punct, put_call, uint_tokens, uint_trees,
};
use crate::field::Type;
use crate::hir::mask::{mask_bits, lemma_mask_bits};
use crate::num::{ceil_div, div_ceil8_usize};
use crate::off::Offset;
use crate::tt::{Delimiter, Token, Tree, copy_tokens, usize_lit, usize_number, group, lemma_trees_index, number, put, put_all, trees, word};
use vstd::string::*;
use vstd::utf8::encode_utf8;

verus! {

/// The literal `0u8`.
pub open spec fn zero_u8() -> Tree {
    Tree::Literal(seq![48u8, 117u8, 56u8])
}

/// `{ let from = self.0.split_at(off).1.split_at(rb).0;
/// let mut buffer = [0u8; mb]; buffer.split_at_mut(mb - rb).1.copy_from_slice(from);
/// <mask>::from_be_bytes(buffer) }`: the `rb` bytes from byte `off`, read as
/// the low bytes of an `mb`-byte big-endian integer.
pub open spec fn mask_read_trees(off: Tree, rb: Tree, mb: Tree, mask: Seq<Tree>) -> Tree {
    Tree::Group(
        Delimiter::Brace,
        seq![
            ident("let"@), ident("from"@), punct('='), ident("self"@), punct('.'), num(0), punct('.'),
            ident("split_at"@), Tree::Group(Delimiter::Parenthesis, seq![off]), punct('.'), num(1), punct('.'),
            ident("split_at"@), Tree::Group(Delimiter::Parenthesis, seq![rb]), punct('.'), num(0), punct(';'),
            ident("let"@), ident("mut"@), ident("buffer"@), punct('='),
            Tree::Group(Delimiter::Bracket, seq![zero_u8(), punct(';'), mb]), punct(';'), ident("buffer"@),
            punct('.'), ident("split_at_mut"@), Tree::Group(Delimiter::Parenthesis, seq![mb, punct('-'), rb]),
            punct('.'), num(1), punct('.'), ident("copy_from_slice"@),
            Tree::Group(Delimiter::Parenthesis, seq![ident("from"@)]), punct(';'),
        ] + call(mask, "from_be_bytes"@, "buffer"@),
    )
}

/// The getter body of a `uN` field of `bits` bits at `offset`, read through
/// an integer of `mask_bits` bits: `let mut val = READ; val >>= lpad;
/// val &= MASK::MAX >> rpad;` then `val == 1` for one bit, else `val`, where
/// `lpad` is the padding after the field in its bytes and `rpad` the mask's
/// bits above the field.
pub open spec fn literal_reader_trees(offset: Offset, bits: int, mask_bits: int) -> Seq<Tree> {
    let upper = offset.bit + bits;
    let rb = ceil_div(upper, 8);
    let mask = uint_trees(mask_bits as nat);
    seq![
        ident("let"@), ident("mut"@), ident("val"@), punct('='),
        mask_read_trees(usize_lit(offset.byte as nat), usize_lit(rb as nat), usize_lit((mask_bits / 8) as nat), mask),
        punct(';'), ident("val"@), punct('>'), punct('>'), punct('='), num(rb * 8 - upper), punct(';'),
        ident("val"@), punct('&'), punct('='),
    ] + mask + colons() + seq![ident("MAX"@), punct('>'), punct('>'), num(mask_bits - bits), punct(';')] + if bits
        == 1 {
        seq![ident("val"@), punct('='), punct('='), num(1)]
    } else {
        seq![ident("val"@)]
    }
}

/// `<ty as ::bitx::Bits>::name`
pub open spec fn bits_item(ty: Seq<Tree>, name: Seq<char>) -> Seq<Tree> {
    seq![punct('<')] + ty + seq![ident("as"@)] + colons() + seq![ident("bitx"@)] + colons() + seq![
        ident("Bits"@),
        punct('>'),
    ] + colons() + seq![ident(name)]
}

/// The message of the check that an unaligned written type fits a `u128`.
pub open spec fn big_unaligned_text() -> Seq<u8> {
    encode_utf8("\"unaligned nested types cannot exceed 128 bits\""@)
}

/// The arguments of the size check: `BITS % 8 == 0 || SIZE <= 16, "...",`
/// at a byte boundary, `SIZE <= 16, "..."` inside a byte.
pub open spec fn check_args(aligned: bool) -> Seq<Tree> {
    if aligned {
        seq![
            ident("BITS"@), punct('%'), num(8), punct('='), punct('='), num(0), punct('|'), punct('|'),
            ident("SIZE"@), punct('<'), punct('='), num(16), punct(','), Tree::Literal(big_unaligned_text()),
            punct(','),
        ]
    } else {
        seq![ident("SIZE"@), punct('<'), punct('='), num(16), punct(','), Tree::Literal(big_unaligned_text())]
    }
}

/// The constants that open the getter of a field of the written type `ty`
/// at bit `off_bit` of its first byte: `type Mask = <ty as ::bitx::Bits>::Mask;
/// const BITS: u32 = <ty as ::bitx::Bits>::BITS; const MASK: Mask =
/// Mask::MAX >> (Mask::BITS - BITS); const SIZE: usize = (off_bit + BITS as
/// usize).div_ceil(8);` and a compile-time check that an unaligned read fits
/// 16 bytes (`BITS % 8 == 0 || SIZE <= 16` at a byte boundary).
pub open spec fn nested_consts_trees(ty: Seq<Tree>, off_bit: int, aligned: bool) -> Seq<Tree> {
    seq![ident("type"@), ident("Mask"@), punct('=')] + bits_item(ty, "Mask"@) + seq![
        punct(';'), ident("const"@), ident("BITS"@), punct(':'),
    ] + primitive("u32"@) + seq![punct('=')] + bits_item(ty, "BITS"@) + seq![
        punct(';'), ident("const"@), ident("MASK"@), punct(':'), ident("Mask"@), punct('='), ident("Mask"@),
    ] + colons() + seq![
        ident("MAX"@), punct('>'), punct('>'),
        Tree::Group(Delimiter::Parenthesis, seq![ident("Mask"@)] + colons() + seq![
            ident("BITS"@), punct('-'), ident("BITS"@),
        ]), punct(';'), ident("const"@), ident("SIZE"@), punct(':'),
    ] + primitive("usize"@) + seq![
        punct('='),
        Tree::Group(Delimiter::Parenthesis, seq![num(off_bit), punct('+'), ident("BITS"@), ident("as"@)] + primitive(
            "usize"@,
        )), punct('.'), ident("div_ceil"@), Tree::Group(Delimiter::Parenthesis, seq![num(8)]), punct(';'),
        ident("const"@), ident("_"@), punct(':'), Tree::Group(Delimiter::Parenthesis, Seq::empty()), punct('='),
        ident("assert"@), punct('!'), Tree::Group(Delimiter::Parenthesis, check_args(aligned)), punct(';'),
    ]
}

/// The masked read of a written type: `let mut val = READ; val >>= (SIZE as
/// u32 * 8) - (off_bit + BITS); let val = (val as Mask) & MASK;
/// ty::__from_mask(val)`, with the `SIZE` bytes read through a `u128`.
pub open spec fn nested_mask_trees(ty: Seq<Tree>, offset: Offset) -> Seq<Tree> {
    seq![
        ident("let"@), ident("mut"@), ident("val"@), punct('='),
        mask_read_trees(usize_lit(offset.byte as nat), ident("SIZE"@), usize_lit(16), uint_trees(128)),
        punct(';'), ident("val"@), punct('>'), punct('>'), punct('='),
        Tree::Group(Delimiter::Parenthesis, seq![ident("SIZE"@), ident("as"@)] + primitive("u32"@) + seq![
            punct('*'), num(8),
        ]), punct('-'),
        Tree::Group(Delimiter::Parenthesis, seq![num(offset.bit as int), punct('+'), ident("BITS"@)]),
        punct(';'), ident("let"@), ident("val"@), punct('='),
        Tree::Group(Delimiter::Parenthesis, seq![ident("val"@), ident("as"@), ident("Mask"@)]), punct('&'),
        ident("MASK"@), punct(';'),
    ] + ty + colons() + seq![ident("__from_mask"@), Tree::Group(Delimiter::Parenthesis, seq![ident("val"@)])]
}

/// The whole-byte read of a written type: `let from = self.0.split_at(off).1
/// .split_at(SIZE).0; let mut buf = [0u8; SIZE]; buf.copy_from_slice(from);
/// ty::from_array(buf)`.
pub open spec fn nested_bytes_trees(ty: Seq<Tree>, offset: Offset) -> Seq<Tree> {
    seq![
        ident("let"@), ident("from"@), punct('='), ident("self"@), punct('.'), num(0), punct('.'),
        ident("split_at"@), Tree::Group(Delimiter::Parenthesis, seq![usize_lit(offset.byte as nat)]), punct('.'),
        num(1), punct('.'), ident("split_at"@), Tree::Group(Delimiter::Parenthesis, seq![ident("SIZE"@)]),
        punct('.'), num(0), punct(';'), ident("let"@), ident("mut"@), ident("buf"@), punct('='),
        Tree::Group(Delimiter::Bracket, seq![zero_u8(), punct(';'), ident("SIZE"@)]), punct(';'), ident("buf"@),
        punct('.'), ident("copy_from_slice"@), Tree::Group(Delimiter::Parenthesis, seq![ident("from"@)]),
        punct(';'),
    ] + ty + colons() + seq![ident("from_array"@), Tree::Group(Delimiter::Parenthesis, seq![ident("buf"@)])]
}

/// The getter body of a field of type `t` at `offset` (`ty`: the tokens of
/// a written type). A `uN` field reads through its mask; a written type at a
/// byte boundary takes its bytes when it is whole bytes wide and is read
/// through a `u128` otherwise, as is one inside a byte.
pub open spec fn reader_trees(t: Type, offset: Offset, ty: Seq<Tree>) -> Seq<Tree> {
    match t {
        Type::Literal { bits, mask_bits } => literal_reader_trees(offset, bits as int, mask_bits as int),
        Type::Aligned(_) => nested_consts_trees(ty, offset.bit as int, true) + seq![
            ident("if"@), ident("BITS"@), punct('%'), num(8), punct('='), punct('='), num(0),
            Tree::Group(Delimiter::Brace, nested_bytes_trees(ty, offset)), ident("else"@),
            Tree::Group(Delimiter::Brace, nested_mask_trees(ty, offset)),
        ],
        Type::Unaligned(_) => nested_consts_trees(ty, offset.bit as int, false) + nested_mask_trees(ty, offset),
    }
}

/// A group of one token.
fn paren(t: Token) -> (r: Token)
    ensures
        r.tree() == Tree::Group(Delimiter::Parenthesis, seq![t.tree()]),
{
    let inner = vec![t];
    proof {
        lemma_trees_index(inner@);
        assert(trees(inner@) =~= seq![inner@[0].tree()]);
    }
    group(Delimiter::Parenthesis, inner)
}

/// The tokens of `mask_read_trees`.
fn mask_read_tokens(off: Token, rb: Token, mb: Token, mask: Vec<Token>) -> (r: Token)
    ensures
        r.tree() == mask_read_trees(off.tree(), rb.tree(), mb.tree(), trees(mask@)),
{
    let size = vec![Token::Literal(vec![48u8, 117u8, 56u8]), Token::Punct(';'), mb.copy()];
    let diff = vec![mb.copy(), Token::Punct('-'), rb.copy()];
    proof {
        lemma_trees_index(size@);
        lemma_trees_index(diff@);
        assert(trees(size@) =~= seq![zero_u8(), punct(';'), mb.tree()]);
        assert(trees(diff@) =~= seq![mb.tree(), punct('-'), rb.tree()]);
    }
    let ghost offt = off.tree();
    let ghost rbt = rb.tree();
    let v = vec![
        word("let"), word("from"), Token::Punct('='), word("self"), Token::Punct('.'), number(0), Token::Punct('.'),
        word("split_at"), paren(off), Token::Punct('.'), number(1), Token::Punct('.'),
        word("split_at"), paren(rb), Token::Punct('.'), number(0), Token::Punct(';'),
        word("let"), word("mut"), word("buffer"), Token::Punct('='), group(Delimiter::Bracket, size), Token::Punct(';'),
        word("buffer"), Token::Punct('.'), word("split_at_mut"), group(Delimiter::Parenthesis, diff),
        Token::Punct('.'), number(1), Token::Punct('.'), word("copy_from_slice"), paren(word("from")), Token::Punct(';'),
    ];
    proof {
        lemma_trees_index(v@);
        assert(trees(v@) =~= seq![
            ident("let"@), ident("from"@), punct('='), ident("self"@), punct('.'), num(0), punct('.'),
            ident("split_at"@), Tree::Group(Delimiter::Parenthesis, seq![offt]), punct('.'), num(1), punct('.'),
            ident("split_at"@), Tree::Group(Delimiter::Parenthesis, seq![rbt]), punct('.'), num(0), punct(';'),
            ident("let"@), ident("mut"@), ident("buffer"@), punct('='),
            Tree::Group(Delimiter::Bracket, seq![zero_u8(), punct(';'), mb.tree()]), punct(';'), ident("buffer"@),
            punct('.'), ident("split_at_mut"@),
            Tree::Group(Delimiter::Parenthesis, seq![mb.tree(), punct('-'), rbt]),
            punct('.'), num(1), punct('.'), ident("copy_from_slice"@),
            Tree::Group(Delimiter::Parenthesis, seq![ident("from"@)]), punct(';'),
        ]);
    }
    let mut body = v;
    put_call(&mut body, mask, "from_be_bytes", "buffer");
    group(Delimiter::Brace, body)
}

/// The tokens of `bits_item`.
fn bits_item_tokens(ty: &Vec<Token>, name: &str) -> (r: Vec<Token>)
    ensures
        trees(r@) == bits_item(trees(ty@), name@),
{
    let mut out: Vec<Token> = Vec::new();
    proof {
        assert(trees(out@) =~= Seq::<Tree>::empty());
    }
    put(&mut out, Token::Punct('<'));
    put_all(&mut out, copy_tokens(ty));
    let tail = vec![
        word("as"), Token::Punct(':'), Token::Punct(':'), word("bitx"), Token::Punct(':'), Token::Punct(':'),
        word("Bits"), Token::Punct('>'), Token::Punct(':'), Token::Punct(':'), word(name),
    ];
    proof {
        lemma_trees_index(tail@);
        assert(trees(tail@) =~= seq![ident("as"@)] + colons() + seq![ident("bitx"@)] + colons() + seq![
            ident("Bits"@), punct('>'),
        ] + colons() + seq![ident(name@)]);
    }
    put_all(&mut out, tail);
    proof {
        assert(trees(out@) =~= bits_item(trees(ty@), name@));
    }
    out
}

/// The tokens of `check_args`.
fn check_args_tokens(aligned: bool) -> (r: Vec<Token>)
    ensures
        trees(r@) == check_args(aligned),
{
    let msg = "\"unaligned nested types cannot exceed 128 bits\"".as_bytes_vec();
    let v = if aligned {
        vec![
            word("BITS"), Token::Punct('%'), number(8), Token::Punct('='), Token::Punct('='), number(0),
            Token::Punct('|'), Token::Punct('|'), word("SIZE"), Token::Punct('<'), Token::Punct('='), number(16),
            Token::Punct(','), Token::Literal(msg), Token::Punct(','),
        ]
    } else {
        vec![
            word("SIZE"), Token::Punct('<'), Token::Punct('='), number(16), Token::Punct(','), Token::Literal(msg),
        ]
    };
    proof {
        lemma_trees_index(v@);
        assert(trees(v@) =~= check_args(aligned));
    }
    v
}

/// The tokens of `nested_consts_trees`.
fn nested_consts_tokens(ty: &Vec<Token>, off_bit: usize, aligned: bool) -> (r: Vec<Token>)
    ensures
        trees(r@) == nested_consts_trees(trees(ty@), off_bit as int, aligned),
{
    let mut out = vec![word("type"), word("Mask"), Token::Punct('=')];
    proof {
        lemma_trees_index(out@);
        assert(trees(out@) =~= seq![ident("type"@), ident("Mask"@), punct('=')]);
    }
    put_all(&mut out, bits_item_tokens(ty, "Mask"));
    let a = vec![Token::Punct(';'), word("const"), word("BITS"), Token::Punct(':')];
    proof {
        lemma_trees_index(a@);
        assert(trees(a@) =~= seq![punct(';'), ident("const"@), ident("BITS"@), punct(':')]);
    }
    put_all(&mut out, a);
    put_all(&mut out, primitive_tokens(word("u32")));
    put(&mut out, Token::Punct('='));
    put_all(&mut out, bits_item_tokens(ty, "BITS"));
    let inner = vec![word("Mask"), Token::Punct(':'), Token::Punct(':'), word("BITS"), Token::Punct('-'), word("BITS")];
    proof {
        lemma_trees_index(inner@);
        assert(trees(inner@) =~= seq![ident("Mask"@)] + colons() + seq![ident("BITS"@), punct('-'), ident("BITS"@)]);
    }
    let ghost it = trees(inner@);
    let b = vec![
        Token::Punct(';'), word("const"), word("MASK"), Token::Punct(':'), word("Mask"), Token::Punct('='),
        word("Mask"), Token::Punct(':'), Token::Punct(':'), word("MAX"), Token::Punct('>'), Token::Punct('>'),
        group(Delimiter::Parenthesis, inner), Token::Punct(';'), word("const"), word("SIZE"), Token::Punct(':'),
    ];
    proof {
        lemma_trees_index(b@);
        assert(trees(b@) =~= seq![
            punct(';'), ident("const"@), ident("MASK"@), punct(':'), ident("Mask"@), punct('='), ident("Mask"@),
        ] + colons() + seq![
            ident("MAX"@), punct('>'), punct('>'), Tree::Group(Delimiter::Parenthesis, it), punct(';'),
            ident("const"@), ident("SIZE"@), punct(':'),
        ]);
    }
    put_all(&mut out, b);
    put_all(&mut out, primitive_tokens(word("usize")));
    let mut sum = vec![number(off_bit), Token::Punct('+'), word("BITS"), word("as")];
    proof {
        lemma_trees_index(sum@);
        assert(trees(sum@) =~= seq![num(off_bit as int), punct('+'), ident("BITS"@), ident("as"@)]);
    }
    put_all(&mut sum, primitive_tokens(word("usize")));
    let ghost st = trees(sum@);
    let eight = vec![number(8)];
    let empty: Vec<Token> = Vec::new();
    proof {
        lemma_trees_index(eight@);
        assert(trees(eight@) =~= seq![num(8)]);
        assert(trees(empty@) =~= Seq::<Tree>::empty());
    }
    let c = vec![
        Token::Punct('='), group(Delimiter::Parenthesis, sum), Token::Punct('.'), word("div_ceil"),
        group(Delimiter::Parenthesis, eight), Token::Punct(';'), word("const"), word("_"), Token::Punct(':'),
        group(Delimiter::Parenthesis, empty), Token::Punct('='), word("assert"), Token::Punct('!'),
        group(Delimiter::Parenthesis, check_args_tokens(aligned)), Token::Punct(';'),
    ];
    proof {
        lemma_trees_index(c@);
        assert(trees(c@) =~= seq![
            punct('='), Tree::Group(Delimiter::Parenthesis, st), punct('.'), ident("div_ceil"@),
            Tree::Group(Delimiter::Parenthesis, seq![num(8)]), punct(';'), ident("const"@), ident("_"@), punct(':'),
            Tree::Group(Delimiter::Parenthesis, Seq::empty()), punct('='), ident("assert"@), punct('!'),
            Tree::Group(Delimiter::Parenthesis, check_args(aligned)), punct(';'),
        ]);
    }
    put_all(&mut out, c);
    proof {
        assert(trees(out@) =~= nested_consts_trees(trees(ty@), off_bit as int, aligned));
    }
    out
}

/// The tokens of `nested_mask_trees`.
fn nested_mask_tokens(ty: &Vec<Token>, offset: Offset) -> (r: Vec<Token>)
    ensures
        trees(r@) == nested_mask_trees(trees(ty@), offset),
{
    let read = mask_read_tokens(usize_number(offset.byte), word("SIZE"), usize_number(16), uint_tokens(128));
    let mut size = vec![word("SIZE"), word("as")];
    proof {
        lemma_trees_index(size@);
        assert(trees(size@) =~= seq![ident("SIZE"@), ident("as"@)]);
    }
    put_all(&mut size, primitive_tokens(word("u32")));
    let times = vec![Token::Punct('*'), number(8)];
    proof {
        lemma_trees_index(times@);
        assert(trees(times@) =~= seq![punct('*'), num(8)]);
    }
    put_all(&mut size, times);
    let ghost szt = trees(size@);
    let sum = vec![number(offset.bit), Token::Punct('+'), word("BITS")];
    let cast = vec![word("val"), word("as"), word("Mask")];
    proof {
        lemma_trees_index(sum@);
        lemma_trees_index(cast@);
        assert(trees(sum@) =~= seq![num(offset.bit as int), punct('+'), ident("BITS"@)]);
        assert(trees(cast@) =~= seq![ident("val"@), ident("as"@), ident("Mask"@)]);
    }
    let mut out = vec![
        word("let"), word("mut"), word("val"), Token::Punct('='), read, Token::Punct(';'), word("val"),
        Token::Punct('>'), Token::Punct('>'), Token::Punct('='), group(Delimiter::Parenthesis, size), Token::Punct('-'),
        group(Delimiter::Parenthesis, sum), Token::Punct(';'), word("let"), word("val"), Token::Punct('='),
        group(Delimiter::Parenthesis, cast), Token::Punct('&'), word("MASK"), Token::Punct(';'),
    ];
    proof {
        lemma_trees_index(out@);
        assert(trees(out@) =~= seq![
            ident("let"@), ident("mut"@), ident("val"@), punct('='),
            mask_read_trees(usize_lit(offset.byte as nat), ident("SIZE"@), usize_lit(16), uint_trees(128)),
            punct(';'), ident("val"@), punct('>'), punct('>'), punct('='), Tree::Group(Delimiter::Parenthesis, szt),
            punct('-'),
            Tree::Group(Delimiter::Parenthesis, seq![num(offset.bit as int), punct('+'), ident("BITS"@)]),
            punct(';'), ident("let"@), ident("val"@), punct('='),
            Tree::Group(Delimiter::Parenthesis, seq![ident("val"@), ident("as"@), ident("Mask"@)]), punct('&'),
            ident("MASK"@), punct(';'),
        ]);
    }
    put_all(&mut out, copy_tokens(ty));
    let tail = vec![Token::Punct(':'), Token::Punct(':'), word("__from_mask"), paren(word("val"))];
    proof {
        lemma_trees_index(tail@);
        assert(trees(tail@) =~= colons() + seq![
            ident("__from_mask"@), Tree::Group(Delimiter::Parenthesis, seq![ident("val"@)]),
        ]);
    }
    put_all(&mut out, tail);
    proof {
        assert(trees(out@) =~= nested_mask_trees(trees(ty@), offset));
    }
    out
}

/// The tokens of `nested_bytes_trees`.
fn nested_bytes_tokens(ty: &Vec<Token>, offset: Offset) -> (r: Vec<Token>)
    ensures
        trees(r@) == nested_bytes_trees(trees(ty@), offset),
{
    let buf = vec![Token::Literal(vec![48u8, 117u8, 56u8]), Token::Punct(';'), word("SIZE")];
    proof {
        lemma_trees_index(buf@);
        assert(trees(buf@) =~= seq![zero_u8(), punct(';'), ident("SIZE"@)]);
    }
    let mut out = vec![
        word("let"), word("from"), Token::Punct('='), word("self"), Token::Punct('.'), number(0), Token::Punct('.'),
        word("split_at"), paren(usize_number(offset.byte)), Token::Punct('.'), number(1), Token::Punct('.'),
        word("split_at"), paren(word("SIZE")), Token::Punct('.'), number(0), Token::Punct(';'), word("let"),
        word("mut"), word("buf"), Token::Punct('='), group(Delimiter::Bracket, buf), Token::Punct(';'), word("buf"),
        Token::Punct('.'), word("copy_from_slice"), paren(word("from")), Token::Punct(';'),
    ];
    proof {
        lemma_trees_index(out@);
        assert(trees(out@) =~= seq![
            ident("let"@), ident("from"@), punct('='), ident("self"@), punct('.'), num(0), punct('.'),
            ident("split_at"@), Tree::Group(Delimiter::Parenthesis, seq![usize_lit(offset.byte as nat)]),
            punct('.'), num(1), punct('.'), ident("split_at"@),
            Tree::Group(Delimiter::Parenthesis, seq![ident("SIZE"@)]), punct('.'), num(0), punct(';'),
            ident("let"@), ident("mut"@), ident("buf"@), punct('='),
            Tree::Group(Delimiter::Bracket, seq![zero_u8(), punct(';'), ident("SIZE"@)]), punct(';'), ident("buf"@),
            punct('.'), ident("copy_from_slice"@), Tree::Group(Delimiter::Parenthesis, seq![ident("from"@)]),
            punct(';'),
        ]);
    }
    put_all(&mut out, copy_tokens(ty));
    let tail = vec![Token::Punct(':'), Token::Punct(':'), word("from_array"), paren(word("buf"))];
    proof {
        lemma_trees_index(tail@);
        assert(trees(tail@) =~= colons() + seq![
            ident("from_array"@), Tree::Group(Delimiter::Parenthesis, seq![ident("buf"@)]),
        ]);
    }
    put_all(&mut out, tail);
    proof {
        assert(trees(out@) =~= nested_bytes_trees(trees(ty@), offset));
    }
    out
}

impl Type {
    /// The getter body of a field of this type at `offset`, where `ty` holds
    /// the tokens of a written type (see `reader_trees`).
    pub fn quote_reader(&self, offset: Offset, ty: &Vec<Token>) -> (r: Vec<Token>)
        requires
            *self matches Type::Literal { bits: b, mask_bits: m } ==> offset.bit < 8 && 1 <= b && m == mask_bits(
                offset.spec_bits() + b,
            ) && m <= 128,
        ensures
            trees(r@) == reader_trees(*self, offset, trees(ty@)),
    {
        match self {
            Type::Literal { .. } => self.literal_tokens(offset),
            Type::Aligned(_) => {
                let mut out = nested_consts_tokens(ty, offset.bit, true);
                let bytes = nested_bytes_tokens(ty, offset);
                let masked = nested_mask_tokens(ty, offset);
                let ghost bt = trees(bytes@);
                let ghost mt = trees(masked@);
                let tail = vec![
                    word("if"), word("BITS"), Token::Punct('%'), number(8), Token::Punct('='), Token::Punct('='),
                    number(0), group(Delimiter::Brace, bytes), word("else"), group(Delimiter::Brace, masked),
                ];
                proof {
                    lemma_trees_index(tail@);
                    assert(trees(tail@) =~= seq![
                        ident("if"@), ident("BITS"@), punct('%'), num(8), punct('='), punct('='), num(0),
                        Tree::Group(Delimiter::Brace, bt), ident("else"@), Tree::Group(Delimiter::Brace, mt),
                    ]);
                }
                put_all(&mut out, tail);
                out
            },
            Type::Unaligned(_) => {
                let mut out = nested_consts_tokens(ty, offset.bit, false);
                put_all(&mut out, nested_mask_tokens(ty, offset));
                out
            },
        }
    }

    /// The tokens of the getter body of a `uN` field (see `literal_reader_trees`).
    fn literal_tokens(&self, offset: Offset) -> (r: Vec<Token>)
        requires
            offset.bit < 8,
            *self matches Type::Literal { bits: b, mask_bits: m } && 1 <= b && m == mask_bits(
                offset.spec_bits() + b,
            ) && m <= 128,
        ensures
            *self matches Type::Literal { bits: b, mask_bits: m } && trees(r@) == literal_reader_trees(
                offset,
                b as int,
                m as int,
            ),
    {
        let bits: usize = match self {
            Type::Literal { bits, .. } => *bits,
            _ => 0,
        };
        let mask_bits: usize = match self {
            Type::Literal { mask_bits, .. } => *mask_bits,
            _ => 0,
        };
        proof {
            lemma_mask_bits(offset.spec_bits() + bits);
        }
        let upper: usize = offset.bit + bits;
        let rb: usize = div_ceil8_usize(upper);
        let lpad: usize = rb * 8 - upper;
        let rpad: usize = mask_bits - bits;
        let ghost mask = uint_trees(mask_bits as nat);
        let read = mask_read_tokens(
            usize_number(offset.byte),
            usize_number(rb),
            usize_number(mask_bits / 8),
            uint_tokens(mask_bits as u32),
        );
        let head = vec![
            word("let"), word("mut"), word("val"), Token::Punct('='), read, Token::Punct(';'), word("val"),
            Token::Punct('>'), Token::Punct('>'), Token::Punct('='), number(lpad), Token::Punct(';'), word("val"),
            Token::Punct('&'), Token::Punct('='),
        ];
        proof {
            lemma_trees_index(head@);
            assert(trees(head@) =~= seq![
                ident("let"@), ident("mut"@), ident("val"@), punct('='),
                mask_read_trees(
                    usize_lit(offset.byte as nat),
                    usize_lit(ceil_div(upper as int, 8) as nat),
                    usize_lit((mask_bits / 8) as nat),
                    mask,
                ), punct(';'), ident("val"@), punct('>'), punct('>'), punct('='), num(lpad as int), punct(';'),
                ident("val"@), punct('&'), punct('='),
            ]);
        }
        let tail = vec![
            Token::Punct(':'), Token::Punct(':'), word("MAX"), Token::Punct('>'), Token::Punct('>'), number(rpad),
            Token::Punct(';'),
        ];
        proof {
            lemma_trees_index(tail@);
            assert(trees(tail@) =~= colons() + seq![
                ident("MAX"@), punct('>'), punct('>'), num(rpad as int), punct(';'),
            ]);
        }
        let end = if bits == 1 {
            vec![word("val"), Token::Punct('='), Token::Punct('='), number(1)]
        } else {
            vec![word("val")]
        };
        proof {
            lemma_trees_index(end@);
            if bits == 1 {
                assert(trees(end@) =~= seq![ident("val"@), punct('='), punct('='), num(1)]);
            } else {
                assert(trees(end@) =~= seq![ident("val"@)]);
            }
        }
        let mut out = head;
        put_all(&mut out, uint_tokens(mask_bits as u32));
        put_all(&mut out, tail);
        put_all(&mut out, end);
        proof {
            assert(trees(out@) =~= literal_reader_trees(offset, bits as int, mask_bits as int));
        }
        out
    }
}

} // verus!
