//! Pieces shared by the generated enum and struct items.

use vstd::prelude::*;
use crate::cg::layout::{colons, ident, num, primitive, primitive_tokens, punct, uint_tokens, uint_trees};
use crate::tt::{Delimiter, Token, Tree, group, lemma_trees_index, number, put, put_all, trees, word};
use crate::lit::{decimal, parse_u128_spec, lemma_decimal_literal};

verus! {

/// `#[inner]`
pub open spec fn outer_attr(inner: Seq<Tree>) -> Seq<Tree> {
    seq![punct('#'), Tree::Group(Delimiter::Bracket, inner)]
}

/// `#[inline]`
pub open spec fn inline_attr() -> Seq<Tree> {
    outer_attr(seq![ident("inline"@)])
}

/// `#[doc(hidden)]`
pub open spec fn hidden_attr() -> Seq<Tree> {
    outer_attr(seq![ident("doc"@), Tree::Group(Delimiter::Parenthesis, seq![ident("hidden"@)])])
}

/// `::core::option::Option`
pub open spec fn option_path() -> Seq<Tree> {
    colons() + seq![ident("core"@)] + colons() + seq![ident("option"@)] + colons() + seq![ident("Option"@)]
}

/// `::core::option::Option::which`
pub open spec fn option_variant(which: Seq<char>) -> Seq<Tree> {
    option_path() + colons() + seq![ident(which)]
}

/// `[::core::primitive::u8; n]`
pub open spec fn byte_array(n: int) -> Tree {
    Tree::Group(Delimiter::Bracket, uint_trees(8) + seq![punct(';'), num(n)])
}

/// `let ::core::option::Option::Some((v, _)) = v.split_at_checked(n) else {
/// return ::core::option::Option::None; };`: the first `n` bytes of `v`, or
/// `None` when it is shorter.
pub open spec fn take_or_none(v: Seq<char>, n: int) -> Seq<Tree> {
    seq![ident("let"@)] + option_variant("Some"@) + seq![
        Tree::Group(
            Delimiter::Parenthesis,
            seq![Tree::Group(Delimiter::Parenthesis, seq![ident(v), punct(','), ident("_"@)])],
        ),
        punct('='), ident(v), punct('.'), ident("split_at_checked"@),
        Tree::Group(Delimiter::Parenthesis, seq![num(n)]), ident("else"@),
        Tree::Group(Delimiter::Brace, seq![ident("return"@)] + option_variant("None"@) + seq![punct(';')]),
        punct(';'),
    ]
}

/// `impl ::bitx::Bits for name { body }`
pub open spec fn bits_impl(name: Seq<char>, body: Seq<Tree>) -> Seq<Tree> {
    seq![ident("impl"@)] + colons() + seq![ident("bitx"@)] + colons() + seq![
        ident("Bits"@), ident("for"@), ident(name), Tree::Group(Delimiter::Brace, body),
    ]
}

/// `type Mask = mask; type Read<'a> = read; const BITS: ::core::primitive::u32 = size;`
pub open spec fn bits_body(mask: Seq<Tree>, read: Seq<Tree>, size: int) -> Seq<Tree> {
    seq![ident("type"@), ident("Mask"@), punct('=')] + mask + seq![
        punct(';'), ident("type"@), ident("Read"@), punct('<'), punct('\''), ident("a"@), punct('>'), punct('='),
    ] + read + seq![punct(';'), ident("const"@), ident("BITS"@), punct(':')] + primitive("u32"@) + seq![
        punct('='), num(size), punct(';'),
    ]
}

/// `attrs vis const fn name(params) -> ret { body }`
pub open spec fn const_fn(
    attrs: Seq<Tree>,
    vis: Seq<Tree>,
    name: Seq<char>,
    params: Seq<Tree>,
    ret: Seq<Tree>,
    body: Seq<Tree>,
) -> Seq<Tree> {
    attrs + vis + seq![
        ident("const"@), ident("fn"@), ident(name), Tree::Group(Delimiter::Parenthesis, params), punct('-'),
        punct('>'),
    ] + ret + seq![Tree::Group(Delimiter::Brace, body)]
}

/// No tokens.
pub(crate) fn empty_tokens() -> (r: Vec<Token>)
    ensures
        trees(r@) == Seq::<Tree>::empty(),
{
    let v: Vec<Token> = Vec::new();
    proof {
        assert(trees(v@) =~= Seq::<Tree>::empty());
    }
    v
}

/// The tokens of `outer_attr`.
pub(crate) fn outer_attr_tokens(inner: Vec<Token>) -> (r: Vec<Token>)
    ensures
        trees(r@) == outer_attr(trees(inner@)),
{
    let ghost it = trees(inner@);
    let v = vec![Token::Punct('#'), group(Delimiter::Bracket, inner)];
    proof {
        lemma_trees_index(v@);
        assert(trees(v@) =~= outer_attr(it));
    }
    v
}

/// The tokens of `inline_attr`.
pub(crate) fn inline_tokens() -> (r: Vec<Token>)
    ensures
        trees(r@) == inline_attr(),
{
    let inner = vec![word("inline")];
    proof {
        lemma_trees_index(inner@);
        assert(trees(inner@) =~= seq![ident("inline"@)]);
    }
    outer_attr_tokens(inner)
}

/// The tokens of `hidden_attr`.
pub(crate) fn hidden_tokens() -> (r: Vec<Token>)
    ensures
        trees(r@) == hidden_attr(),
{
    let h = vec![word("hidden")];
    proof {
        lemma_trees_index(h@);
        assert(trees(h@) =~= seq![ident("hidden"@)]);
    }
    let inner = vec![word("doc"), group(Delimiter::Parenthesis, h)];
    proof {
        lemma_trees_index(inner@);
        assert(trees(inner@) =~= seq![ident("doc"@), Tree::Group(Delimiter::Parenthesis, seq![ident("hidden"@)])]);
    }
    outer_attr_tokens(inner)
}

/// The tokens of `option_variant`.
pub(crate) fn option_tokens(which: &str) -> (r: Vec<Token>)
    ensures
        trees(r@) == option_variant(which@),
{
    let v = vec![
        Token::Punct(':'), Token::Punct(':'), word("core"), Token::Punct(':'), Token::Punct(':'), word("option"),
        Token::Punct(':'), Token::Punct(':'), word("Option"), Token::Punct(':'), Token::Punct(':'), word(which),
    ];
    proof {
        lemma_trees_index(v@);
        assert(trees(v@) =~= option_variant(which@));
    }
    v
}

/// The tokens of `option_path`.
pub(crate) fn option_path_tokens() -> (r: Vec<Token>)
    ensures
        trees(r@) == option_path(),
{
    let v = vec![
        Token::Punct(':'), Token::Punct(':'), word("core"), Token::Punct(':'), Token::Punct(':'), word("option"),
        Token::Punct(':'), Token::Punct(':'), word("Option"),
    ];
    proof {
        lemma_trees_index(v@);
        assert(trees(v@) =~= option_path());
    }
    v
}

/// The tokens of `byte_array`.
pub(crate) fn byte_array_token(n: u32) -> (t: Token)
    ensures
        t.tree() == byte_array(n as int),
{
    let mut inner = uint_tokens(8);
    put(&mut inner, Token::Punct(';'));
    put(&mut inner, number(n as usize));
    proof {
        assert(trees(inner@) =~= uint_trees(8) + seq![punct(';'), num(n as int)]);
    }
    group(Delimiter::Bracket, inner)
}

/// The tokens of `take_or_none`.
pub(crate) fn take_or_none_tokens(v: &str, n: u32) -> (r: Vec<Token>)
    ensures
        trees(r@) == take_or_none(v@, n as int),
{
    let pair = vec![word(v), Token::Punct(','), word("_")];
    proof {
        lemma_trees_index(pair@);
        assert(trees(pair@) =~= seq![ident(v@), punct(','), ident("_"@)]);
    }
    let ghost pt = trees(pair@);
    let outer = vec![group(Delimiter::Parenthesis, pair)];
    proof {
        lemma_trees_index(outer@);
        assert(trees(outer@) =~= seq![Tree::Group(Delimiter::Parenthesis, pt)]);
    }
    let ghost ot = trees(outer@);
    let count = vec![number(n as usize)];
    proof {
        lemma_trees_index(count@);
        assert(trees(count@) =~= seq![num(n as int)]);
    }
    let mut ret = vec![word("return")];
    proof {
        lemma_trees_index(ret@);
        assert(trees(ret@) =~= seq![ident("return"@)]);
    }
    put_all(&mut ret, option_tokens("None"));
    put(&mut ret, Token::Punct(';'));
    let ghost rt = trees(ret@);
    let mut out = vec![word("let")];
    proof {
        lemma_trees_index(out@);
        assert(trees(out@) =~= seq![ident("let"@)]);
    }
    put_all(&mut out, option_tokens("Some"));
    let tail = vec![
        group(Delimiter::Parenthesis, outer), Token::Punct('='), word(v), Token::Punct('.'),
        word("split_at_checked"), group(Delimiter::Parenthesis, count), word("else"),
        group(Delimiter::Brace, ret), Token::Punct(';'),
    ];
    proof {
        lemma_trees_index(tail@);
        assert(trees(tail@) =~= seq![
            Tree::Group(Delimiter::Parenthesis, ot), punct('='), ident(v@), punct('.'), ident("split_at_checked"@),
            Tree::Group(Delimiter::Parenthesis, seq![num(n as int)]), ident("else"@),
            Tree::Group(Delimiter::Brace, rt), punct(';'),
        ]);
    }
    let ghost tt = trees(tail@);
    put_all(&mut out, tail);
    proof {
        assert(ot == seq![Tree::Group(Delimiter::Parenthesis, seq![ident(v@), punct(','), ident("_"@)])]);
        assert(rt == seq![ident("return"@)] + option_variant("None"@) + seq![punct(';')]);
        assert(tt =~= seq![
            Tree::Group(
                Delimiter::Parenthesis,
                seq![Tree::Group(Delimiter::Parenthesis, seq![ident(v@), punct(','), ident("_"@)])],
            ),
            punct('='), ident(v@), punct('.'), ident("split_at_checked"@),
            Tree::Group(Delimiter::Parenthesis, seq![num(n as int)]), ident("else"@),
            Tree::Group(Delimiter::Brace, seq![ident("return"@)] + option_variant("None"@) + seq![punct(';')]),
            punct(';'),
        ]);
        assert(trees(out@) =~= seq![ident("let"@)] + option_variant("Some"@) + tt);
    }
    out
}

/// The tokens of `bits_impl`.
pub(crate) fn bits_impl_tokens(name: &str, body: Vec<Token>) -> (r: Vec<Token>)
    ensures
        trees(r@) == bits_impl(name@, trees(body@)),
{
    let ghost bt = trees(body@);
    let v = vec![
        word("impl"), Token::Punct(':'), Token::Punct(':'), word("bitx"), Token::Punct(':'), Token::Punct(':'),
        word("Bits"), word("for"), word(name), group(Delimiter::Brace, body),
    ];
    proof {
        lemma_trees_index(v@);
        assert(trees(v@) =~= bits_impl(name@, bt));
    }
    v
}

/// The tokens of `bits_body`.
pub(crate) fn bits_body_tokens(mask: Vec<Token>, read: Vec<Token>, size: u32) -> (r: Vec<Token>)
    ensures
        trees(r@) == bits_body(trees(mask@), trees(read@), size as int),
{
    let mut out = vec![word("type"), word("Mask"), Token::Punct('=')];
    proof {
        lemma_trees_index(out@);
        assert(trees(out@) =~= seq![ident("type"@), ident("Mask"@), punct('=')]);
    }
    put_all(&mut out, mask);
    let a = vec![
        Token::Punct(';'), word("type"), word("Read"), Token::Punct('<'), Token::Punct('\''), word("a"),
        Token::Punct('>'), Token::Punct('='),
    ];
    proof {
        lemma_trees_index(a@);
        assert(trees(a@) =~= seq![
            punct(';'), ident("type"@), ident("Read"@), punct('<'), punct('\''), ident("a"@), punct('>'), punct('='),
        ]);
    }
    put_all(&mut out, a);
    put_all(&mut out, read);
    let b = vec![Token::Punct(';'), word("const"), word("BITS"), Token::Punct(':')];
    proof {
        lemma_trees_index(b@);
        assert(trees(b@) =~= seq![punct(';'), ident("const"@), ident("BITS"@), punct(':')]);
    }
    put_all(&mut out, b);
    put_all(&mut out, primitive_tokens(word("u32")));
    let c = vec![Token::Punct('='), number(size as usize), Token::Punct(';')];
    proof {
        lemma_trees_index(c@);
        assert(trees(c@) =~= seq![punct('='), num(size as int), punct(';')]);
    }
    put_all(&mut out, c);
    out
}

/// The tokens of `const_fn`.
pub(crate) fn const_fn_tokens(
    attrs: Vec<Token>,
    vis: Vec<Token>,
    name: &str,
    params: Vec<Token>,
    ret: Vec<Token>,
    body: Vec<Token>,
) -> (r: Vec<Token>)
    ensures
        trees(r@) == const_fn(trees(attrs@), trees(vis@), name@, trees(params@), trees(ret@), trees(body@)),
{
    let ghost pt = trees(params@);
    let ghost bt = trees(body@);
    let mut out = attrs;
    put_all(&mut out, vis);
    let head = vec![
        word("const"), word("fn"), word(name), group(Delimiter::Parenthesis, params), Token::Punct('-'),
        Token::Punct('>'),
    ];
    proof {
        lemma_trees_index(head@);
        assert(trees(head@) =~= seq![
            ident("const"@), ident("fn"@), ident(name@), Tree::Group(Delimiter::Parenthesis, pt), punct('-'),
            punct('>'),
        ]);
    }
    put_all(&mut out, head);
    put_all(&mut out, ret);
    put(&mut out, group(Delimiter::Brace, body));
    out
}

/// The body of the function that ends `ts`: its closing braced group.
pub open spec fn last_body(ts: Seq<Tree>) -> Seq<Tree> {
    match ts.last() {
        Tree::Group(Delimiter::Brace, b) => b,
        _ => Seq::empty(),
    }
}

/// The number that a literal tree writes.
pub open spec fn literal_value(t: Tree) -> Option<int> {
    match t {
        Tree::Literal(d) => parse_u128_spec(d),
        _ => None,
    }
}

/// Position `i` of `b` calls `split_at_checked` with one argument.
pub open spec fn checked_split_at(b: Seq<Tree>, i: int) -> bool {
    &&& 0 <= i
    &&& i + 1 < b.len()
    &&& b[i] == Tree::Ident("split_at_checked"@)
    &&& b[i + 1] matches Tree::Group(Delimiter::Parenthesis, args) && args.len() == 1
}

/// The count that the first `split_at_checked` of `b` splits off, read from
/// its literal argument.
pub open spec fn checked_split_count(b: Seq<Tree>) -> Option<int> {
    if exists|i: int| checked_split_at(b, i) && forall|k: int| 0 <= k < i ==> !checked_split_at(b, k) {
        let i = choose|i: int| checked_split_at(b, i) && forall|k: int| 0 <= k < i ==> !checked_split_at(b, k);
        literal_value(b[i + 1]->Group_1[0])
    } else {
        None
    }
}

/// Whatever follows it, `take_or_none(v, n)` is the first `split_at_checked`
/// of a body, and it splits off `n`.
pub proof fn lemma_take_or_none_count(v: Seq<char>, n: nat, rest: Seq<Tree>)
    requires
        n <= u128::MAX,
    ensures
        checked_split_count(take_or_none(v, n as int) + rest) == Some(n as int),
{
    let t = take_or_none(v, n as int);
    let b = t + rest;
    let some = option_variant("Some"@);
    let none = option_variant("None"@);
    assert(some.len() == 12);
    assert(t =~= seq![ident("let"@)] + some + seq![
        Tree::Group(
            Delimiter::Parenthesis,
            seq![Tree::Group(Delimiter::Parenthesis, seq![ident(v), punct(','), ident("_"@)])],
        ),
        punct('='), ident(v), punct('.'), ident("split_at_checked"@),
        Tree::Group(Delimiter::Parenthesis, seq![num(n as int)]), ident("else"@),
        Tree::Group(Delimiter::Brace, seq![ident("return"@)] + none + seq![punct(';')]),
        punct(';'),
    ]);
    assert(t.len() == 22);
    assert(b[17] == t[17]);
    assert(b[18] == t[18]);
    assert(t[17] == ident("split_at_checked"@));
    assert(t[18] == Tree::Group(Delimiter::Parenthesis, seq![num(n as int)]));
    assert(checked_split_at(b, 17));
    assert(some =~= seq![
        punct(':'), punct(':'), ident("core"@), punct(':'), punct(':'), ident("option"@), punct(':'), punct(':'),
        ident("Option"@), punct(':'), punct(':'), ident("Some"@),
    ]);
    reveal_strlit("Some");
    reveal_strlit("split_at_checked");
    assert("Some"@ != "split_at_checked"@) by {
        assert("Some"@.len() != "split_at_checked"@.len());
    }
    assert forall|k: int| 0 <= k < 17 implies !checked_split_at(b, k) by {
        assert(b[k] == t[k]);
        assert(b[k + 1] == t[k + 1]);
        if 0 <= k < 12 {
            assert(t[k + 1] == some[k]);
        }
    }
    let i = choose|i: int| checked_split_at(b, i) && forall|k: int| 0 <= k < i ==> !checked_split_at(b, k);
    assert(i == 17) by {
        if i < 17 {
        } else if i > 17 {
            assert(!checked_split_at(b, 17));
        }
    }
    lemma_decimal_literal(n);
}

} // verus!
