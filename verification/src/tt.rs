//! The macro input as plain token trees, and the pieces of its grammar that
//! every definition shares: attributes, visibility, field placements.

use vstd::prelude::*;
use vstd::string::*;
use crate::lit::{copy_range, decimal, parse_u128, parse_u128_spec, write_decimal, write_decimal_u128};

verus! {

/// A field placement `byte.bit;size`, in bits from the start of the struct.
#[derive(Debug, Copy, Clone, PartialEq, Eq, Structural)]
pub struct Layout {
    pub offset: u32,
    pub size: u32,
}

/// The type of a field.
#[derive(Debug)]
pub enum Type {
    /// `bool`, for one-bit fields.
    Bool,
    /// `u8`, `u16`, `u32`, `u64` or `u128`; the payload is the width in bits.
    Literal(u32),
    /// A type written by the user (its tokens); its layout is its own.
    Named(Vec<Token>),
}

impl Type {
    /// The type of one-bit fields.
    pub fn boolean() -> (r: Type)
        ensures
            r is Bool,
    {
        Type::Bool
    }

    /// The unsigned integer type of `size` bits.
    pub fn literal(size: u32) -> (r: Type)
        ensures
            r == Type::Literal(size),
    {
        Type::Literal(size)
    }
}

/// The delimiter of a token group.
#[derive(Debug, Copy, Clone, PartialEq, Eq, Structural)]
pub enum Delimiter {
    /// `( .. )`
    Parenthesis,
    /// `{ .. }`
    Brace,
    /// `[ .. ]`
    Bracket,
    /// A group without visible delimiters.
    Invisible,
}

/// One token tree of the macro input.
#[derive(Debug)]
pub enum Token {
    /// An identifier or keyword.
    Ident(String),
    /// A punctuation character.
    Punct(char),
    /// A literal, by the text it is written with.
    Literal(Vec<u8>),
    /// A delimited group and the tokens inside it.
    Group(Delimiter, Vec<Token>),
}

/// A token tree by value: an identifier by its characters, a literal by
/// its text, a group by the trees inside it.
pub enum Tree {
    Ident(Seq<char>),
    Punct(char),
    Literal(Seq<u8>),
    Group(Delimiter, Seq<Tree>),
}

impl Token {
    /// The token as a tree value.
    pub open spec fn tree(self) -> Tree
        decreases self, 1int,
    {
        match self {
            Token::Ident(s) => Tree::Ident(s@),
            Token::Punct(c) => Tree::Punct(c),
            Token::Literal(b) => Tree::Literal(b@),
            Token::Group(d, ts) => Tree::Group(d, trees(ts@)),
        }
    }
}

/// The tokens as tree values.
pub open spec fn trees(ts: Seq<Token>) -> Seq<Tree>
    decreases ts, 0int,
{
    if ts.len() == 0 {
        seq![]
    } else {
        seq![ts[0].tree()] + trees(ts.drop_first())
    }
}

/// Trees of a concatenation are the concatenated trees.
pub proof fn lemma_trees_concat(a: Seq<Token>, b: Seq<Token>)
    ensures
        trees(a + b) == trees(a) + trees(b),
    decreases a.len(),
{
    if a.len() == 0 {
        assert(a + b == b);
    } else {
        assert((a + b).drop_first() == a.drop_first() + b);
        lemma_trees_concat(a.drop_first(), b);
    }
}

/// The trees of tokens, one by one.
pub proof fn lemma_trees_index(s: Seq<Token>)
    ensures
        trees(s).len() == s.len(),
        forall|i: int| 0 <= i < s.len() ==> #[trigger] trees(s)[i] == s[i].tree(),
    decreases s.len(),
{
    if s.len() > 0 {
        lemma_trees_index(s.drop_first());
        assert forall|i: int| 0 <= i < s.len() implies #[trigger] trees(s)[i] == s[i].tree() by {
            if i > 0 {
                assert(s.drop_first()[i - 1] == s[i]);
            }
        }
    }
}

/// The trees of one token.
pub proof fn lemma_trees_one(t: Token)
    ensures
        trees(seq![t]) == seq![t.tree()],
{
    assert(seq![t].drop_first() == Seq::<Token>::empty());
    assert(trees(Seq::<Token>::empty()) == Seq::<Tree>::empty());
    assert(seq![t.tree()] + Seq::<Tree>::empty() == seq![t.tree()]);
}

/// The identifier `w`.
pub fn word(w: &str) -> (t: Token)
    ensures
        t.tree() == Tree::Ident(w@),
{
    Token::Ident(String::from_str(w))
}

/// The number `n`, written in decimal with no suffix.
pub fn number(n: usize) -> (t: Token)
    ensures
        t.tree() == Tree::Literal(decimal(n as nat)),
{
    Token::Literal(write_decimal(n))
}

/// The `u128` number `n`, written in decimal with no suffix.
pub fn number_u128(n: u128) -> (t: Token)
    ensures
        t.tree() == Tree::Literal(decimal(n as nat)),
{
    Token::Literal(write_decimal_u128(n))
}

/// The number `n` with the suffix `usize`.
pub open spec fn usize_lit(n: nat) -> Tree {
    Tree::Literal(decimal(n) + seq![117u8, 115u8, 105u8, 122u8, 101u8])
}

/// The number `n`, written in decimal with the suffix `usize`.
pub fn usize_number(n: usize) -> (t: Token)
    ensures
        t.tree() == usize_lit(n as nat),
{
    let mut text = write_decimal(n);
    text.push(117u8);
    text.push(115u8);
    text.push(105u8);
    text.push(122u8);
    text.push(101u8);
    assert(text@ =~= decimal(n as nat) + seq![117u8, 115u8, 105u8, 122u8, 101u8]);
    Token::Literal(text)
}

/// The group of `ts` within `d`.
pub fn group(d: Delimiter, ts: Vec<Token>) -> (t: Token)
    ensures
        t.tree() == Tree::Group(d, trees(ts@)),
{
    Token::Group(d, ts)
}

/// Appends one token.
pub fn put(out: &mut Vec<Token>, t: Token)
    ensures
        trees(final(out)@) == trees(old(out)@).push(t.tree()),
{
    let ghost before = out@;
    out.push(t);
    proof {
        lemma_trees_concat(before, seq![t]);
        assert(before.push(t) == before + seq![t]);
        lemma_trees_one(t);
    }
}

/// Appends tokens.
pub fn put_all(out: &mut Vec<Token>, mut ts: Vec<Token>)
    ensures
        trees(final(out)@) == trees(old(out)@) + trees(ts@),
{
    let ghost before = out@;
    let ghost more = ts@;
    out.append(&mut ts);
    proof {
        lemma_trees_concat(before, more);
    }
}

impl Token {
    /// A copy of the token.
    pub fn copy(&self) -> (r: Token)
        ensures
            r.tree() == self.tree(),
        decreases self,
    {
        match self {
            Token::Ident(s) => {
                let c = s.clone();
                assert(c@ == s@);
                Token::Ident(c)
            },
            Token::Punct(c) => Token::Punct(*c),
            Token::Literal(b) => {
                let c = copy_range(b.as_slice(), 0, b.len());
                assert(c@ == b@);
                Token::Literal(c)
            },
            Token::Group(d, ts) => {
                let c = copy_tokens(ts);
                Token::Group(*d, c)
            },
        }
    }
}

/// Copies of the tokens.
pub fn copy_tokens(ts: &Vec<Token>) -> (r: Vec<Token>)
    ensures
        trees(r@) == trees(ts@),
    decreases ts,
{
    let mut out: Vec<Token> = Vec::new();
    let mut i: usize = 0;
    while i < ts.len()
        invariant
            i <= ts@.len(),
            trees(out@) == trees(ts@.take(i as int)),
        decreases ts.len() - i,
    {
        proof {
            assert(decreases_to!(ts => ts@));
            assert(decreases_to!(ts@ => ts@[i as int]));
        }
        let t = ts[i].copy();
        put(&mut out, t);
        proof {
            lemma_trees_concat(ts@.take(i as int), seq![ts@[i as int]]);
            assert(ts@.take(i + 1) == ts@.take(i as int) + seq![ts@[i as int]]);
            lemma_trees_one(ts@[i as int]);
        }
        i = i + 1;
    }
    proof {
        assert(ts@.take(i as int) == ts@);
    }
    out
}

/// Why the macro input is refused.
#[derive(Debug, Copy, Clone, PartialEq, Eq, Structural)]
pub enum ParseError {
    /// `struct` or `enum` expected.
    KindExpected,
    /// An identifier expected.
    IdentExpected,
    /// `:` expected after the name.
    ColonExpected,
    /// The size is not written `uN`.
    BadRepr,
    /// `{ .. }` expected around the body.
    BodyExpected,
    /// `,` expected between two fields or variants.
    CommaExpected,
    /// A literal expected.
    LiteralExpected,
    /// `;` expected between a field's offset and its size.
    SemicolonExpected,
    /// The placement is not `byte.bit;size` with a bit of 0-7, in `u32` bits.
    BadLayout,
    /// A type expected after `:`.
    TypeExpected,
    /// The second `.` of a range expected.
    DotExpected,
    /// `=>` expected after the values of a variant.
    ArrowExpected,
    /// `a` of `a..b` is not an integer that fits `u128`.
    InvalidStart,
    /// `b` of `a..b` is not an integer that fits `u128`.
    InvalidEnd,
    /// `a..b` with `b <= a`.
    EmptyRange,
}

/// Token `i` of `t` is the punctuation `c`.
pub open spec fn punct_at(t: Seq<Token>, i: int, c: char) -> bool {
    0 <= i < t.len() && t[i] == Token::Punct(c)
}

/// Token `i` of `t` is the identifier `w`.
pub open spec fn word_at(t: Seq<Token>, i: int, w: Seq<char>) -> bool {
    0 <= i < t.len() && (t[i] matches Token::Ident(x) && x@ == w)
}

/// Token `i` of `t` is a group delimited by `d`.
pub open spec fn group_at(t: Seq<Token>, i: int, d: Delimiter) -> bool {
    0 <= i < t.len() && (t[i] matches Token::Group(x, _) && x == d)
}

/// Token `i` of `t` is an identifier.
pub open spec fn ident_at(t: Seq<Token>, i: int) -> bool {
    0 <= i < t.len() && t[i] is Ident
}

/// Token `i` of `t` is a literal.
pub open spec fn literal_at(t: Seq<Token>, i: int) -> bool {
    0 <= i < t.len() && t[i] is Literal
}

/// The text of literal `i` of `t`.
pub open spec fn literal_text(t: Seq<Token>, i: int) -> Seq<u8> {
    (t[i]->Literal_0)@
}

/// How many tokens the attributes (`#[..]`) at the front of `t` take.
pub open spec fn attr_len(t: Seq<Token>) -> nat
    decreases t.len(),
{
    if punct_at(t, 0, '#') && group_at(t, 1, Delimiter::Bracket) {
        2 + attr_len(t.skip(2))
    } else {
        0
    }
}

/// How many tokens the visibility (`pub`, `pub(..)`) at the front of `t` takes.
pub open spec fn vis_len(t: Seq<Token>) -> nat {
    if word_at(t, 0, seq!['p', 'u', 'b']) {
        if group_at(t, 1, Delimiter::Parenthesis) {
            2
        } else {
            1
        }
    } else {
        0
    }
}

/// The placement `byte.bit;size` from the texts of its offset and size:
/// the offset is `byte` or `byte.bit`, each an integer, the bit below 8.
pub open spec fn layout_of(offset: Seq<u8>, size: Seq<u8>) -> Option<Layout> {
    let dot = exists|i: int| 0 <= i < offset.len() && offset[i] == 46;
    let d = choose|i: int| 0 <= i < offset.len() && offset[i] == 46 && forall|k: int| 0 <= k < i ==> offset[k] != 46;
    let byte = if dot { parse_u128_spec(offset.take(d)) } else { parse_u128_spec(offset) };
    let bit = if dot { parse_u128_spec(offset.skip(d + 1)) } else { Some(0int) };
    match (byte, bit, parse_u128_spec(size)) {
        (Some(a), Some(b), Some(s)) => if b < 8 && a * 8 + b <= u32::MAX && s <= u32::MAX {
            Some(Layout { offset: (a * 8 + b) as u32, size: s as u32 })
        } else {
            None
        },
        _ => None,
    }
}

/// What the placement at the front of `t` reads as; it takes three tokens.
pub open spec fn layout_read(t: Seq<Token>) -> Result<Layout, ParseError> {
    if !literal_at(t, 0) {
        Err(ParseError::LiteralExpected)
    } else if !punct_at(t, 1, ';') {
        Err(ParseError::SemicolonExpected)
    } else if !literal_at(t, 2) {
        Err(ParseError::LiteralExpected)
    } else {
        match layout_of(literal_text(t, 0), literal_text(t, 2)) {
            Some(l) => Ok(l),
            None => Err(ParseError::BadLayout),
        }
    }
}

/// The token is the punctuation `c`.
pub fn is_punct(t: &Token, c: char) -> (r: bool)
    ensures
        r == (*t == Token::Punct(c)),
{
    match t {
        Token::Punct(x) => *x == c,
        _ => false,
    }
}

/// The token is the identifier `w`.
pub fn is_word(t: &Token, w: &str) -> (r: bool)
    ensures
        r == (t matches Token::Ident(x) && x@ == w@),
{
    match t {
        Token::Ident(x) => *x == String::from_str(w),
        _ => false,
    }
}

/// The token is a group delimited by `d`.
pub fn is_group(t: &Token, d: Delimiter) -> (r: bool)
    ensures
        r == (t matches Token::Group(x, _) && x == d),
{
    match t {
        Token::Group(x, _) => *x == d,
        _ => false,
    }
}

/// Moves the first `n` tokens of `rest` out.
pub fn take_front(rest: &mut Vec<Token>, n: usize) -> (r: Vec<Token>)
    requires
        n <= old(rest)@.len(),
    ensures
        r@ == old(rest)@.take(n as int),
        final(rest)@ == old(rest)@.skip(n as int),
{
    let ghost t = rest@;
    let mut out: Vec<Token> = Vec::new();
    let mut i: usize = 0;
    while i < n
        invariant
            i <= n <= t.len(),
            out@ == t.take(i as int),
            rest@ == t.skip(i as int),
        decreases n - i,
    {
        let x = rest.remove(0);
        proof {
            assert(t.take(i + 1) == t.take(i as int).push(x));
            assert(rest@ == t.skip(i + 1));
        }
        out.push(x);
        i = i + 1;
    }
    out
}

/// Moves the attributes at the front of `rest` out.
pub fn read_attr(rest: &mut Vec<Token>) -> (r: Vec<Token>)
    ensures
        attr_len(old(rest)@) <= old(rest)@.len(),
        r@ == old(rest)@.take(attr_len(old(rest)@) as int),
        final(rest)@ == old(rest)@.skip(attr_len(old(rest)@) as int),
{
    let ghost t = rest@;
    let mut out: Vec<Token> = Vec::new();
    let ghost mut i: int = 0;
    assert(t.skip(0) == t);
    while rest.len() >= 2 && is_punct(&rest[0], '#') && is_group(&rest[1], Delimiter::Bracket)
        invariant
            0 <= i <= t.len(),
            out@ == t.take(i),
            rest@ == t.skip(i),
            attr_len(t) == i + attr_len(t.skip(i)),
            attr_len(t.skip(i)) > 0 ==> attr_len(t.skip(i)) >= 2,
        decreases rest.len(),
    {
        proof {
            assert(t.skip(i).skip(2) == t.skip(i + 2));
        }
        let mut two = take_front(rest, 2);
        proof {
            assert(t.take(i + 2) == t.take(i) + two@);
        }
        out.append(&mut two);
        proof {
            i = i + 2;
        }
    }
    out
}

/// Moves the visibility at the front of `rest` out.
pub fn read_vis(rest: &mut Vec<Token>) -> (r: Vec<Token>)
    ensures
        vis_len(old(rest)@) <= old(rest)@.len(),
        r@ == old(rest)@.take(vis_len(old(rest)@) as int),
        final(rest)@ == old(rest)@.skip(vis_len(old(rest)@) as int),
{
    proof {
        reveal_strlit("pub");
        assert("pub"@ == seq!['p', 'u', 'b']);
    }
    let n: usize = if rest.len() >= 1 && is_word(&rest[0], "pub") {
        if rest.len() >= 2 && is_group(&rest[1], Delimiter::Parenthesis) {
            2
        } else {
            1
        }
    } else {
        0
    };
    take_front(rest, n)
}

/// The position of the first `.` in `s`, if any.
fn find_dot(s: &[u8]) -> (r: Option<usize>)
    ensures
        match r {
            Some(d) => d < s@.len() && s@[d as int] == 46 && forall|k: int| 0 <= k < d ==> s@[k] != 46,
            None => forall|k: int| 0 <= k < s@.len() ==> s@[k] != 46,
        },
{
    let mut i: usize = 0;
    while i < s.len()
        invariant
            i <= s@.len(),
            forall|k: int| 0 <= k < i ==> s@[k] != 46,
        decreases s.len() - i,
    {
        if s[i] == 46 {
            return Some(i);
        }
        i = i + 1;
    }
    None
}

impl Layout {
    /// Reads the placement `byte.bit;size` at the front of `rest`.
    pub fn parse(rest: &mut Vec<Token>) -> (r: Result<Layout, ParseError>)
        ensures
            r == layout_read(old(rest)@),
            r is Ok ==> final(rest)@ == old(rest)@.skip(3),
    {
        let ghost t = rest@;
        if rest.len() == 0 || !matches!(rest[0], Token::Literal(_)) {
            return Err(ParseError::LiteralExpected);
        }
        if rest.len() < 2 || !is_punct(&rest[1], ';') {
            return Err(ParseError::SemicolonExpected);
        }
        if rest.len() < 3 || !matches!(rest[2], Token::Literal(_)) {
            return Err(ParseError::LiteralExpected);
        }
        let parts = take_front(rest, 3);
        let (offset, size) = match (&parts[0], &parts[2]) {
            (Token::Literal(o), Token::Literal(s)) => (o, s),
            _ => {
                proof {
                    assert(false);
                }
                return Err(ParseError::BadLayout);
            },
        };
        proof {
            assert(offset@ == literal_text(t, 0));
            assert(size@ == literal_text(t, 2));
        }
        let o = offset.as_slice();
        let (byte, bit) = match find_dot(o) {
            Some(d) => {
                let before = copy_range(o, 0, d);
                let after = copy_range(o, d + 1, o.len());
                proof {
                    assert(before@ == o@.take(d as int));
                    assert(after@ == o@.skip(d + 1));
                    let c = choose|i: int| 0 <= i < o@.len() && o@[i] == 46 && forall|k: int| 0 <= k < i ==> o@[k] != 46;
                    assert(c == d) by {
                        if c < d {
                            assert(o@[c] != 46);
                        } else if c > d {
                            assert(o@[d as int] != 46);
                        }
                    }
                }
                (parse_u128(before.as_slice()), parse_u128(after.as_slice()))
            },
            None => (parse_u128(o), Some(0u128)),
        };
        let s = parse_u128(size.as_slice());
        match (byte, bit, s) {
            (Some(a), Some(b), Some(s)) => {
                if b < 8 && a <= (u32::MAX as u128 - b) / 8 && s <= u32::MAX as u128 {
                    Ok(Layout { offset: (a * 8 + b) as u32, size: s as u32 })
                } else {
                    Err(ParseError::BadLayout)
                }
            },
            _ => Err(ParseError::BadLayout),
        }
    }
}

/// A placement at a byte boundary may leave out `.0`: the offset written
/// `a` reads as `a.0`, `8 * a` bits; and `a;n` is the field of `n` bits
/// from there.
pub proof fn lemma_placement_without_bit(a: nat, n: nat, size: Seq<u8>)
    requires
        8 * a <= u32::MAX,
        n <= u32::MAX,
    ensures
        layout_of(decimal(a), size) == layout_of(decimal(a) + seq![46u8, 48u8], size),
        layout_of(decimal(a), decimal(n)) == Some(Layout { offset: (8 * a) as u32, size: n as u32 }),
{
    let t = decimal(a);
    let u = t + seq![46u8, 48u8];
    crate::lit::lemma_decimal_roundtrip(a);
    crate::lit::lemma_decimal_literal(a);
    crate::lit::lemma_decimal_literal(n);
    crate::lit::lemma_decimal_literal(0);
    assert(decimal(0) == seq![48u8]);
    assert forall|i: int| 0 <= i < t.len() implies t[i] != 46 by {
        assert(crate::lit::is_dec_digit(t[i]));
    }
    assert(!(exists|i: int| 0 <= i < t.len() && t[i] == 46));
    let d = t.len() as int;
    assert(u[d] == 46);
    assert(forall|k: int| 0 <= k < d ==> u[k] == t[k]);
    assert(exists|i: int| 0 <= i < u.len() && u[i] == 46);
    let c = choose|i: int| 0 <= i < u.len() && u[i] == 46 && forall|k: int| 0 <= k < i ==> u[k] != 46;
    assert(0 <= d < u.len() && u[d] == 46 && forall|k: int| 0 <= k < d ==> u[k] != 46);
    assert(c == d) by {
        if c < d {
            assert(u[c] == t[c]);
        } else if c > d {
            assert(u[d] != 46);
        }
    }
    assert(u.take(d) =~= t);
    assert(u.skip(d + 1) =~= seq![48u8]);
}

/// A placement `a.b;n` starts `8 * a + b` bits in when the bit `b` is
/// below 8, and is refused otherwise.
pub proof fn lemma_placement_with_bit(a: nat, b: nat, n: nat)
    requires
        8 * a + b <= u32::MAX,
        n <= u32::MAX,
    ensures
        b < 8 ==> layout_of(decimal(a) + seq![46u8] + decimal(b), decimal(n)) == Some(
            Layout { offset: (8 * a + b) as u32, size: n as u32 },
        ),
        b >= 8 ==> layout_of(decimal(a) + seq![46u8] + decimal(b), decimal(n)) is None,
{
    let t = decimal(a);
    let u = t + seq![46u8] + decimal(b);
    crate::lit::lemma_decimal_roundtrip(a);
    crate::lit::lemma_decimal_roundtrip(b);
    crate::lit::lemma_decimal_literal(a);
    crate::lit::lemma_decimal_literal(b);
    crate::lit::lemma_decimal_literal(n);
    let d = t.len() as int;
    assert(u[d] == 46);
    assert forall|k: int| 0 <= k < d implies u[k] != 46 by {
        assert(u[k] == t[k]);
        assert(crate::lit::is_dec_digit(t[k]));
    }
    assert(exists|i: int| 0 <= i < u.len() && u[i] == 46);
    let c = choose|i: int| 0 <= i < u.len() && u[i] == 46 && forall|k: int| 0 <= k < i ==> u[k] != 46;
    assert(0 <= d < u.len() && u[d] == 46 && forall|k: int| 0 <= k < d ==> u[k] != 46);
    assert(c == d) by {
        if c < d {
        } else if c > d {
            assert(u[d] != 46);
        }
    }
    assert(u.take(d) =~= t);
    assert(u.skip(d + 1) =~= decimal(b));
}

} // verus!
