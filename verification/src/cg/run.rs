//! What the tokens of a getter compute, read as the code they spell: a
//! reading of the statements that getters are made of, each with the
//! effect that Rust gives it.

use vstd::prelude::*;
use vstd::arithmetic::power2::pow2;
use crate::cg::{be_value, field_bits, lemma_be_concat};
use crate::cg::layout::{
    return_trees, FieldValue, angle, buffer_trees, call, colons, convert_trees, ident, num, punct, read_outcome, read_spec,
    read_tokens, type_trees, uint_trees, window_trees, lemma_read_is_field_bits,
};
use crate::hir::Layout;
use crate::hir::field::builtin_type;
use crate::hir::layout::lemma_layout_covers;
use crate::tt;
use crate::lit::{decimal, lex_int_spec, lemma_lex_decimal_then};
use crate::text::dec;
use crate::tt::{Delimiter, Tree, usize_lit};

verus! {

/// What a getter returns: a `bool`, an unsigned integer, the bytes handed
/// to a nested type's `from_slice`, the value handed to its `__from_mask`,
/// or no getter at all (a compile error in its place).
pub enum Got {
    Bool(bool),
    Uint(int),
    Bytes(Seq<u8>),
    Mask(int),
    Unsupported,
}

/// The getter's value of a `FieldValue`.
pub open spec fn got(v: FieldValue) -> Got {
    match v {
        FieldValue::Bool(b) => Got::Bool(b),
        FieldValue::Uint(x) => Got::Uint(x as int),
        FieldValue::Bytes(b) => Got::Bytes(b@),
        FieldValue::Mask(x) => Got::Mask(x as int),
        FieldValue::Unsupported => Got::Unsupported,
    }
}

/// What a running getter holds: the window `from`, the `buffer`, where the
/// part `into` starts in the buffer, and `val` with its width in bits.
pub struct Run {
    pub from: Option<Seq<u8>>,
    pub buffer: Option<Seq<u8>>,
    pub into: Option<int>,
    pub val: Option<(int, nat)>,
}

/// Nothing read yet.
pub open spec fn start() -> Run {
    Run { from: None, buffer: None, into: None, val: None }
}

/// The tree is the identifier `w`.
pub open spec fn is_ident(t: Tree, w: Seq<char>) -> bool {
    t == Tree::Ident(w)
}

/// The tree is the punctuation `c`.
pub open spec fn is_punct(t: Tree, c: char) -> bool {
    t == Tree::Punct(c)
}

/// The number an integer literal writes, with no suffix or with `usize`.
pub open spec fn lit_num(t: Tree) -> Option<int> {
    match t {
        Tree::Literal(d) => match lex_int_spec(d) {
            Some((v, e)) => if d.skip(e) == Seq::<u8>::empty() || d.skip(e) == seq![117u8, 115u8, 105u8, 122u8, 101u8] {
                Some(v)
            } else {
                None
            },
            None => None,
        },
        _ => None,
    }
}

/// The one tree inside a parenthesised group of one tree.
pub open spec fn paren_one(t: Tree) -> Option<Tree> {
    match t {
        Tree::Group(Delimiter::Parenthesis, s) => if s.len() == 1 {
            Some(s[0])
        } else {
            None
        },
        _ => None,
    }
}

/// The value of decimal digit characters.
pub open spec fn chars_value(s: Seq<char>) -> int
    decreases s.len(),
{
    if s.len() == 0 {
        0
    } else {
        chars_value(s.drop_last()) * 10 + (s.last() as int - 48)
    }
}

/// The width that a type name `uN` gives: `N`, written in decimal digits.
pub open spec fn uint_name(name: Seq<char>) -> Option<nat> {
    if name.len() >= 2 && name[0] == 'u' && forall|k: int| 1 <= k < name.len() ==> '0' <= #[trigger] name[k] <= '9' {
        Some(chars_value(name.skip(1)) as nat)
    } else {
        None
    }
}

/// The trees at `i` spell `::core::primitive::uN`: `N`.
pub open spec fn prim_width(t: Seq<Tree>, i: int) -> Option<nat> {
    if 0 <= i && i + 9 <= t.len() && is_punct(t[i], ':') && is_punct(t[i + 1], ':') && is_ident(t[i + 2], "core"@)
        && is_punct(t[i + 3], ':') && is_punct(t[i + 4], ':') && is_ident(t[i + 5], "primitive"@) && is_punct(
        t[i + 6],
        ':',
    ) && is_punct(t[i + 7], ':') && t[i + 8] is Ident {
        uint_name(t[i + 8]->Ident_0)
    } else {
        None
    }
}

/// The number in a parenthesised group of one literal.
pub open spec fn paren_num(t: Tree) -> Option<int> {
    match paren_one(t) {
        Some(x) => lit_num(x),
        None => None,
    }
}

/// A parenthesised `a - b` of two literals.
pub open spec fn diff_group(t: Tree) -> Option<(int, int)> {
    match t {
        Tree::Group(Delimiter::Parenthesis, s) => if s.len() == 3 && lit_num(s[0]) is Some && is_punct(s[1], '-')
            && lit_num(s[2]) is Some {
            Some((lit_num(s[0])->Some_0, lit_num(s[2])->Some_0))
        } else {
            None
        },
        _ => None,
    }
}

/// A bracketed `[0u8; m]`: `m`.
pub open spec fn zeroed_array(t: Tree) -> Option<int> {
    match t {
        Tree::Group(Delimiter::Bracket, s) => if s.len() == 3 && s[0] == Tree::Literal(seq![48u8, 117u8, 56u8])
            && is_punct(s[1], ';') && lit_num(s[2]) is Some {
            lit_num(s[2])
        } else {
            None
        },
        _ => None,
    }
}

/// `let from = self.0.split_at(a).1.split_at(b).0;`: `(a, b)`.
pub open spec fn window_stmt(t: Seq<Tree>) -> Option<(int, int)> {
    if t.len() >= 17 && is_ident(t[0], "let"@) && is_ident(t[1], "from"@) && is_punct(t[2], '=') && is_ident(
        t[3],
        "self"@,
    ) && is_punct(t[4], '.') && lit_num(t[5]) == Some(0int) && is_punct(t[6], '.') && is_ident(t[7], "split_at"@)
        && paren_num(t[8]) is Some && is_punct(t[9], '.') && lit_num(t[10]) == Some(1int) && is_punct(t[11], '.')
        && is_ident(t[12], "split_at"@) && paren_num(t[13]) is Some && is_punct(t[14], '.') && lit_num(t[15]) == Some(
        0int,
    ) && is_punct(t[16], ';') {
        Some((paren_num(t[8])->Some_0, paren_num(t[13])->Some_0))
    } else {
        None
    }
}

/// `let mut buffer = [0u8; m];`: `m`.
pub open spec fn buffer_stmt(t: Seq<Tree>) -> Option<int> {
    if t.len() >= 6 && is_ident(t[0], "let"@) && is_ident(t[1], "mut"@) && is_ident(t[2], "buffer"@) && is_punct(
        t[3],
        '=',
    ) && zeroed_array(t[4]) is Some && is_punct(t[5], ';') {
        zeroed_array(t[4])
    } else {
        None
    }
}

/// `let into = buffer.split_at_mut(m - b).1;`: `m - b`.
pub open spec fn into_stmt(t: Seq<Tree>) -> Option<int> {
    if t.len() >= 10 && is_ident(t[0], "let"@) && is_ident(t[1], "into"@) && is_punct(t[2], '=') && is_ident(
        t[3],
        "buffer"@,
    ) && is_punct(t[4], '.') && is_ident(t[5], "split_at_mut"@) && diff_group(t[6]) is Some && is_punct(t[7], '.')
        && lit_num(t[8]) == Some(1int) && is_punct(t[9], ';') {
        Some(diff_group(t[6])->Some_0.0 - diff_group(t[6])->Some_0.1)
    } else {
        None
    }
}

/// `::bitx::copy(into, from);`
pub open spec fn copy_stmt(t: Seq<Tree>) -> bool {
    &&& t.len() >= 8
    &&& is_punct(t[0], ':') && is_punct(t[1], ':') && is_ident(t[2], "bitx"@) && is_punct(t[3], ':')
    &&& is_punct(t[4], ':') && is_ident(t[5], "copy"@) && is_punct(t[7], ';')
    &&& t[6] == Tree::Group(
        Delimiter::Parenthesis,
        seq![Tree::Ident("into"@), Tree::Punct(','), Tree::Ident("from"@)],
    )
}

/// `let mut val = <uK>::from_be_bytes(buffer);`: `K`.
pub open spec fn let_val_stmt(t: Seq<Tree>) -> Option<nat> {
    if t.len() >= 20 && is_ident(t[0], "let"@) && is_ident(t[1], "mut"@) && is_ident(t[2], "val"@) && is_punct(
        t[3],
        '=',
    ) && is_punct(t[4], '<') && prim_width(t, 5) is Some && is_punct(t[14], '>') && is_punct(t[15], ':')
        && is_punct(t[16], ':') && is_ident(t[17], "from_be_bytes"@) && t[18] == Tree::Group(
        Delimiter::Parenthesis,
        seq![Tree::Ident("buffer"@)],
    ) && is_punct(t[19], ';') {
        prim_width(t, 5)
    } else {
        None
    }
}

/// `val >>= n;`: `n`.
pub open spec fn shr_stmt(t: Seq<Tree>) -> Option<int> {
    if t.len() >= 6 && is_ident(t[0], "val"@) && is_punct(t[1], '>') && is_punct(t[2], '>') && is_punct(t[3], '=')
        && lit_num(t[4]) is Some && is_punct(t[5], ';') {
        lit_num(t[4])
    } else {
        None
    }
}

/// `val &= <uK>::MAX >> (a - b);`: `(K, a - b)`.
pub open spec fn and_max_stmt(t: Seq<Tree>) -> Option<(nat, int)> {
    if t.len() >= 21 && is_ident(t[0], "val"@) && is_punct(t[1], '&') && is_punct(t[2], '=') && is_punct(t[3], '<')
        && prim_width(t, 4) is Some && is_punct(t[13], '>') && is_punct(t[14], ':') && is_punct(t[15], ':')
        && is_ident(t[16], "MAX"@) && is_punct(t[17], '>') && is_punct(t[18], '>') && diff_group(t[19]) is Some
        && is_punct(t[20], ';') {
        Some((prim_width(t, 4)->Some_0, diff_group(t[19])->Some_0.0 - diff_group(t[19])->Some_0.1))
    } else {
        None
    }
}

/// `let val = val as <ty as ::bitx::Bits>::Mask; <ty>::__from_mask(val)`
pub open spec fn from_mask_tail(ty: Seq<Tree>) -> Seq<Tree> {
    seq![
        Tree::Ident("let"@), Tree::Ident("val"@), Tree::Punct('='), Tree::Ident("val"@), Tree::Ident("as"@),
        Tree::Punct('<'),
    ] + ty + seq![
        Tree::Ident("as"@), Tree::Punct(':'), Tree::Punct(':'), Tree::Ident("bitx"@), Tree::Punct(':'),
        Tree::Punct(':'), Tree::Ident("Bits"@), Tree::Punct('>'), Tree::Punct(':'), Tree::Punct(':'),
        Tree::Ident("Mask"@), Tree::Punct(';'), Tree::Punct('<'),
    ] + ty + seq![
        Tree::Punct('>'), Tree::Punct(':'), Tree::Punct(':'), Tree::Ident("__from_mask"@),
        Tree::Group(Delimiter::Parenthesis, seq![Tree::Ident("val"@)]),
    ]
}

/// The value of the expression that ends a getter: `val == n`; `val as
/// uK`; `<uK>::from_be_bytes(buffer)`; `<ty>::from_slice(from)`, which
/// hands the window to a nested type; the value cast to a nested type's
/// mask and handed to its `__from_mask`; or a compile error.
pub open spec fn final_value(t: Seq<Tree>, st: Run) -> Option<Got> {
    if t.len() == 4 && is_ident(t[0], "val"@) && is_punct(t[1], '=') && is_punct(t[2], '=') && lit_num(t[3]) is Some
        && st.val is Some {
        Some(Got::Bool(st.val->Some_0.0 == lit_num(t[3])->Some_0))
    } else if t.len() == 11 && is_ident(t[0], "val"@) && is_ident(t[1], "as"@) && prim_width(t, 2) is Some
        && st.val is Some {
        Some(Got::Uint(st.val->Some_0.0 % pow2(prim_width(t, 2)->Some_0) as int))
    } else if t.len() >= 6 && is_punct(t[0], '<') && is_punct(t[t.len() - 5], '>') && is_punct(t[t.len() - 4], ':')
        && is_punct(t[t.len() - 3], ':') && is_ident(t[t.len() - 2], "from_slice"@) && t[t.len() - 1] == Tree::Group(
        Delimiter::Parenthesis,
        seq![Tree::Ident("from"@)],
    ) && st.from is Some {
        Some(Got::Bytes(st.from->Some_0))
    } else if t.len() >= 24 && (t.len() - 24) % 2 == 0 && t == from_mask_tail(
        t.subrange(6, 6 + (t.len() - 24) / 2),
    ) && st.val is Some {
        Some(Got::Mask(st.val->Some_0.0))
    } else if t.len() == 15 && is_punct(t[0], '<') && prim_width(t, 1) is Some && is_punct(t[10], '>') && is_punct(
        t[11],
        ':',
    ) && is_punct(t[12], ':') && is_ident(t[13], "from_be_bytes"@) && t[14] == Tree::Group(
        Delimiter::Parenthesis,
        seq![Tree::Ident("buffer"@)],
    ) && st.buffer is Some && st.buffer->Some_0.len() * 8 == prim_width(t, 1)->Some_0 {
        Some(Got::Uint(be_value(st.buffer->Some_0) as int))
    } else if t.len() == 8 && is_punct(t[0], ':') && is_punct(t[1], ':') && is_ident(t[2], "core"@) && is_punct(
        t[3],
        ':',
    ) && is_punct(t[4], ':') && is_ident(t[5], "compile_error"@) && is_punct(t[6], '!') && (t[7] matches Tree::Group(
        Delimiter::Parenthesis,
        s,
    ) && s.len() == 1 && s[0] is Literal) {
        Some(Got::Unsupported)
    } else {
        None
    }
}

/// A getter body run on the struct bytes `data`, statement by statement:
/// the window is the bytes it names; the buffer starts as zeros and the
/// window is copied into its end; `val` is the buffer read big-endian, then
/// shifted right and cut by the mask `MAX >> (a - b)`; the last expression
/// gives the value. `None` where a statement is not one of these, or would
/// panic or not compile.
#[verifier::opaque]
pub open spec fn run(t: Seq<Tree>, data: Seq<u8>, st: Run) -> Option<Got>
    decreases t.len(),
{
    if t.len() >= 17 && window_stmt(t) is Some {
        let (a, b) = window_stmt(t)->Some_0;
        if 0 <= a && 0 <= b && a + b <= data.len() {
            run(t.skip(17), data, Run { from: Some(data.subrange(a, a + b)), ..st })
        } else {
            None
        }
    } else if t.len() >= 6 && buffer_stmt(t) is Some {
        let m = buffer_stmt(t)->Some_0;
        if 0 <= m {
            run(t.skip(6), data, Run { buffer: Some(Seq::new(m as nat, |i: int| 0u8)), ..st })
        } else {
            None
        }
    } else if t.len() >= 10 && into_stmt(t) is Some {
        let i = into_stmt(t)->Some_0;
        if st.buffer is Some && 0 <= i <= st.buffer->Some_0.len() {
            run(t.skip(10), data, Run { into: Some(i), ..st })
        } else {
            None
        }
    } else if t.len() >= 8 && copy_stmt(t) {
        if st.buffer is Some && st.into is Some && st.from is Some && 0 <= st.into->Some_0
            <= st.buffer->Some_0.len() && st.buffer->Some_0.len() - st.into->Some_0 == st.from->Some_0.len() {
            run(
                t.skip(8),
                data,
                Run { buffer: Some(st.buffer->Some_0.take(st.into->Some_0) + st.from->Some_0), ..st },
            )
        } else {
            None
        }
    } else if t.len() >= 20 && let_val_stmt(t) is Some {
        let k = let_val_stmt(t)->Some_0;
        if st.buffer is Some && st.buffer->Some_0.len() * 8 == k {
            run(t.skip(20), data, Run { val: Some((be_value(st.buffer->Some_0) as int, k)), ..st })
        } else {
            None
        }
    } else if t.len() >= 6 && shr_stmt(t) is Some {
        let n = shr_stmt(t)->Some_0;
        if st.val is Some && 0 <= n < st.val->Some_0.1 {
            run(
                t.skip(6),
                data,
                Run { val: Some((st.val->Some_0.0 / pow2(n as nat) as int, st.val->Some_0.1)), ..st },
            )
        } else {
            None
        }
    } else if t.len() >= 21 && and_max_stmt(t) is Some {
        let (k, d) = and_max_stmt(t)->Some_0;
        if st.val is Some && k == st.val->Some_0.1 && 0 <= d <= k {
            run(
                t.skip(21),
                data,
                Run { val: Some((st.val->Some_0.0 % pow2((k - d) as nat) as int, k)), ..st },
            )
        } else {
            None
        }
    } else {
        final_value(t, st)
    }
}

/// Zero bytes read as zero.
proof fn lemma_be_zeros(n: nat)
    ensures
        be_value(Seq::new(n, |i: int| 0u8)) == 0,
    decreases n,
{
    let z = Seq::new(n, |i: int| 0u8);
    if n > 0 {
        lemma_be_zeros((n - 1) as nat);
        assert(z.drop_last() =~= Seq::new((n - 1) as nat, |i: int| 0u8));
    }
}

/// Leading zero bytes do not change a big-endian value.
proof fn lemma_be_zeros_then(n: nat, f: Seq<u8>)
    ensures
        be_value(Seq::new(n, |i: int| 0u8) + f) == be_value(f),
{
    let z = Seq::new(n, |i: int| 0u8);
    lemma_be_zeros(n);
    lemma_be_concat(z, f);
    let p = pow2(8 * f.len()) as int;
    assert(0 * p == 0) by (nonlinear_arith);
    assert(be_value(z) as int * p == 0);
}

/// Running the window statement takes the bytes it names.
proof fn lemma_run_window(ro: nat, rb: nat, rest: Seq<Tree>, data: Seq<u8>, st: Run)
    requires
        ro + rb <= data.len(),
    ensures
        run(window_trees(ro as int, rb as int) + rest, data, st) == run(
            rest,
            data,
            Run { from: Some(data.subrange(ro as int, (ro + rb) as int)), ..st },
        ),
{
    reveal(run);
    let t = window_trees(ro as int, rb as int) + rest;
    lemma_lit_num(0);
    lemma_lit_num(1);
    lemma_lit_num(ro);
    lemma_lit_num(rb);
    assert(window_stmt(t) == Some((ro as int, rb as int)));
    assert(t.skip(17) =~= rest);
}

/// `let mut buffer = [0u8; mb];`
pub open spec fn buffer_decl_trees(mb: nat) -> Seq<Tree> {
    seq![
        ident("let"@), ident("mut"@), ident("buffer"@), punct('='),
        Tree::Group(Delimiter::Bracket, seq![Tree::Literal(seq![48u8, 117u8, 56u8]), punct(';'), num(mb as int)]),
        punct(';'),
    ]
}

/// `let into = buffer.split_at_mut(mb - rb).1;`
pub open spec fn into_trees(mb: nat, rb: nat) -> Seq<Tree> {
    seq![
        ident("let"@), ident("into"@), punct('='), ident("buffer"@), punct('.'), ident("split_at_mut"@),
        Tree::Group(Delimiter::Parenthesis, seq![num(mb as int), punct('-'), usize_lit(rb)]), punct('.'), num(1),
        punct(';'),
    ]
}

/// `::bitx::copy(into, from);`
pub open spec fn copy_trees() -> Seq<Tree> {
    seq![punct(':'), punct(':'), ident("bitx"@), punct(':'), punct(':'), ident("copy"@),
        Tree::Group(Delimiter::Parenthesis, seq![ident("into"@), punct(','), ident("from"@)]), punct(';'),
    ]
}

proof fn lemma_run_buffer_decl(mb: nat, rest: Seq<Tree>, data: Seq<u8>, st: Run)
    ensures
        run(buffer_decl_trees(mb) + rest, data, st) == run(
            rest,
            data,
            Run { buffer: Some(Seq::new(mb, |i: int| 0u8)), ..st },
        ),
{
    reveal(run);
    let t = buffer_decl_trees(mb) + rest;
    lemma_lit_num(mb);
    assert(buffer_stmt(t) == Some(mb as int));
    assert(t.skip(6) =~= rest);
}

proof fn lemma_run_into(mb: nat, rb: nat, rest: Seq<Tree>, data: Seq<u8>, st: Run)
    requires
        rb <= mb,
        st.buffer matches Some(b) && b.len() == mb,
    ensures
        run(into_trees(mb, rb) + rest, data, st) == run(rest, data, Run { into: Some(mb - rb), ..st }),
{
    reveal(run);
    let t = into_trees(mb, rb) + rest;
    lemma_lit_num(mb);
    lemma_lit_num(rb);
    lemma_lit_num(1);
    assert(into_stmt(t) == Some(mb - rb));
    assert(t.skip(10) =~= rest);
}

proof fn lemma_run_copy(rest: Seq<Tree>, data: Seq<u8>, st: Run)
    requires
        st.buffer matches Some(b) && st.into matches Some(i) && st.from matches Some(f) && 0 <= i <= b.len() && b.len()
            - i == f.len(),
    ensures
        run(copy_trees() + rest, data, st) == run(
            rest,
            data,
            Run { buffer: Some(st.buffer->Some_0.take(st.into->Some_0) + st.from->Some_0), ..st },
        ),
{
    reveal(run);
    let t = copy_trees() + rest;
    assert(copy_stmt(t));
    assert(t.skip(8) =~= rest);
}

/// Running the buffer statements puts the window at the end of a buffer of
/// `mb` zero bytes.
proof fn lemma_run_buffer(mb: nat, rb: nat, rest: Seq<Tree>, data: Seq<u8>, st: Run)
    requires
        rb <= mb,
        st.from matches Some(f) && f.len() == rb,
    ensures
        run(buffer_trees(mb as int, rb as int) + rest, data, st) == run(
            rest,
            data,
            Run {
                buffer: Some(Seq::new((mb - rb) as nat, |i: int| 0u8) + st.from->Some_0),
                into: Some(mb - rb),
                ..st
            },
        ),
{
    assert(buffer_trees(mb as int, rb as int) =~= buffer_decl_trees(mb) + into_trees(mb, rb) + copy_trees());
    let t3 = copy_trees() + rest;
    let t2 = into_trees(mb, rb) + t3;
    assert(buffer_trees(mb as int, rb as int) + rest =~= buffer_decl_trees(mb) + t2);
    let z = Seq::new(mb, |i: int| 0u8);
    let s1 = Run { buffer: Some(z), ..st };
    lemma_run_buffer_decl(mb, t2, data, st);
    let s2 = Run { into: Some(mb - rb), ..s1 };
    lemma_run_into(mb, rb, t3, data, s1);
    lemma_run_copy(rest, data, s2);
    assert(z.take(mb - rb) =~= Seq::new((mb - rb) as nat, |i: int| 0u8));
}

/// Running `let mut val = <uK>::from_be_bytes(buffer);` reads the buffer.
proof fn lemma_run_let_val(k: nat, rest: Seq<Tree>, data: Seq<u8>, st: Run)
    requires
        st.buffer matches Some(b) && b.len() * 8 == k,
    ensures
        run(
            seq![ident("let"@), ident("mut"@), ident("val"@), punct('=')] + call(uint_trees(k), "from_be_bytes"@, "buffer"@)
                + seq![punct(';')] + rest,
            data,
            st,
        ) == run(rest, data, Run { val: Some((be_value(st.buffer->Some_0) as int, k)), ..st }),
{
    reveal(run);
    let t = seq![ident("let"@), ident("mut"@), ident("val"@), punct('=')] + call(uint_trees(k), "from_be_bytes"@, "buffer"@)
        + seq![punct(';')] + rest;
    lemma_uint_name(k);
    let p = uint_trees(k);
    assert(p =~= seq![
        punct(':'), punct(':'), ident("core"@), punct(':'), punct(':'), ident("primitive"@), punct(':'), punct(':'),
        ident(seq!['u'] + dec(k)),
    ]);
    assert(t[4] == punct('<'));
    assert forall|i: int| 0 <= i < 9 implies t[5 + i] == p[i] by {}
    assert(prim_width(t, 5) == Some(k));
    assert(let_val_stmt(t) == Some(k));
    assert(t.skip(20) =~= rest);
}

/// Running `val >>= n;` shifts the value right.
proof fn lemma_run_shr(n: nat, rest: Seq<Tree>, data: Seq<u8>, st: Run)
    requires
        st.val matches Some((v, k)) && n < k,
    ensures
        run(seq![ident("val"@), punct('>'), punct('>'), punct('='), num(n as int), punct(';')] + rest, data, st)
            == run(rest, data, Run { val: Some((st.val->Some_0.0 / pow2(n) as int, st.val->Some_0.1)), ..st }),
{
    reveal(run);
    let t = seq![ident("val"@), punct('>'), punct('>'), punct('='), num(n as int), punct(';')] + rest;
    lemma_lit_num(n);
    assert(shr_stmt(t) == Some(n as int));
    assert(t.skip(6) =~= rest);
}

/// Running `val &= <uK>::MAX >> (a - b);` keeps the low `K - (a - b)` bits.
proof fn lemma_run_and_max(k: nat, a: nat, b: nat, rest: Seq<Tree>, data: Seq<u8>, st: Run)
    requires
        st.val matches Some((v, w)) && w == k,
        b <= a,
        a - b <= k,
    ensures
        run(
            seq![ident("val"@), punct('&'), punct('=')] + angle(uint_trees(k)) + colons() + seq![
                ident("MAX"@), punct('>'), punct('>'),
                Tree::Group(Delimiter::Parenthesis, seq![num(a as int), punct('-'), num(b as int)]), punct(';'),
            ] + rest,
            data,
            st,
        ) == run(rest, data, Run { val: Some((st.val->Some_0.0 % pow2((k - (a - b)) as nat) as int, k)), ..st }),
{
    reveal(run);
    let t = seq![ident("val"@), punct('&'), punct('=')] + angle(uint_trees(k)) + colons() + seq![
        ident("MAX"@), punct('>'), punct('>'),
        Tree::Group(Delimiter::Parenthesis, seq![num(a as int), punct('-'), num(b as int)]), punct(';'),
    ] + rest;
    lemma_uint_name(k);
    lemma_lit_num(a);
    lemma_lit_num(b);
    let p = uint_trees(k);
    assert(p =~= seq![
        punct(':'), punct(':'), ident("core"@), punct(':'), punct(':'), ident("primitive"@), punct(':'), punct(':'),
        ident(seq!['u'] + dec(k)),
    ]);
    assert forall|i: int| 0 <= i < 9 implies t[4 + i] == p[i] by {}
    assert(prim_width(t, 4) == Some(k));
    assert(and_max_stmt(t) == Some((k, a - b)));
    assert(t.skip(21) =~= rest);
}

proof fn lemma_run_eq(n: nat, data: Seq<u8>, st: Run)
    requires
        st.val is Some,
    ensures
        run(seq![ident("val"@), punct('='), punct('='), num(n as int)], data, st) == Some(
            Got::Bool(st.val->Some_0.0 == n),
        ),
{
    reveal(run);
    lemma_lit_num(n);
}

proof fn lemma_run_as(k: nat, data: Seq<u8>, st: Run)
    requires
        st.val is Some,
    ensures
        run(seq![ident("val"@), ident("as"@)] + uint_trees(k), data, st) == Some(
            Got::Uint(st.val->Some_0.0 % pow2(k) as int),
        ),
{
    reveal(run);
    let t = seq![ident("val"@), ident("as"@)] + uint_trees(k);
    lemma_uint_name(k);
    let p = uint_trees(k);
    assert(p =~= seq![
        punct(':'), punct(':'), ident("core"@), punct(':'), punct(':'), ident("primitive"@), punct(':'), punct(':'),
        ident(seq!['u'] + dec(k)),
    ]);
    assert forall|i: int| 0 <= i < 9 implies t[2 + i] == p[i] by {}
    assert(prim_width(t, 2) == Some(k));
    assert(t.len() == 11);
    assert(buffer_stmt(t) is None);
    assert(into_stmt(t) is None);
    assert(!copy_stmt(t));
    assert(shr_stmt(t) is None);
}

proof fn lemma_run_from_be(k: nat, data: Seq<u8>, st: Run)
    requires
        st.buffer matches Some(b) && b.len() * 8 == k,
    ensures
        run(call(uint_trees(k), "from_be_bytes"@, "buffer"@), data, st) == Some(
            Got::Uint(be_value(st.buffer->Some_0) as int),
        ),
{
    reveal(run);
    let t = call(uint_trees(k), "from_be_bytes"@, "buffer"@);
    lemma_uint_name(k);
    let p = uint_trees(k);
    assert(p =~= seq![
        punct(':'), punct(':'), ident("core"@), punct(':'), punct(':'), ident("primitive"@), punct(':'), punct(':'),
        ident(seq!['u'] + dec(k)),
    ]);
    assert forall|i: int| 0 <= i < 9 implies t[1 + i] == p[i] by {}
    assert(prim_width(t, 1) == Some(k));
    assert(t.len() == 15);
    assert(t[14] == Tree::Group(Delimiter::Parenthesis, seq![Tree::Ident("buffer"@)]));
    reveal_strlit("from_slice");
    reveal_strlit("from_be_bytes");
    assert("from_slice"@.len() != "from_be_bytes"@.len());
    assert(t[13] != Tree::Ident("from_slice"@));
}

proof fn lemma_run_from_slice(ty: Seq<Tree>, data: Seq<u8>, st: Run)
    requires
        st.from is Some,
    ensures
        run(call(ty, "from_slice"@, "from"@), data, st) == Some(Got::Bytes(st.from->Some_0)),
{
    reveal(run);
    let t = call(ty, "from_slice"@, "from"@);
    assert(t.len() == ty.len() + 6);
    assert(t[0] == punct('<'));
    assert(t[t.len() - 5] == punct('>'));
    assert(t[t.len() - 4] == punct(':'));
    assert(t[t.len() - 3] == punct(':'));
    assert(t[t.len() - 2] == ident("from_slice"@));
    assert(t[t.len() - 1] == Tree::Group(Delimiter::Parenthesis, seq![Tree::Ident("from"@)]));
}

proof fn lemma_run_from_mask(ty: Seq<Tree>, data: Seq<u8>, st: Run)
    requires
        st.val is Some,
    ensures
        run(from_mask_tail(ty), data, st) == Some(Got::Mask(st.val->Some_0.0)),
{
    reveal(run);
    let t = from_mask_tail(ty);
    assert(t.len() == 24 + 2 * ty.len());
    assert(t.subrange(6, 6 + (t.len() - 24) / 2) =~= ty);
    assert(t[1] == Tree::Ident("val"@));
    assert(t[2] == Tree::Punct('='));
    assert(t[4] == Tree::Ident("as"@));
}

proof fn lemma_run_unsupported(text: Seq<u8>, data: Seq<u8>, st: Run)
    ensures
        run(colons() + seq![ident("core"@)] + colons() + seq![
            ident("compile_error"@),
            punct('!'),
            Tree::Group(Delimiter::Parenthesis, seq![Tree::Literal(text)]),
        ], data, st) == Some(Got::Unsupported),
{
    reveal(run);
    let t = colons() + seq![ident("core"@)] + colons() + seq![
        ident("compile_error"@),
        punct('!'),
        Tree::Group(Delimiter::Parenthesis, seq![Tree::Literal(text)]),
    ];
    assert(t =~= seq![
        punct(':'), punct(':'), ident("core"@), punct(':'), punct(':'), ident("compile_error"@), punct('!'),
        Tree::Group(Delimiter::Parenthesis, seq![Tree::Literal(text)]),
    ]);
}

/// Facts of a plan that the reading of its getter uses: its mask's width
/// is whole bytes, holds the window, and holds the field.
proof fn lemma_plan_mask(l: Layout)
    requires
        l.wf(),
        l.mask is Some,
    ensures
        l.mask->Some_0.size % 8 == 0,
        l.read_bytes * 8 <= l.mask->Some_0.size <= 128,
        l.size <= 8 * l.read_bytes,
        l.shr < 8,
        8 <= l.mask->Some_0.size,
        l.aligned ==> l.mask->Some_0.size == crate::hir::mask::mask_bits(l.size as int) && 8 * l.read_bytes
            == l.size && l.shr == 0,
{
    let tl = tt::Layout { offset: l.offset, size: l.size };
    lemma_layout_covers(tl);
    let span = crate::hir::layout::span_bytes(tl);
    assert(l.mask == crate::hir::mask::mask_spec(span * 8));
    assert(span * 8 <= 128);
    crate::hir::mask::lemma_mask_bits(span * 8);
    crate::hir::mask::lemma_mask_bits_le_128(span * 8);
    if l.aligned {
        assert(span == l.read_bytes) by {
            assert(crate::num::ceil_div(l.offset % 8 + l.size, 8) == l.read_bytes);
        }
    }
}

/// The getter of an aligned field of no written type reads its bytes into
/// the low bytes of its integer.
proof fn lemma_getter_aligned_builtin(l: Layout, data: Seq<u8>)
    requires
        l.wf(),
        l.aligned,
        l.mask is Some,
        1 <= l.size <= 128,
        l.read_offset_bytes + l.read_bytes <= data.len(),
    ensures
        run(read_tokens(l, builtin_type(l.size as int), true), data, start()) == Some(
            Got::Uint(read_spec(l, data, true)),
        ),
{
    lemma_plan_mask(l);
    let ro = l.read_offset_bytes as nat;
    let rb = l.read_bytes as nat;
    let k = l.mask->Some_0.size as nat;
    let mb = k / 8;
    let f = data.subrange(ro as int, (ro + rb) as int);
    let ty = builtin_type(l.size as int);
    let s1 = Run { from: Some(f), ..start() };
    let z = Seq::new((mb - rb) as nat, |i: int| 0u8);
    let s2 = Run { buffer: Some(z + f), into: Some(mb - rb), ..s1 };
    lemma_be_zeros_then((mb - rb) as nat, f);
    assert(ty == tt::Type::Literal(k as u32));
    let fin = call(type_trees(ty), "from_be_bytes"@, "buffer"@);
    assert(read_tokens(l, ty, true) =~= window_trees(ro as int, rb as int) + (buffer_trees(mb as int, rb as int)
        + fin));
    lemma_run_window(ro, rb, buffer_trees(mb as int, rb as int) + fin, data, start());
    lemma_run_buffer(mb, rb, fin, data, s1);
    lemma_run_from_be(k, data, s2);
}

/// The getter of an aligned field of a written type hands its bytes to the
/// type's `from_slice`.
proof fn lemma_getter_aligned_nested(l: Layout, ty: tt::Type, data: Seq<u8>)
    requires
        l.wf(),
        l.aligned,
        l.read_offset_bytes + l.read_bytes <= data.len(),
    ensures
        run(read_tokens(l, ty, false), data, start()) == Some(
            Got::Bytes(data.subrange(l.read_offset_bytes as int, l.read_offset_bytes + l.read_bytes)),
        ),
{
    let ro = l.read_offset_bytes as nat;
    let rb = l.read_bytes as nat;
    let fin = call(type_trees(ty), "from_slice"@, "from"@);
    assert(read_tokens(l, ty, false) =~= window_trees(ro as int, rb as int) + fin);
    lemma_run_window(ro, rb, fin, data, start());
    lemma_run_from_slice(type_trees(ty), data, Run { from: Some(data.subrange(ro as int, (ro + rb) as int)), ..start() });
}

/// What an unaligned getter holds before its last expression: the window,
/// the buffer with the window at its end, and `val`, the `size` bits after
/// the shift, with the mask's width.
pub open spec fn masked_state(l: Layout, data: Seq<u8>) -> Run {
    let ro = l.read_offset_bytes as int;
    let rb = l.read_bytes as int;
    let k = l.mask->Some_0.size as nat;
    let mb = k / 8;
    let f = data.subrange(ro, ro + rb);
    Run {
        from: Some(f),
        buffer: Some(Seq::new((mb - rb) as nat, |i: int| 0u8) + f),
        into: Some(mb - rb),
        val: Some((read_spec(l, data, false), k)),
    }
}

/// The statements of an unaligned getter with a mask read the window
/// through the mask, shift it right by `shr` and keep `size` bits.
#[verifier::rlimit(40)]
proof fn lemma_getter_unaligned_steps(l: Layout, ty: tt::Type, builtin: bool, data: Seq<u8>)
    requires
        l.wf(),
        !l.aligned,
        l.mask is Some,
        1 <= l.size,
        l.read_offset_bytes + l.read_bytes <= data.len(),
    ensures
        run(read_tokens(l, ty, builtin), data, start()) == run(convert_trees(l, ty, builtin), data, masked_state(l, data)),
{
    lemma_plan_mask(l);
    let ro = l.read_offset_bytes as nat;
    let rb = l.read_bytes as nat;
    let k = l.mask->Some_0.size as nat;
    let mb = k / 8;
    let f = data.subrange(ro as int, (ro + rb) as int);
    let s1 = Run { from: Some(f), ..start() };
    let z = Seq::new((mb - rb) as nat, |i: int| 0u8);
    let s2 = Run { buffer: Some(z + f), into: Some(mb - rb), ..s1 };
    lemma_be_zeros_then((mb - rb) as nat, f);
    let mt = uint_trees(k);
    let lv = seq![ident("let"@), ident("mut"@), ident("val"@), punct('=')] + call(mt, "from_be_bytes"@, "buffer"@)
        + seq![punct(';')];
    let sh = seq![ident("val"@), punct('>'), punct('>'), punct('='), num(l.shr as int), punct(';')];
    let am = seq![ident("val"@), punct('&'), punct('=')] + angle(mt) + colons() + seq![
        ident("MAX"@), punct('>'), punct('>'),
        Tree::Group(Delimiter::Parenthesis, seq![num(k as int), punct('-'), num(l.size as int)]), punct(';'),
    ];
    let cv = convert_trees(l, ty, builtin);
    let w = window_trees(ro as int, rb as int);
    assert(read_tokens(l, ty, builtin) =~= w + (buffer_trees(mb as int, rb as int) + (lv + (sh + (am + cv)))));
    lemma_run_window(ro, rb, buffer_trees(mb as int, rb as int) + (lv + (sh + (am + cv))), data, start());
    lemma_run_buffer(mb, rb, lv + (sh + (am + cv)), data, s1);
    assert(lv + (sh + (am + cv)) =~= seq![ident("let"@), ident("mut"@), ident("val"@), punct('=')] + call(
        mt,
        "from_be_bytes"@,
        "buffer"@,
    ) + seq![punct(';')] + (sh + (am + cv)));
    lemma_run_let_val(k, sh + (am + cv), data, s2);
    let v0 = be_value(f) as int;
    let s3 = Run { val: Some((v0, k)), ..s2 };
    lemma_run_shr(l.shr as nat, am + cv, data, s3);
    let v1 = v0 / pow2(l.shr as nat) as int;
    let s4 = Run { val: Some((v1, k)), ..s3 };
    assert(am + cv =~= seq![ident("val"@), punct('&'), punct('=')] + angle(uint_trees(k)) + colons() + seq![
        ident("MAX"@), punct('>'), punct('>'),
        Tree::Group(Delimiter::Parenthesis, seq![num(k as int), punct('-'), num(l.size as int)]), punct(';'),
    ] + cv);
    lemma_run_and_max(k, k, l.size as nat, cv, data, s4);
    assert((k - (k - l.size)) as nat == l.size as nat);
    assert(Run { val: Some((v1 % pow2(l.size as nat) as int, k)), ..s4 } == masked_state(l, data));
}

/// The getter of an unaligned field with a mask converts the bits it keeps:
/// to the nested type's mask, to `bool` for one bit, or to its integer.
proof fn lemma_getter_unaligned(l: Layout, ty: tt::Type, builtin: bool, data: Seq<u8>)
    requires
        l.wf(),
        !l.aligned,
        l.mask is Some,
        1 <= l.size,
        builtin ==> ty == builtin_type(l.size as int) && l.size <= 128,
        l.read_offset_bytes + l.read_bytes <= data.len(),
    ensures
        run(read_tokens(l, ty, builtin), data, start()) == Some(
            if !builtin {
                Got::Mask(read_spec(l, data, builtin))
            } else if l.size == 1 {
                Got::Bool(read_spec(l, data, builtin) == 1)
            } else {
                Got::Uint(read_spec(l, data, builtin))
            },
        ),
{
    lemma_getter_unaligned_steps(l, ty, builtin, data);
    let st = masked_state(l, data);
    let v2 = read_spec(l, data, builtin);
    let cv = convert_trees(l, ty, builtin);
    if !builtin {
        assert(cv =~= from_mask_tail(type_trees(ty)));
        lemma_run_from_mask(type_trees(ty), data, st);
    } else if l.size == 1 {
        lemma_run_eq(1, data, st);
    } else {
        let k2 = crate::hir::mask::mask_bits(l.size as int);
        crate::hir::mask::lemma_mask_bits(l.size as int);
        crate::hir::mask::lemma_mask_bits_le_128(l.size as int);
        assert(ty == tt::Type::Literal(k2 as u32));
        assert(cv == seq![ident("val"@), ident("as"@)] + uint_trees(k2 as nat));
        lemma_run_as(k2 as nat, data, st);
        lemma_plan_mask(l);
        vstd::arithmetic::power2::lemma_pow2_pos(l.shr as nat);
        vstd::arithmetic::power2::lemma_pow2_pos(l.size as nat);
        assert(0 <= v2 < pow2(l.size as nat));
        if l.size < k2 {
            vstd::arithmetic::power2::lemma_pow2_strictly_increases(l.size as nat, k2 as nat);
        }
        vstd::arithmetic::div_mod::lemma_small_mod(v2 as nat, pow2(k2 as nat));
    }
}

/// The tokens of every getter, read as the code they spell and run on the
/// struct bytes, give what `Layout::read` gives: the field's bits, MSB-0
/// and big-endian, as `true` exactly when the bit is set for a one-bit
/// field and as an unsigned integer for a wider one; the field's bytes for
/// a nested type's `from_slice`, or its bits for its `__from_mask`; and a
/// compile error where no mask holds an unaligned field.
pub proof fn lemma_getter_tokens_read_the_field(l: Layout, ty: tt::Type, builtin: bool, data: Seq<u8>)
    requires
        l.wf(),
        1 <= l.size,
        builtin ==> ty == builtin_type(l.size as int) && l.size <= 128,
        l.read_offset_bytes + l.read_bytes <= data.len(),
    ensures
        forall|v: FieldValue|
            read_outcome(l, data, builtin, v) ==> run(read_tokens(l, ty, builtin), data, start()) == Some(got(v)),
        builtin && l.mask is Some && l.size == 1 ==> run(read_tokens(l, ty, builtin), data, start()) == Some(
            Got::Bool(field_bits(data, l.offset as int, 1) == 1),
        ),
        builtin && l.mask is Some && l.size > 1 ==> run(read_tokens(l, ty, builtin), data, start()) == Some(
            Got::Uint(field_bits(data, l.offset as int, l.size as int)),
        ),
        !builtin && !l.aligned && l.mask is Some ==> run(read_tokens(l, ty, builtin), data, start()) == Some(
            Got::Mask(field_bits(data, l.offset as int, l.size as int)),
        ),
        !builtin && l.aligned ==> run(read_tokens(l, ty, builtin), data, start()) == Some(
            Got::Bytes(data.subrange(l.read_offset_bytes as int, l.read_offset_bytes + l.read_bytes)),
        ),
        !l.aligned && l.mask is None ==> run(read_tokens(l, ty, builtin), data, start()) == Some(Got::Unsupported),
{
    let tl = tt::Layout { offset: l.offset, size: l.size };
    lemma_layout_covers(tl);
    lemma_read_is_field_bits(l, data, builtin);
    let ro = l.read_offset_bytes as int;
    let rb = l.read_bytes as int;
    crate::cg::lemma_be_value_bound(data.subrange(ro, ro + rb));
    if l.aligned {
        if builtin {
            lemma_getter_aligned_builtin(l, data);
            vstd::arithmetic::power2::lemma2_to64();
            lemma_plan_mask(l);
            vstd::arithmetic::div_mod::lemma_small_mod(
                be_value(data.subrange(ro, ro + rb)),
                pow2(l.size as nat),
            );
            assert(read_spec(l, data, builtin) == field_bits(data, l.offset as int, l.size as int));
            assert forall|v: FieldValue| read_outcome(l, data, builtin, v) implies run(
                read_tokens(l, ty, builtin),
                data,
                start(),
            ) == Some(got(v)) by {
                assert(read_spec(l, data, builtin) <= u128::MAX) by {
                    assert(8 * rb == l.size);
                    assert(pow2(8 * (data.subrange(ro, ro + rb).len())) <= pow2(128)) by {
                        if l.size < 128 {
                            vstd::arithmetic::power2::lemma_pow2_strictly_increases(l.size as nat, 128);
                        }
                    }
                    crate::num::lemma_pow2_127();
                    vstd::arithmetic::power2::lemma_pow2_unfold(128);
                }
            }
        } else {
            lemma_getter_aligned_nested(l, ty, data);
            assert forall|v: FieldValue| read_outcome(l, data, builtin, v) implies run(
                read_tokens(l, ty, builtin),
                data,
                start(),
            ) == Some(got(v)) by {}
        }
    } else if l.mask is Some {
        lemma_getter_unaligned(l, ty, builtin, data);
        vstd::arithmetic::power2::lemma_pow2_pos(l.size as nat);
        assert forall|v: FieldValue| read_outcome(l, data, builtin, v) implies run(
            read_tokens(l, ty, builtin),
            data,
            start(),
        ) == Some(got(v)) by {
            lemma_plan_mask(l);
            assert(read_spec(l, data, builtin) < pow2(l.size as nat));
            if l.size < 128 {
                vstd::arithmetic::power2::lemma_pow2_strictly_increases(l.size as nat, 128);
            }
            crate::num::lemma_pow2_127();
            vstd::arithmetic::power2::lemma_pow2_unfold(128);
            assert(0 <= read_spec(l, data, builtin) <= u128::MAX);
        }
    } else {
        lemma_run_unsupported(crate::cg::layout::unsupported_text(), data, start());
        assert forall|v: FieldValue| read_outcome(l, data, builtin, v) implies run(
            read_tokens(l, ty, builtin),
            data,
            start(),
        ) == Some(got(v)) by {}
    }
}

/// A bracketed `[::core::primitive::u8; n]`: `n`.
pub open spec fn byte_array_len(t: Tree) -> Option<int> {
    match t {
        Tree::Group(Delimiter::Bracket, s) => if s.len() == 11 && prim_width(s, 0) == Some(8nat) && is_punct(s[9], ';')
            && lit_num(s[10]) is Some {
            lit_num(s[10])
        } else {
            None
        },
        _ => None,
    }
}

/// The parameters of the function that `t` ends with, whose return type
/// takes `ret_len` trees: the group before `->`.
pub open spec fn fn_params(t: Seq<Tree>, ret_len: int) -> Option<Seq<Tree>> {
    let i = t.len() - ret_len - 4;
    if 0 <= i && is_punct(t[i + 1], '-') && is_punct(t[i + 2], '>') {
        match t[i] {
            Tree::Group(Delimiter::Parenthesis, p) => Some(p),
            _ => None,
        }
    } else {
        None
    }
}

/// `[::core::primitive::u8; n]` reads as `n`.
pub proof fn lemma_byte_array_len(n: nat)
    ensures
        byte_array_len(crate::cg::item::byte_array(n as int)) == Some(n as int),
{
    let s = uint_trees(8) + seq![punct(';'), num(n as int)];
    lemma_uint_name(8);
    lemma_lit_num(n);
    assert(uint_trees(8) =~= seq![
        punct(':'), punct(':'), ident("core"@), punct(':'), punct(':'), ident("primitive"@), punct(':'), punct(':'),
        ident(seq!['u'] + dec(8)),
    ]);
    assert(prim_width(s, 0) == Some(8nat));
}

/// Decimal text reads back as its number.
proof fn lemma_dec_chars(n: nat)
    ensures
        dec(n).len() >= 1,
        forall|k: int| 0 <= k < dec(n).len() ==> '0' <= #[trigger] dec(n)[k] <= '9',
        chars_value(dec(n)) == n,
    decreases n,
{
    let s = dec(n);
    let d = (n % 10) as int;
    assert(s.last() == crate::text::hex_char(d));
    assert(crate::text::hex_char(d) == (48 + d) as char);
    assert(((48 + d) as char) as int == 48 + d);
    assert(chars_value(s) == chars_value(s.drop_last()) * 10 + d);
    if n >= 10 {
        lemma_dec_chars(n / 10);
        assert(s.drop_last() == dec(n / 10));
        assert forall|k: int| 0 <= k < s.len() implies '0' <= #[trigger] s[k] <= '9' by {
            if k < s.len() - 1 {
                assert(s[k] == dec(n / 10)[k]);
            }
        }
    } else {
        assert(s.drop_last() =~= Seq::<char>::empty());
    }
}

/// The name `uN` gives the width `N`.
pub proof fn lemma_uint_name(n: nat)
    ensures
        uint_name(seq!['u'] + dec(n)) == Some(n),
{
    let name = seq!['u'] + dec(n);
    lemma_dec_chars(n);
    assert(name.skip(1) =~= dec(n));
    assert forall|k: int| 1 <= k < name.len() implies '0' <= #[trigger] name[k] <= '9' by {
        assert(name[k] == dec(n)[k - 1]);
    }
}

/// A number written in decimal, plain or with `usize`, reads as itself.
pub proof fn lemma_lit_num(n: nat)
    ensures
        lit_num(Tree::Literal(decimal(n))) == Some(n as int),
        lit_num(usize_lit(n)) == Some(n as int),
{
    let u = seq![117u8, 115u8, 105u8, 122u8, 101u8];
    lemma_lex_decimal_then(n, Seq::empty());
    assert(decimal(n) + Seq::<u8>::empty() =~= decimal(n));
    assert(decimal(n).skip(decimal(n).len() as int) =~= Seq::<u8>::empty());
    lemma_lex_decimal_then(n, u);
    assert((decimal(n) + u).skip(decimal(n).len() as int) =~= u);
}

/// The return type of the getter of a field of no written type reads as
/// `::core::primitive::bool` for one bit, and otherwise as the smallest of
/// `u8`..`u128` that holds the field.
pub proof fn lemma_builtin_return_type(l: Layout)
    requires
        1 <= l.size <= 128,
    ensures
        l.size == 1 ==> return_trees(l, builtin_type(1), true) == seq![
            Tree::Punct(':'), Tree::Punct(':'), Tree::Ident("core"@), Tree::Punct(':'), Tree::Punct(':'),
            Tree::Ident("primitive"@), Tree::Punct(':'), Tree::Punct(':'), Tree::Ident("bool"@),
        ],
        l.size >= 2 ==> (prim_width(return_trees(l, builtin_type(l.size as int), true), 0) matches Some(w) && (w == 8
            || w == 16 || w == 32 || w == 64 || w == 128) && l.size <= w && (w == 8 || w / 2 < l.size)
            && return_trees(l, builtin_type(l.size as int), true).len() == 9),
{
    if l.size >= 2 {
        crate::hir::field::lemma_builtin_type_smallest(l.size as int);
        let w = builtin_type(l.size as int)->Literal_0;
        lemma_uint_name(w as nat);
        assert(uint_trees(w as nat) =~= seq![
            punct(':'), punct(':'), ident("core"@), punct(':'), punct(':'), ident("primitive"@), punct(':'), punct(':'),
            ident(seq!['u'] + dec(w as nat)),
        ]);
    } else {
        assert(crate::cg::layout::primitive("bool"@) =~= seq![
            Tree::Punct(':'), Tree::Punct(':'), Tree::Ident("core"@), Tree::Punct(':'), Tree::Punct(':'),
            Tree::Ident("primitive"@), Tree::Punct(':'), Tree::Punct(':'), Tree::Ident("bool"@),
        ]);
    }
}

} // verus!
