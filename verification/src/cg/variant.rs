//! The match arm and the declaration that each enum variant becomes.

use vstd::prelude::*;
use crate::ast::Variant;
use crate::ast::value::Value;
use crate::cg::enm::is_unit;
use crate::cg::layout::{colons, ident, num, punct};
use crate::cg::enm::arm_matches;
use crate::ast::values::covers;
use crate::cg::run::{is_ident, is_punct, lit_num, lemma_lit_num};
use crate::tt::{Delimiter, Token, Tree, copy_tokens, group, lemma_trees_index, number_u128, put, put_all, trees, word};

verus! {

/// One value of a pattern: `start`, or `start..=end`.
pub open spec fn value_trees(v: Value) -> Seq<Tree> {
    if v.start == v.end {
        seq![num(v.start as int)]
    } else {
        seq![num(v.start as int), punct('.'), punct('.'), punct('='), num(v.end as int)]
    }
}

/// The values joined by `|`.
pub open spec fn alts_trees(vs: Seq<Value>) -> Seq<Tree>
    decreases vs.len(),
{
    if vs.len() == 0 {
        Seq::empty()
    } else if vs.len() == 1 {
        value_trees(vs[0])
    } else {
        alts_trees(vs.drop_last()) + seq![punct('|')] + value_trees(vs.last())
    }
}

/// `=>`
pub open spec fn arrow() -> Seq<Tree> {
    seq![punct('='), punct('>')]
}

/// `Self::name`
pub open spec fn self_path(name: Seq<char>) -> Seq<Tree> {
    seq![ident("Self"@)] + colons() + seq![ident(name)]
}

/// The arm of a variant in `__from_mask`: the default binds the raw value
/// (`val => Self::Name(val)`), a single value gives a unit arm
/// (`N => Self::Name`), and any other pattern binds the value it matched
/// (`val @ (a..=b | c) => Self::Name(val)`).
pub open spec fn arm_trees(v: Variant) -> Seq<Tree> {
    let bound = self_path(v.name@) + seq![Tree::Group(Delimiter::Parenthesis, seq![ident("val"@)])];
    if v.values@.len() == 0 {
        seq![ident("val"@)] + arrow() + bound
    } else if is_unit(v) {
        seq![num(v.values@[0].start as int)] + arrow() + self_path(v.name@)
    } else {
        seq![ident("val"@), punct('@'), Tree::Group(Delimiter::Parenthesis, alts_trees(v.values@))] + arrow()
            + bound
    }
}

/// The declaration of a variant: its attributes and name, carrying a value
/// of the mask type `mask` unless its pattern is a single value.
pub open spec fn def_trees(v: Variant, mask: Seq<Tree>) -> Seq<Tree> {
    trees(v.attr@) + seq![ident(v.name@)] + if is_unit(v) {
        Seq::<Tree>::empty()
    } else {
        seq![Tree::Group(Delimiter::Parenthesis, mask)]
    }
}

/// The tokens of one pattern value.
fn value_tokens(v: &Value) -> (r: Vec<Token>)
    ensures
        trees(r@) == value_trees(*v),
{
    let r = if v.start == v.end {
        vec![number_u128(v.start)]
    } else {
        vec![number_u128(v.start), Token::Punct('.'), Token::Punct('.'), Token::Punct('='), number_u128(v.end)]
    };
    proof {
        lemma_trees_index(r@);
        assert(trees(r@) =~= value_trees(*v));
    }
    r
}

/// The tokens of `alts_trees`.
fn alts_tokens(vs: &[Value]) -> (r: Vec<Token>)
    ensures
        trees(r@) == alts_trees(vs@),
{
    let mut out: Vec<Token> = Vec::new();
    let mut i: usize = 0;
    proof {
        assert(trees(out@) =~= Seq::<Tree>::empty());
        assert(vs@.take(0) =~= Seq::<Value>::empty());
    }
    while i < vs.len()
        invariant
            i <= vs@.len(),
            trees(out@) == alts_trees(vs@.take(i as int)),
        decreases vs.len() - i,
    {
        if i > 0 {
            put(&mut out, Token::Punct('|'));
        }
        put_all(&mut out, value_tokens(&vs[i]));
        proof {
            let t = vs@.take(i + 1);
            assert(t.drop_last() =~= vs@.take(i as int));
            assert(t.last() == vs@[i as int]);
            if i == 0 {
                assert(trees(out@) =~= value_trees(vs@[0]));
            } else {
                assert(trees(out@) =~= alts_trees(vs@.take(i as int)) + seq![punct('|')] + value_trees(vs@[i as int]));
            }
        }
        i = i + 1;
    }
    proof {
        assert(vs@.take(vs@.len() as int) =~= vs@);
    }
    out
}

/// `Self::name`, then `(val)` when `bind`.
fn self_tokens(name: &String, bind: bool) -> (r: Vec<Token>)
    ensures
        trees(r@) == self_path(name@) + if bind {
            seq![Tree::Group(Delimiter::Parenthesis, seq![ident("val"@)])]
        } else {
            Seq::<Tree>::empty()
        },
{
    let mut r = vec![word("Self"), Token::Punct(':'), Token::Punct(':'), word(name.as_str())];
    proof {
        lemma_trees_index(r@);
        assert(trees(r@) =~= self_path(name@));
    }
    if bind {
        let inner = vec![word("val")];
        proof {
            lemma_trees_index(inner@);
            assert(trees(inner@) =~= seq![ident("val"@)]);
        }
        put(&mut r, group(Delimiter::Parenthesis, inner));
    } else {
        proof {
            assert(self_path(name@) + Seq::<Tree>::empty() =~= self_path(name@));
        }
    }
    r
}

impl Variant {
    /// The declaration of the variant (see `def_trees`), with `mask` the
    /// tokens of the enum's mask type.
    pub fn quote_def(&self, mask: &Vec<Token>) -> (r: Vec<Token>)
        ensures
            trees(r@) == def_trees(*self, trees(mask@)),
    {
        let mut out = copy_tokens(&self.attr);
        put(&mut out, word(self.name.as_str()));
        if !self.values.is_point() {
            put(&mut out, group(Delimiter::Parenthesis, copy_tokens(mask)));
            proof {
                assert(trees(out@) =~= def_trees(*self, trees(mask@)));
            }
        } else {
            proof {
                assert(trees(out@) =~= def_trees(*self, trees(mask@)));
            }
        }
        out
    }

    /// The match arm of the variant in `__from_mask` (see `arm_trees`).
    pub fn quote_arm(&self) -> (r: Vec<Token>)
        ensures
            trees(r@) == arm_trees(*self),
    {
        let values = self.values.iter();
        let mut out: Vec<Token> = Vec::new();
        proof {
            assert(trees(out@) =~= Seq::<Tree>::empty());
        }
        if values.len() == 0 {
            put(&mut out, word("val"));
            put(&mut out, Token::Punct('='));
            put(&mut out, Token::Punct('>'));
            put_all(&mut out, self_tokens(&self.name, true));
        } else if values.len() == 1 && values[0].start == values[0].end {
            put(&mut out, number_u128(values[0].start));
            put(&mut out, Token::Punct('='));
            put(&mut out, Token::Punct('>'));
            put_all(&mut out, self_tokens(&self.name, false));
            proof {
                assert(self_path(self.name@) + Seq::<Tree>::empty() =~= self_path(self.name@));
            }
        } else {
            put(&mut out, word("val"));
            put(&mut out, Token::Punct('@'));
            put(&mut out, group(Delimiter::Parenthesis, alts_tokens(values)));
            put(&mut out, Token::Punct('='));
            put(&mut out, Token::Punct('>'));
            put_all(&mut out, self_tokens(&self.name, true));
        }
        proof {
            assert(trees(out@) =~= arm_trees(*self));
        }
        out
    }
}

/// Whether the alternatives `a | b..=c | ...` take `x`, read from their
/// trees; `None` when they are not a list of such alternatives.
pub open spec fn alts_take(s: Seq<Tree>, x: int) -> Option<bool>
    decreases s.len(),
{
    let n = s.len() as int;
    if n >= 5 && lit_num(s[n - 5]) is Some && is_punct(s[n - 4], '.') && is_punct(s[n - 3], '.') && is_punct(
        s[n - 2],
        '=',
    ) && lit_num(s[n - 1]) is Some && (n == 5 || is_punct(s[n - 6], '|')) {
        let here = lit_num(s[n - 5])->Some_0 <= x <= lit_num(s[n - 1])->Some_0;
        if n == 5 {
            Some(here)
        } else {
            match alts_take(s.take(n - 6), x) {
                Some(b) => Some(b || here),
                None => None,
            }
        }
    } else if n >= 1 && lit_num(s[n - 1]) is Some && (n == 1 || is_punct(s[n - 2], '|')) {
        let here = x == lit_num(s[n - 1])->Some_0;
        if n == 1 {
            Some(here)
        } else {
            match alts_take(s.take(n - 2), x) {
                Some(b) => Some(b || here),
                None => None,
            }
        }
    } else {
        None
    }
}

/// What a match arm read from its trees does with the value `x`: `None`
/// when it is not an arm; else whether it takes `x`, and then the variant
/// it names and the value that variant carries. The arms are `val =>
/// Self::N(val)`, `k => Self::N`, and `val @ (alts) => Self::N(val)`.
pub open spec fn arm_take(a: Seq<Tree>, x: int) -> Option<Option<(Seq<char>, Option<int>)>> {
    if a.len() == 8 && is_ident(a[0], "val"@) && is_punct(a[1], '=') && is_punct(a[2], '>') && is_ident(a[3], "Self"@)
        && is_punct(a[4], ':') && is_punct(a[5], ':') && a[6] is Ident && a[7] == Tree::Group(
        Delimiter::Parenthesis,
        seq![Tree::Ident("val"@)],
    ) {
        Some(Some((a[6]->Ident_0, Some(x))))
    } else if a.len() == 7 && lit_num(a[0]) is Some && is_punct(a[1], '=') && is_punct(a[2], '>') && is_ident(
        a[3],
        "Self"@,
    ) && is_punct(a[4], ':') && is_punct(a[5], ':') && a[6] is Ident {
        Some(
            if x == lit_num(a[0])->Some_0 {
                Some((a[6]->Ident_0, None))
            } else {
                None
            },
        )
    } else if a.len() == 10 && is_ident(a[0], "val"@) && is_punct(a[1], '@') && (a[2] matches Tree::Group(
        Delimiter::Parenthesis,
        alts,
    ) && alts_take(alts, x) is Some) && is_punct(a[3], '=') && is_punct(a[4], '>') && is_ident(a[5], "Self"@)
        && is_punct(a[6], ':') && is_punct(a[7], ':') && a[8] is Ident && a[9] == Tree::Group(
        Delimiter::Parenthesis,
        seq![Tree::Ident("val"@)],
    ) {
        Some(
            if alts_take(a[2]->Group_1, x)->Some_0 {
                Some((a[8]->Ident_0, Some(x)))
            } else {
                None
            },
        )
    } else {
        None
    }
}

/// The alternatives of a pattern, read back, take exactly the values that
/// the pattern's intervals cover.
pub proof fn lemma_alts_take(vs: Seq<Value>, x: int)
    requires
        vs.len() >= 1,
    ensures
        alts_take(alts_trees(vs), x) == Some(covers(vs, x)),
    decreases vs.len(),
{
    let s = alts_trees(vs);
    let v = vs.last();
    lemma_lit_num(v.start as nat);
    lemma_lit_num(v.end as nat);
    if vs.len() == 1 {
        assert(s == value_trees(vs[0]));
        assert(covers(vs, x) == vs[0].contains(x)) by {
            if vs[0].contains(x) {
                assert(vs[0].contains(x));
            }
        }
    } else {
        let p = vs.drop_last();
        lemma_alts_take(p, x);
        let q = alts_trees(p);
        assert(s == q + seq![punct('|')] + value_trees(v));
        let n = s.len() as int;
        if v.start == v.end {
            assert(s.take(n - 2) =~= q);
        } else {
            assert(s.take(n - 6) =~= q);
        }
        assert(covers(vs, x) == (covers(p, x) || v.contains(x))) by {
            if covers(vs, x) {
                let i = choose|i: int| 0 <= i < vs.len() && #[trigger] vs[i].contains(x);
                if i < vs.len() - 1 {
                    assert(p[i] == vs[i]);
                }
            }
            if covers(p, x) {
                let i = choose|i: int| 0 <= i < p.len() && #[trigger] p[i].contains(x);
                assert(vs[i] == p[i]);
            }
        }
    }
}

/// Every arm, read as the code it spells, takes exactly the values its
/// variant's pattern covers (every value for the default `_`), and gives
/// the variant, carrying the value unless its pattern is a single value.
pub proof fn lemma_arm_reads(v: Variant, x: int)
    ensures
        arm_take(arm_trees(v), x) == Some(
            if arm_matches(v, x) {
                Some((v.name@, if crate::cg::enm::is_unit(v) { None::<int> } else { Some(x) }))
            } else {
                None
            },
        ),
{
    let a = arm_trees(v);
    if v.values@.len() == 0 {
        assert(a =~= seq![ident("val"@), punct('='), punct('>'), ident("Self"@), punct(':'), punct(':'), ident(v.name@),
            Tree::Group(Delimiter::Parenthesis, seq![ident("val"@)])]);
    } else if crate::cg::enm::is_unit(v) {
        lemma_lit_num(v.values@[0].start as nat);
        assert(a =~= seq![num(v.values@[0].start as int), punct('='), punct('>'), ident("Self"@), punct(':'), punct(':'),
            ident(v.name@)]);
        assert(covers(v.values@, x) == (x == v.values@[0].start)) by {
            if covers(v.values@, x) {
                let i = choose|i: int| 0 <= i < v.values@.len() && #[trigger] v.values@[i].contains(x);
            } else {
                assert(!v.values@[0].contains(x));
            }
        }
    } else {
        lemma_alts_take(v.values@, x);
        assert(a =~= seq![ident("val"@), punct('@'), Tree::Group(Delimiter::Parenthesis, alts_trees(v.values@)),
            punct('='), punct('>'), ident("Self"@), punct(':'), punct(':'), ident(v.name@),
            Tree::Group(Delimiter::Parenthesis, seq![ident("val"@)])]);
    }
}

} // verus!
