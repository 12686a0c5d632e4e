//! One struct field: where its bits are, its name, and its type if written.

use vstd::prelude::*;
use crate::tt::{Layout, ParseError, Token, Type, attr_len, ident_at, is_punct, layout_read, punct_at, read_attr, read_vis, take_front, vis_len};

verus! {

/// `byte.bit;size vis name` or `byte.bit;size vis name: Type`.
#[derive(Debug)]
pub struct Field {
    pub attr: Vec<Token>,
    pub layout: Layout,
    pub vis: Vec<Token>,
    pub name: String,
    pub ty: Option<Type>,
}

/// How many tokens at the front of `t` come before a `,`.
pub open spec fn type_len(t: Seq<Token>) -> nat
    decreases t.len(),
{
    if t.len() == 0 || punct_at(t, 0, ',') {
        0
    } else {
        1 + type_len(t.skip(1))
    }
}

/// How many tokens the field `attr byte.bit;size vis name (: Type)?` at the
/// front of `t` takes, or why it is refused; its type runs to the next `,`.
pub open spec fn field_read(t: Seq<Token>) -> Result<nat, ParseError> {
    let a = attr_len(t);
    let u = t.skip(a as int);
    match layout_read(u) {
        Err(e) => Err(e),
        Ok(_) => {
            let w = u.skip(3);
            let v = vis_len(w);
            let x = w.skip(v as int);
            if !ident_at(x, 0) {
                Err(ParseError::IdentExpected)
            } else if punct_at(x, 1, ':') {
                let k = type_len(x.skip(2));
                if k == 0 {
                    Err(ParseError::TypeExpected)
                } else {
                    Ok(a + 3 + v + 2 + k)
                }
            } else {
                Ok(a + 3 + v + 1)
            }
        },
    }
}

/// `f` is the field read from the front of `t`.
pub open spec fn field_from(t: Seq<Token>, f: Field) -> bool {
    let a = attr_len(t);
    let u = t.skip(a as int);
    let w = u.skip(3);
    let v = vis_len(w);
    let x = w.skip(v as int);
    &&& f.attr@ == t.take(a as int)
    &&& layout_read(u) == Ok::<Layout, ParseError>(f.layout)
    &&& f.vis@ == w.take(v as int)
    &&& x[0] == Token::Ident(f.name)
    &&& if punct_at(x, 1, ':') {
        f.ty matches Some(Type::Named(ts)) && ts@ == x.skip(2).take(type_len(x.skip(2)) as int)
    } else {
        f.ty is None
    }
}

/// Moves the tokens before the next `,` out.
fn read_type(rest: &mut Vec<Token>) -> (r: Vec<Token>)
    ensures
        type_len(old(rest)@) <= old(rest)@.len(),
        r@ == old(rest)@.take(type_len(old(rest)@) as int),
        final(rest)@ == old(rest)@.skip(type_len(old(rest)@) as int),
{
    let ghost t = rest@;
    let mut n: usize = 0;
    assert(t.skip(0) == t);
    while n < rest.len() && !is_punct(&rest[n], ',')
        invariant
            n <= rest@.len(),
            rest@ == t,
            type_len(t) == n + type_len(t.skip(n as int)),
        decreases rest.len() - n,
    {
        proof {
            assert(t.skip(n as int).skip(1) == t.skip(n + 1));
        }
        n = n + 1;
    }
    take_front(rest, n)
}

impl Field {
    /// Reads the field at the front of `rest` (see `field_read`).
    pub fn parse(rest: &mut Vec<Token>) -> (r: Result<Field, ParseError>)
        ensures
            match field_read(old(rest)@) {
                Ok(n) => (r matches Ok(f) && field_from(old(rest)@, f)) && n <= old(rest)@.len() && final(rest)@
                    == old(rest)@.skip(n as int),
                Err(e) => r == Err::<Field, ParseError>(e),
            },
    {
        let ghost t = rest@;
        let attr = read_attr(rest);
        let ghost u = rest@;
        let layout = match Layout::parse(rest) {
            Ok(l) => l,
            Err(e) => return Err(e),
        };
        let ghost w = rest@;
        let vis = read_vis(rest);
        let ghost x = rest@;
        if rest.len() == 0 || !matches!(rest[0], Token::Ident(_)) {
            return Err(ParseError::IdentExpected);
        }
        let typed = rest.len() >= 2 && is_punct(&rest[1], ':');
        let mut head = take_front(rest, if typed { 2 } else { 1 });
        let name = match head.remove(0) {
            Token::Ident(name) => name,
            _ => {
                proof {
                    assert(false);
                }
                return Err(ParseError::IdentExpected);
            },
        };
        let ty = if typed {
            let ghost y = rest@;
            let ts = read_type(rest);
            if ts.len() == 0 {
                return Err(ParseError::TypeExpected);
            }
            Some(Type::Named(ts))
        } else {
            None
        };
        proof {
            assert(t.skip(attr_len(t) as int) == u);
            assert(u.skip(3) == w);
            assert(w.skip(vis_len(w) as int) == x);
        }
        Ok(Field { attr, layout, vis, name, ty })
    }
}

} // verus!
