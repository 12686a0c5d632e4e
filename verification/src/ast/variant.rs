//! One enum variant: a value pattern and a name.

use vstd::prelude::*;
use vstd::string::*;
use crate::ast::Values;
use crate::ast::values::values_read;
use crate::tt::{ParseError, Token, attr_len, ident_at, is_punct, punct_at, read_attr, take_front};

verus! {

/// `pattern => Name`; an empty pattern (`_`) makes the default variant.
#[derive(Debug)]
pub struct Variant {
    pub attr: Vec<Token>,
    pub name: String,
    pub values: Values,
}

/// How many tokens the variant `attr pattern => Name` at the front of `t`
/// takes, or why it is refused.
pub open spec fn variant_read(t: Seq<Token>) -> Result<nat, ParseError> {
    let a = attr_len(t);
    let u = t.skip(a as int);
    match values_read(u) {
        Err(e) => Err(e),
        Ok((vs, n)) => if !punct_at(u, n as int, '=') || !punct_at(u, n + 1int, '>') {
            Err(ParseError::ArrowExpected)
        } else if !ident_at(u, n + 2int) {
            Err(ParseError::IdentExpected)
        } else {
            Ok(a + n + 3)
        },
    }
}

/// `v` is the variant read from the front of `t`: its attributes, its
/// values as written, and its name.
pub open spec fn variant_from(t: Seq<Token>, v: Variant) -> bool {
    let a = attr_len(t);
    let u = t.skip(a as int);
    let n = values_read(u)->Ok_0.1;
    &&& v.attr@ == t.take(a as int)
    &&& v.values@ == values_read(u)->Ok_0.0
    &&& u[n + 2int] == Token::Ident(v.name)
}

impl Variant {
    /// Reads the variant at the front of `rest` (see `variant_read`).
    pub fn parse(rest: &mut Vec<Token>) -> (r: Result<Variant, ParseError>)
        ensures
            match variant_read(old(rest)@) {
                Ok(n) => (r matches Ok(v) && variant_from(old(rest)@, v)) && n <= old(rest)@.len()
                    && final(rest)@ == old(rest)@.skip(n as int),
                Err(e) => r == Err::<Variant, ParseError>(e),
            },
    {
        let ghost t = rest@;
        let attr = read_attr(rest);
        let ghost u = rest@;
        let values = match Values::parse(rest) {
            Ok(v) => v,
            Err(e) => return Err(e),
        };
        let ghost n = values_read(u)->Ok_0.1;
        proof {
            assert(u.skip(n as int) == rest@);
        }
        if rest.len() < 2 || !is_punct(&rest[0], '=') || !is_punct(&rest[1], '>') {
            return Err(ParseError::ArrowExpected);
        }
        if rest.len() < 3 || !matches!(rest[2], Token::Ident(_)) {
            return Err(ParseError::IdentExpected);
        }
        let mut head = take_front(rest, 3);
        let name = match head.pop() {
            Some(Token::Ident(name)) => name,
            _ => {
                proof {
                    assert(false);
                }
                return Err(ParseError::IdentExpected);
            },
        };
        proof {
            assert(u.skip(n as int).skip(3) == u.skip(n + 3int));
            assert(t.skip(attr_len(t) as int).skip(n + 3int) == t.skip(attr_len(t) + n + 3int));
        }
        Ok(Variant { attr, name, values })
    }
}

} // verus!
