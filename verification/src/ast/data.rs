//! A whole `bits!` definition as written.

use vstd::prelude::*;
use vstd::string::*;
use vstd::utf8::encode_utf8;
use crate::ast::{Field, Variant};
use crate::ast::field::{field_read, field_from};
use crate::ast::variant::{variant_read, variant_from};
use crate::lit::{parse_repr, repr_spec};
use crate::tt::{
    Delimiter, ParseError, Token, attr_len, group_at, ident_at, is_group, is_punct, is_word, punct_at, read_attr,
    read_vis, take_front, vis_len, word_at,
};

verus! {

/// The body: the variants of an enum or the fields of a struct.
#[derive(Debug)]
pub enum Body {
    Enum(Vec<Variant>),
    Struct(Vec<Field>),
}

/// `attr vis struct Name: uN { fields }` or `attr vis enum Name: uN { variants }`.
#[derive(Debug)]
pub struct Data {
    pub attr: Vec<Token>,
    pub vis: Vec<Token>,
    pub name: String,
    pub size: u32,
    pub body: Body,
}

/// Where the keyword of the definition in `t` stands: after its
/// attributes and visibility.
pub open spec fn keyword_pos(t: Seq<Token>) -> int {
    (attr_len(t) + vis_len(t.skip(attr_len(t) as int))) as int
}

/// What the front of the definition `t` reads as: whether it is a struct,
/// and its size; the body group follows it.
pub open spec fn head_read(t: Seq<Token>) -> Result<(bool, u32), ParseError> {
    let k = keyword_pos(t);
    let is_struct = word_at(t, k, seq!['s', 't', 'r', 'u', 'c', 't']);
    if !is_struct && !word_at(t, k, seq!['e', 'n', 'u', 'm']) {
        Err(ParseError::KindExpected)
    } else if !ident_at(t, k + 1) {
        Err(ParseError::IdentExpected)
    } else if !punct_at(t, k + 2, ':') {
        Err(ParseError::ColonExpected)
    } else if !ident_at(t, k + 3) {
        Err(ParseError::IdentExpected)
    } else {
        match repr_spec(encode_utf8((t[k + 3]->Ident_0)@), u32::MAX as int) {
            None => Err(ParseError::BadRepr),
            Some(size) => if !group_at(t, k + 4, Delimiter::Brace) {
                Err(ParseError::BodyExpected)
            } else {
                Ok((is_struct, size as u32))
            },
        }
    }
}

/// The tokens inside the body group of the definition `t`.
pub open spec fn body_tokens(t: Seq<Token>) -> Seq<Token> {
    (t[keyword_pos(t) + 4]->Group_1)@
}

/// The start of each field of the block `t` from position `i` on, the
/// fields separated by `,` (one may end the block), or why it is refused.
pub open spec fn fields_from(t: Seq<Token>, i: int) -> Result<Seq<int>, ParseError>
    decreases t.len() - i,
{
    if i < 0 || i >= t.len() {
        Ok(seq![])
    } else {
        match field_read(t.skip(i)) {
            Err(e) => Err(e),
            Ok(n) => if i + n >= t.len() {
                Ok(seq![i])
            } else if !punct_at(t, i + n, ',') {
                Err(ParseError::CommaExpected)
            } else {
                match fields_from(t, i + n + 1) {
                    Err(e) => Err(e),
                    Ok(s) => Ok(seq![i] + s),
                }
            },
        }
    }
}

/// The start of each variant of the block `t` from position `i` on, or why
/// it is refused.
pub open spec fn variants_from(t: Seq<Token>, i: int) -> Result<Seq<int>, ParseError>
    decreases t.len() - i,
{
    if i < 0 || i >= t.len() {
        Ok(seq![])
    } else {
        match variant_read(t.skip(i)) {
            Err(e) => Err(e),
            Ok(n) => if i + n >= t.len() {
                Ok(seq![i])
            } else if !punct_at(t, i + n, ',') {
                Err(ParseError::CommaExpected)
            } else {
                match variants_from(t, i + n + 1) {
                    Err(e) => Err(e),
                    Ok(s) => Ok(seq![i] + s),
                }
            },
        }
    }
}

/// `p` followed by the starts that `r` reads, if it reads.
pub open spec fn after(p: Seq<int>, r: Result<Seq<int>, ParseError>) -> Result<Seq<int>, ParseError> {
    match r {
        Ok(s) => Ok(p + s),
        Err(e) => Err(e),
    }
}

/// `d` has the front of the definition `t`: its attributes, visibility,
/// name and size.
pub open spec fn head_from(t: Seq<Token>, d: Data, size: u32) -> bool {
    let a = attr_len(t);
    let k = keyword_pos(t);
    &&& d.attr@ == t.take(a as int)
    &&& d.vis@ == t.subrange(a as int, k)
    &&& t[k + 1] == Token::Ident(d.name)
    &&& d.size == size
}

/// What reading the definition `t` yields.
pub open spec fn data_outcome(t: Seq<Token>, r: Result<Data, ParseError>) -> bool {
    match head_read(t) {
        Err(e) => r == Err::<Data, ParseError>(e),
        Ok((is_struct, size)) => {
            let b = body_tokens(t);
            if is_struct {
                match fields_from(b, 0) {
                    Err(e) => r == Err::<Data, ParseError>(e),
                    Ok(starts) => r matches Ok(d) && head_from(t, d, size) && (d.body matches Body::Struct(fs)
                        && fs@.len() == starts.len() && forall|j: int|
                        0 <= j < starts.len() ==> field_from(b.skip(starts[j]), #[trigger] fs@[j])),
                }
            } else {
                match variants_from(b, 0) {
                    Err(e) => r == Err::<Data, ParseError>(e),
                    Ok(starts) => r matches Ok(d) && head_from(t, d, size) && (d.body matches Body::Enum(vs)
                        && vs@.len() == starts.len() && forall|j: int|
                        0 <= j < starts.len() ==> variant_from(b.skip(starts[j]), #[trigger] vs@[j])),
                }
            }
        },
    }
}

/// Reads the fields of a struct body.
#[verifier::loop_isolation(false)]
fn read_fields(body: Vec<Token>) -> (r: Result<Vec<Field>, ParseError>)
    ensures
        match fields_from(body@, 0) {
            Err(e) => r == Err::<Vec<Field>, ParseError>(e),
            Ok(starts) => r matches Ok(fs) && fs@.len() == starts.len() && forall|j: int|
                0 <= j < starts.len() ==> field_from(body@.skip(starts[j]), #[trigger] fs@[j]),
        },
{
    let ghost g = body@;
    let mut rest = body;
    let mut fields: Vec<Field> = Vec::new();
    let ghost mut i: int = 0;
    let ghost mut starts: Seq<int> = seq![];
    assert(g.skip(0) == g);
    while rest.len() > 0
        invariant
            0 <= i <= g.len(),
            rest@ == g.skip(i),
            fields_from(g, 0) == after(starts, fields_from(g, i)),
            fields@.len() == starts.len(),
            forall|j: int| 0 <= j < starts.len() ==> field_from(g.skip(starts[j]), #[trigger] fields@[j]),
        decreases rest.len(),
    {
        let ghost u = rest@;
        let f = match Field::parse(&mut rest) {
            Ok(f) => f,
            Err(e) => return Err(e),
        };
        let ghost n = field_read(u)->Ok_0;
        proof {
            assert(u.skip(n as int) == g.skip(i + n));
        }
        fields.push(f);
        if rest.len() == 0 {
            proof {
                assert(fields_from(g, i) == Ok::<Seq<int>, ParseError>(seq![i]));
                assert(starts + seq![i] + seq![] == starts.push(i));
                starts = starts.push(i);
                i = g.len() as int;
            }
        } else {
            if !is_punct(&rest[0], ',') {
                return Err(ParseError::CommaExpected);
            }
            let _ = take_front(&mut rest, 1);
            proof {
                assert(g.skip(i + n).skip(1) == g.skip(i + n + 1));
                if let Ok(s) = fields_from(g, i + n + 1) {
                    assert(starts + (seq![i] + s) == starts.push(i) + s);
                }
                starts = starts.push(i);
                i = i + n + 1;
            }
        }
    }
    proof {
        assert(starts + seq![] == starts);
    }
    Ok(fields)
}

/// Reads the variants of an enum body.
#[verifier::loop_isolation(false)]
fn read_variants(body: Vec<Token>) -> (r: Result<Vec<Variant>, ParseError>)
    ensures
        match variants_from(body@, 0) {
            Err(e) => r == Err::<Vec<Variant>, ParseError>(e),
            Ok(starts) => r matches Ok(vs) && vs@.len() == starts.len() && forall|j: int|
                0 <= j < starts.len() ==> variant_from(body@.skip(starts[j]), #[trigger] vs@[j]),
        },
{
    let ghost g = body@;
    let mut rest = body;
    let mut variants: Vec<Variant> = Vec::new();
    let ghost mut i: int = 0;
    let ghost mut starts: Seq<int> = seq![];
    assert(g.skip(0) == g);
    while rest.len() > 0
        invariant
            0 <= i <= g.len(),
            rest@ == g.skip(i),
            variants_from(g, 0) == after(starts, variants_from(g, i)),
            variants@.len() == starts.len(),
            forall|j: int| 0 <= j < starts.len() ==> variant_from(g.skip(starts[j]), #[trigger] variants@[j]),
        decreases rest.len(),
    {
        let ghost u = rest@;
        let v = match Variant::parse(&mut rest) {
            Ok(v) => v,
            Err(e) => return Err(e),
        };
        let ghost n = variant_read(u)->Ok_0;
        proof {
            assert(u.skip(n as int) == g.skip(i + n));
        }
        variants.push(v);
        if rest.len() == 0 {
            proof {
                assert(variants_from(g, i) == Ok::<Seq<int>, ParseError>(seq![i]));
                assert(starts + seq![i] + seq![] == starts.push(i));
                starts = starts.push(i);
                i = g.len() as int;
            }
        } else {
            if !is_punct(&rest[0], ',') {
                return Err(ParseError::CommaExpected);
            }
            let _ = take_front(&mut rest, 1);
            proof {
                assert(g.skip(i + n).skip(1) == g.skip(i + n + 1));
                if let Ok(s) = variants_from(g, i + n + 1) {
                    assert(starts + (seq![i] + s) == starts.push(i) + s);
                }
                starts = starts.push(i);
                i = i + n + 1;
            }
        }
    }
    proof {
        assert(starts + seq![] == starts);
    }
    Ok(variants)
}

impl Data {
    /// Reads a definition: attributes, visibility, `struct` or `enum`, the
    /// name, `:`, the size as `uN`, and the body in braces, whose fields or
    /// variants are separated by `,`. Tokens after the body are not read.
    pub fn parse(tokens: Vec<Token>) -> (r: Result<Data, ParseError>)
        ensures
            data_outcome(tokens@, r),
    {
        proof {
            reveal_strlit("struct");
            reveal_strlit("enum");
            assert("struct"@ == seq!['s', 't', 'r', 'u', 'c', 't']);
            assert("enum"@ == seq!['e', 'n', 'u', 'm']);
        }
        let ghost t = tokens@;
        let mut rest = tokens;
        let attr = read_attr(&mut rest);
        let ghost u = rest@;
        let vis = read_vis(&mut rest);
        proof {
            assert(rest@ == t.skip(keyword_pos(t)));
            assert(vis@ == t.subrange(attr_len(t) as int, keyword_pos(t)));
        }
        if rest.len() == 0 {
            return Err(ParseError::KindExpected);
        }
        let is_struct = is_word(&rest[0], "struct");
        if !is_struct && !is_word(&rest[0], "enum") {
            return Err(ParseError::KindExpected);
        }
        if rest.len() < 2 || !matches!(rest[1], Token::Ident(_)) {
            return Err(ParseError::IdentExpected);
        }
        if rest.len() < 3 || !is_punct(&rest[2], ':') {
            return Err(ParseError::ColonExpected);
        }
        if rest.len() < 4 || !matches!(rest[3], Token::Ident(_)) {
            return Err(ParseError::IdentExpected);
        }
        let size = match &rest[3] {
            Token::Ident(repr) => parse_repr(repr.as_str().as_bytes()),
            _ => None,
        };
        let size = match size {
            Some(s) => s,
            None => return Err(ParseError::BadRepr),
        };
        if rest.len() < 5 || !is_group(&rest[4], Delimiter::Brace) {
            return Err(ParseError::BodyExpected);
        }
        let mut head = take_front(&mut rest, 5);
        let group = head.pop();
        let name = match head.remove(1) {
            Token::Ident(name) => name,
            _ => {
                proof {
                    assert(false);
                }
                return Err(ParseError::IdentExpected);
            },
        };
        let inner = match group {
            Some(Token::Group(_, inner)) => inner,
            _ => {
                proof {
                    assert(false);
                }
                return Err(ParseError::BodyExpected);
            },
        };
        let body = if is_struct {
            match read_fields(inner) {
                Ok(fs) => Body::Struct(fs),
                Err(e) => return Err(e),
            }
        } else {
            match read_variants(inner) {
                Ok(vs) => Body::Enum(vs),
                Err(e) => return Err(e),
            }
        };
        Ok(Data { attr, vis, name, size, body })
    }
}

} // verus!
