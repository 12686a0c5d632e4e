use bitx::ast::{Body, Data, Field, Variant};
use bitx::tt::{Delimiter, Layout, ParseError, Token, Type};

/// The tokens of `src`, as the macro receives them.
fn toks(src: &str) -> Vec<Token> {
    let stream: proc_macro2::TokenStream = src.parse().expect("source lexes");
    convert(stream)
}

fn convert(stream: proc_macro2::TokenStream) -> Vec<Token> {
    stream
        .into_iter()
        .map(|tree| match tree {
            proc_macro2::TokenTree::Ident(i) => Token::Ident(i.to_string()),
            proc_macro2::TokenTree::Punct(p) => Token::Punct(p.as_char()),
            proc_macro2::TokenTree::Literal(l) => Token::Literal(l.to_string().into_bytes()),
            proc_macro2::TokenTree::Group(g) => {
                let d = match g.delimiter() {
                    proc_macro2::Delimiter::Parenthesis => Delimiter::Parenthesis,
                    proc_macro2::Delimiter::Brace => Delimiter::Brace,
                    proc_macro2::Delimiter::Bracket => Delimiter::Bracket,
                    proc_macro2::Delimiter::None => Delimiter::Invisible,
                };
                Token::Group(d, convert(g.stream()))
            }
        })
        .collect()
}

/// The text of tokens, for looking into what was kept.
fn text(tokens: &[Token]) -> String {
    let mut out = String::new();
    for t in tokens {
        match t {
            Token::Ident(i) => out.push_str(i),
            Token::Punct(c) => out.push(*c),
            Token::Literal(l) => out.push_str(&String::from_utf8_lossy(l)),
            Token::Group(_, inner) => {
                out.push('(');
                out.push_str(&text(inner));
                out.push(')');
            }
        }
        out.push(' ');
    }
    out
}

#[test]
fn parse_struct() {
    let data: Data = Data::parse(toks("pub struct Header: u16 { 0.0;4 pub version, }")).expect("struct should parse");

    assert!(matches!(data.body, Body::Struct(_)));
    assert_eq!(data.size, 16);
    assert_eq!(data.name.to_string(), "Header");
}

#[test]
fn parse_enum() {
    let data: Data = Data::parse(toks("pub enum Mode: u2 { 0 => Off, 1 => On, }")).expect("enum should parse");

    assert!(matches!(data.body, Body::Enum(_)));
    assert_eq!(data.size, 2);
}

#[test]
fn parse_with_attributes() {
    let data: Data =
        Data::parse(toks("#[derive(Debug)] pub struct S: u8 { 0.0;8 pub field, }")).expect("struct with attrs should parse");
    assert!(text(&data.attr).contains("derive"));
}

#[test]
fn parse_missing_keyword() {
    let result = Data::parse(toks("pub Foo: u8 {}"));
    assert!(result.is_err());
}

#[test]
fn parse_missing_colon() {
    let result = Data::parse(toks("pub struct Foo u8 { 0.0;8 pub field, }"));
    assert!(result.is_err());
}

#[test]
fn parse_invalid_repr() {
    let result = Data::parse(toks("pub struct S: i8 { 0.0;8 pub field, }"));
    assert!(result.is_err());
}

#[test]
fn parse_repr_with_no_digits() {
    let result = Data::parse(toks("pub struct S: u { 0.0;8 pub field, }"));
    assert!(result.is_err());
}

#[test]
fn definition_errors_name_the_problem() {
    assert_eq!(Data::parse(toks("pub Foo: u8 {}")).unwrap_err(), ParseError::KindExpected);
    assert_eq!(Data::parse(toks("struct Foo u8 {}")).unwrap_err(), ParseError::ColonExpected);
    assert_eq!(Data::parse(toks("struct 3: u8 {}")).unwrap_err(), ParseError::IdentExpected);
    assert_eq!(Data::parse(toks("struct S: i8 {}")).unwrap_err(), ParseError::BadRepr);
    assert_eq!(Data::parse(toks("struct S: u {}")).unwrap_err(), ParseError::BadRepr);
    assert_eq!(Data::parse(toks("struct S: u8 ( )")).unwrap_err(), ParseError::BodyExpected);
    assert_eq!(Data::parse(toks("struct S: u8 { 0.0;8 a 1.0;8 b }")).unwrap_err(), ParseError::CommaExpected);
    assert_eq!(Data::parse(toks("enum E: u1 { 0 => A, 1 B }")).unwrap_err(), ParseError::ArrowExpected);
    assert_eq!(Data::parse(toks("struct S: u8 { 0.8;1 a }")).unwrap_err(), ParseError::BadLayout);
    assert_eq!(Data::parse(toks("struct S: u8 { 0.0 8 a }")).unwrap_err(), ParseError::SemicolonExpected);
    assert_eq!(Data::parse(toks("struct S: u8 { 0.0;8 a: }")).unwrap_err(), ParseError::TypeExpected);
}

#[test]
fn parse_reads_every_part() {
    let data = Data::parse(toks(
        "#[doc = \"x\"] pub(crate) struct Header: u36 { 0.0;01 pub is_active, 0.1;03 pub state: State, 1.0;20 pub(crate) payload, 3.4;08 checksum }",
    ))
    .unwrap();
    assert_eq!(data.attr.len(), 2);
    assert_eq!(data.vis.len(), 2);
    assert_eq!(data.size, 36);
    let Body::Struct(fields) = data.body else { panic!("a struct") };
    let placed: Vec<(u32, u32, &str, bool)> =
        fields.iter().map(|f| (f.layout.offset, f.layout.size, f.name.as_str(), f.ty.is_some())).collect();
    assert_eq!(
        placed,
        vec![(0, 1, "is_active", false), (1, 3, "state", true), (8, 20, "payload", false), (28, 8, "checksum", false)]
    );
    assert!(matches!(&fields[1].ty, Some(Type::Named(ts)) if text(ts) == "State "));
    assert_eq!(fields[2].vis.len(), 2);
    assert!(fields[3].vis.is_empty());
}

#[test]
fn parse_reads_enum_patterns() {
    let data = Data::parse(toks(
        "pub enum State: u3 { #[allow(dead_code)] 0 => Inactive, 1 => Active, 2 | 6..=7 => Error, _ => Unknown, }",
    ))
    .unwrap();
    let Body::Enum(variants) = data.body else { panic!("an enum") };
    let names: Vec<&str> = variants.iter().map(|v| v.name.as_str()).collect();
    assert_eq!(names, vec!["Inactive", "Active", "Error", "Unknown"]);
    assert_eq!(variants[0].attr.len(), 2);
    assert_eq!(variants[2].values.iter().len(), 2);
    assert!(variants[3].values.is_empty());
}

#[test]
fn with_ty() {
    let f = Field::parse(&mut toks("0.0;0 foo : T")).unwrap();
    assert_eq!(f.layout, Layout { offset: 0, size: 0 });
    assert!(matches!(&f.ty, Some(Type::Named(ts)) if text(ts) == "T "));
}

#[test]
fn without_ty() {
    let mut rest = toks("0.0;0 foo, 1.0;1 bar");
    let f = Field::parse(&mut rest).unwrap();
    assert_eq!(f.name, "foo");
    assert!(f.ty.is_none());
    // the `,` and what follows stay
    assert_eq!(rest.len(), 5);
}

#[test]
fn no_arrow() {
    assert_eq!(Variant::parse(&mut toks("0 Foo")).unwrap_err(), ParseError::ArrowExpected);
}
