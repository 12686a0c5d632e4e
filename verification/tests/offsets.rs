use bitx::ast::Value;
use bitx::lit::{parse_repr, parse_u128, size_of, with_size};
use bitx::off::{offset_from_reads, Offset, OffsetError, OffsetLit};
use bitx::tt::{Delimiter, ParseError, Token};

fn float(text: &str) -> OffsetLit {
    OffsetLit::Float { text: text.to_string() }
}

fn ints(byte: &str, bit: Option<&str>) -> OffsetLit {
    OffsetLit::Ints { byte: byte.to_string(), bit: bit.map(|b| b.to_string()) }
}

#[test]
fn from_float() {
    let off = Offset::parse(&float("2.5")).unwrap();

    assert_eq!(off.byte, 2);
    assert_eq!(off.bit, 5);
}

#[test]
fn from_ints() {
    let off = Offset::parse(&ints("0x2", Some("5"))).unwrap();

    assert_eq!(off.byte, 2);
    assert_eq!(off.bit, 5);
}

#[test]
fn invalid_bit() {
    let result = Offset::parse(&float("1.8"));

    assert!(result.is_err());
}

#[test]
fn offset_errors() {
    assert_eq!(Offset::parse(&float("1.8")), Err(OffsetError::BitRange));
    assert_eq!(
        Offset::parse(&float("1.5f32")),
        Err(OffsetError::Suffix)
    );
    assert_eq!(Offset::parse(&ints("1u8", None)), Err(OffsetError::ByteSuffix));
    assert_eq!(Offset::parse(&ints("1", Some("2u8"))), Err(OffsetError::BitSuffix));
    // syn reads `5e3` as a float, not as a bit offset
    assert_eq!(Offset::parse(&float("2.5e3")), Err(OffsetError::NotAnOffset));
    assert_eq!(Offset::parse(&float("1e3")), Err(OffsetError::NotAnOffset));
    assert_eq!(Offset::parse(&ints("x", None)), Err(OffsetError::NotAnOffset));
    assert_eq!(Offset::parse(&ints("4", None)), Ok(Offset { byte: 4, bit: 0 }));
    assert_eq!(Offset::parse(&ints("1_0", Some("0b11"))), Ok(Offset { byte: 10, bit: 3 }));
    assert_eq!(
        Offset::parse(&ints("0xFFFFFFFFFFFFFFFFFFFFFFFFFFFFFFFFF", None)),
        Err(OffsetError::TooLarge)
    );
}

#[test]
fn offset_arithmetic() {
    let a = Offset::from_bits(13);
    assert_eq!(a, Offset { byte: 1, bit: 5 });
    assert_eq!(a.bits(), 13);
    assert_eq!(Offset::from_bytes(3).bits(), 24);
    let sum = a.add(Offset { byte: 2, bit: 6 });
    assert_eq!(sum, Offset { byte: 4, bit: 3 });
    assert_eq!(sum.bits(), 35);
}

#[test]
fn type_names() {
    assert_eq!(size_of(b"u12"), Some(Offset { byte: 1, bit: 4 }));
    assert_eq!(size_of(b"u0"), None);
    assert_eq!(size_of(b"i8"), None);
    assert_eq!(size_of(b"u"), None);
    assert_eq!(size_of(b"u8x"), None);
    assert_eq!(with_size(Offset { byte: 2, bit: 0 }), b"u16".to_vec());
    assert_eq!(size_of(&with_size(Offset { byte: 16, bit: 0 })), Some(Offset { byte: 16, bit: 0 }));
    assert_eq!(parse_repr(b"u16"), Some(16));
    assert_eq!(parse_repr(b"u"), None);
    assert_eq!(parse_repr(b"i8"), None);
    assert_eq!(parse_repr(b"u4294967296"), None);
}

#[test]
fn integer_literals() {
    assert_eq!(parse_u128(b"0"), Some(0));
    assert_eq!(parse_u128(b"0xFFFFFFFFFFFFFFFFFFFFFFFFFFFFFFFF"), Some(u128::MAX));
    assert_eq!(parse_u128(b"0o10"), Some(8));
    assert_eq!(parse_u128(b"0b101"), Some(5));
    assert_eq!(parse_u128(b"1_000"), Some(1000));
    assert_eq!(parse_u128(b"1.1"), None);
    assert_eq!(parse_u128(b"foo"), None);
    assert_eq!(parse_u128(b"0x1_0000_0000_0000_0000_0000_0000_0000_0000"), None);
}

#[test]
fn pattern_values() {
    let value = |src: &str| Value::parse(&mut toks(src));
    assert_eq!(value("0"), Ok(Value { start: 0, end: 0 }));
    assert_eq!(value("1..=0xFFFFFFFFFFFFFFFFFFFFFFFFFFFFFFFF"), Ok(Value { start: 1, end: u128::MAX }));
    assert_eq!(value("1..0x2"), Ok(Value { start: 1, end: 1 }));
    assert_eq!(value("1..0o10"), Ok(Value { start: 1, end: 7 }));
    assert_eq!(value("1.1"), Err(ParseError::InvalidStart));
    assert_eq!(value("1..foo"), Err(ParseError::LiteralExpected));
    assert_eq!(value("1..1.5"), Err(ParseError::InvalidEnd));
    assert_eq!(value("2..1"), Err(ParseError::EmptyRange));
    assert_eq!(value("2 . = 1"), Err(ParseError::DotExpected));
    assert_eq!(value("x"), Err(ParseError::LiteralExpected));
    // the tokens after the value stay
    let mut rest = toks("3..=4 => A");
    assert_eq!(Value::parse(&mut rest), Ok(Value { start: 3, end: 4 }));
    assert_eq!(rest.len(), 3);
}

/// The tokens of `src`, as the macro receives them.
fn toks(src: &str) -> Vec<Token> {
    let stream: proc_macro2::TokenStream = src.parse().expect("source lexes");
    convert(stream)
}

fn convert(stream: proc_macro2::TokenStream) -> Vec<Token> {
    stream
        .into_iter()
        .map(|tree| match tree {
            proc_macro2::TokenTree::Ident(i) => Token::Ident(i.to_string()),
            proc_macro2::TokenTree::Punct(p) => Token::Punct(p.as_char()),
            proc_macro2::TokenTree::Literal(l) => Token::Literal(l.to_string().into_bytes()),
            proc_macro2::TokenTree::Group(g) => {
                let d = match g.delimiter() {
                    proc_macro2::Delimiter::Parenthesis => Delimiter::Parenthesis,
                    proc_macro2::Delimiter::Brace => Delimiter::Brace,
                    proc_macro2::Delimiter::Bracket => Delimiter::Bracket,
                    proc_macro2::Delimiter::None => Delimiter::Invisible,
                };
                Token::Group(d, convert(g.stream()))
            }
        })
        .collect()
}

#[test]
fn offset_from_syn_reads() {
    let plain = |v: usize| Some((String::new(), Some(v)));
    assert_eq!(offset_from_reads(plain(3), Some(plain(5))), Ok(Offset { byte: 3, bit: 5 }));
    assert_eq!(offset_from_reads(plain(3), None), Ok(Offset { byte: 3, bit: 0 }));
    assert_eq!(offset_from_reads(None, None), Err(OffsetError::NotAnOffset));
    assert_eq!(offset_from_reads(Some(("u8".to_string(), Some(1))), None), Err(OffsetError::ByteSuffix));
    assert_eq!(offset_from_reads(plain(1), Some(Some(("u8".to_string(), Some(1))))), Err(OffsetError::BitSuffix));
    assert_eq!(offset_from_reads(Some((String::new(), None)), None), Err(OffsetError::TooLarge));
    assert_eq!(offset_from_reads(plain(1), Some(plain(8))), Err(OffsetError::BitRange));
    assert_eq!(offset_from_reads(plain(1), Some(None)), Err(OffsetError::NotAnOffset));
}
