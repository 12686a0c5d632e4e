use bitx::ast::{Body, Data, Field, Value, Values, Variant};
use bitx::cg::layout::FieldValue;
use bitx::hir::{Enum, Struct};
use bitx::tt::{Delimiter, Layout, Token, Type};

/// A field `byte.bit;size name`, of no written type.
fn field(byte: u32, bit: u32, size: u32, name: &str) -> Field {
    Field { attr: vec![], layout: Layout { offset: byte * 8 + bit, size }, vis: vec![], name: name.to_string(), ty: None }
}

/// A field `byte.bit;size name: ty`.
fn typed(byte: u32, bit: u32, size: u32, name: &str, ty: &str) -> Field {
    Field {
        attr: vec![],
        layout: Layout { offset: byte * 8 + bit, size },
        vis: vec![],
        name: name.to_string(),
        ty: Some(Type::Named(vec![Token::Ident(ty.to_string())])),
    }
}

fn build(name: &str, size: u32, fields: Vec<Field>) -> Struct {
    match Struct::try_from(Data { attr: vec![], vis: vec![], name: name.to_string(), size, body: Body::Struct(fields) }) {
        Ok(s) => s,
        Err(err) => panic!("struct should be accepted: {err:?}"),
    }
}

fn get(s: &Struct, bytes: &[u8], name: &str) -> FieldValue {
    let f = s.fields.iter().find(|f| f.name == name).expect("field exists");
    f.get(bytes)
}

fn uint(s: &Struct, bytes: &[u8], name: &str) -> u128 {
    match get(s, bytes, name) {
        FieldValue::Uint(v) => v,
        other => panic!("expected an integer, got {other:?}"),
    }
}

fn ipv4() -> Struct {
    build(
        "IpV4Header",
        16,
        vec![
            field(0, 0, 4, "version"),
            field(0, 4, 4, "ihl"),
            field(1, 0, 6, "dscp"),
            field(1, 6, 2, "ecn"),
        ],
    )
}

fn unaligned() -> Struct {
    build(
        "UnalignedHeader",
        24,
        vec![field(0, 0, 4, "version"), field(0, 4, 12, "mid"), field(2, 0, 8, "tail")],
    )
}

#[test]
fn from_slice_returns_ref() {
    let s = ipv4();
    let buf = [0xFF, 0xFF, 0x45, 0x3F, 0xAA, 0xBB];

    let header = s.from_slice(&buf[2..]).expect("slice should be long enough");

    assert_eq!(uint(&s, &header, "version"), 4);
    assert_eq!(uint(&s, &header, "ihl"), 5);
    assert_eq!(uint(&s, &header, "dscp"), 15);
    assert_eq!(uint(&s, &header, "ecn"), 3);

    let owned = s.from_array(&[0x45, 0x3F]);
    assert_eq!(uint(&s, &header, "version"), uint(&s, &owned, "version"));
    assert_eq!(uint(&s, &header, "ihl"), uint(&s, &owned, "ihl"));
    assert_eq!(uint(&s, &header, "dscp"), uint(&s, &owned, "dscp"));
    assert_eq!(uint(&s, &header, "ecn"), uint(&s, &owned, "ecn"));
}

#[test]
fn from_slice_too_short_returns_none() {
    let s = ipv4();
    let buf = [0x45u8];
    assert!(s.from_slice(&buf).is_none());
    assert!(s.from_slice(&[]).is_none());
}

#[test]
fn from_slice_exact_size() {
    let s = ipv4();
    let buf = [0x45u8, 0x3F];
    let header = s.from_slice(&buf).unwrap();
    assert_eq!(uint(&s, &header, "version"), 4);
}

#[test]
fn from_slice_oversize_is_ok() {
    let s = ipv4();
    let buf = [0x45u8, 0x3F, 0xFF, 0xFF, 0xFF];
    let header = s.from_slice(&buf).unwrap();
    assert_eq!(uint(&s, &header, "version"), 4);
    assert_eq!(uint(&s, &header, "ihl"), 5);
}

#[test]
fn from_slice_unaligned() {
    let s = unaligned();
    let too_short = [0x01u8, 0x02];
    assert!(s.from_slice(&too_short).is_none());

    let just_right = [0x01, 0x02, 0x03];
    let header = s.from_slice(&just_right).unwrap();

    assert_eq!(uint(&s, &header, "version"), 0);
    assert_eq!(uint(&s, &header, "mid"), 0x102);
    assert_eq!(uint(&s, &header, "tail"), 0x03);
}

#[test]
fn from_slice_alignment_independent() {
    let s = ipv4();
    let buf = [0u8, 0, 0x45, 0x3F];
    let header = s.from_slice(&buf[2..]).unwrap();
    assert_eq!(uint(&s, &header, "version"), 4);
    assert_eq!(uint(&s, &header, "ihl"), 5);
}

#[test]
fn test_ipv4_header_extraction() {
    const DATA: [u8; 2] = [0x45, 0x3F];
    let s = ipv4();
    let header = s.from_array(&DATA);

    assert_eq!(uint(&s, &header, "version"), 4);
    assert_eq!(uint(&s, &header, "ihl"), 5);
    assert_eq!(uint(&s, &header, "dscp"), 15);
    assert_eq!(uint(&s, &header, "ecn"), 3);
}

#[test]
fn test_complex_unaligned_nested() {
    let nested = build("NestedData", 8, vec![field(0, 0, 8, "inner")]);
    let packet = build(
        "ComplexPacket",
        24,
        vec![field(0, 0, 1, "flag"), typed(0, 1, 8, "nested", "NestedData"), field(1, 1, 15, "remainder")],
    );
    let data = [0xD5, 0x00, 0x01];
    let bytes = packet.from_array(&data);

    assert_eq!(get(&packet, &bytes, "flag"), FieldValue::Bool(true));
    let inner = match get(&packet, &bytes, "nested") {
        FieldValue::Mask(m) => nested.from_mask(m),
        other => panic!("expected a mask, got {other:?}"),
    };
    assert_eq!(uint(&nested, &inner, "inner"), 0xAA);
    assert_eq!(uint(&packet, &bytes, "remainder"), 1);
}

#[test]
fn test_from_slice_bounds() {
    let s = ipv4();
    let too_small = [0x45];
    assert!(s.from_slice(&too_small).is_none());

    let exact = [0x45, 0x3F];
    assert!(s.from_slice(&exact).is_some());
}

fn variant(name: &str, values: &[(u128, u128)]) -> Variant {
    Variant {
        attr: vec![],
        name: name.to_string(),
        values: Values(values.iter().map(|&(start, end)| Value { start, end }).collect()),
    }
}

#[test]
fn test_enum_in_struct() {
    // [ Status (3) | Flag (3) | Pad ]
    // [   0 1 0    |  1 1 0   | 00  ]
    let status = Enum::try_from(Data {
        attr: vec![],
        vis: vec![],
        name: "Status".to_string(),
        size: 3,
        body: Body::Enum(vec![variant("Active", &[(1, 1)]), variant("Paused", &[(2, 2)]), variant("Unknown", &[])]),
    })
    .unwrap();
    let header = build("DeviceHeader", 6, vec![typed(0, 0, 3, "status", "Status"), field(0, 3, 3, "flag")]);
    let bytes = header.from_array(&[0b010_110_00]);

    let decoded = match get(&header, &bytes, "status") {
        FieldValue::Mask(m) => status.from_mask(m),
        other => panic!("expected a mask, got {other:?}"),
    };
    assert_eq!(status.variants[decoded.variant].name, "Paused");
    assert_eq!(decoded.value, None);
    assert_eq!(uint(&header, &bytes, "flag"), 6);
}

/// The bits `offset..offset + size`, most significant first.
fn extract_bits(bytes: &[u8], bit_offset: usize, size: usize) -> u128 {
    let mut val: u128 = 0;
    for index in 0..size {
        let abs = bit_offset + index;
        let byte = bytes[abs / 8];
        let bit = (byte >> (7 - (abs % 8))) & 1;
        val = (val << 1) | u128::from(bit);
    }
    val
}

#[test]
fn getters_read_the_field_bits() {
    let s = build(
        "Mixed",
        32,
        vec![
            field(0, 0, 1, "flag"),
            field(0, 1, 4, "aligned_nibble"),
            field(0, 5, 11, "cross_byte"),
            field(2, 0, 8, "aligned_byte"),
            field(3, 0, 4, "tail_nibble"),
            field(3, 4, 4, "tail_subnibble"),
        ],
    );
    for seed in [[0u8; 4], [0xFF; 4], [0x12, 0x34, 0x56, 0x78], [0xA5, 0x5A, 0xC3, 0x3C], [0x80, 0x01, 0x7F, 0xFE]] {
        let b = s.from_array(&seed);
        assert_eq!(get(&s, &b, "flag"), FieldValue::Bool(extract_bits(&seed, 0, 1) == 1));
        assert_eq!(uint(&s, &b, "aligned_nibble"), extract_bits(&seed, 1, 4));
        assert_eq!(uint(&s, &b, "cross_byte"), extract_bits(&seed, 5, 11));
        assert_eq!(uint(&s, &b, "aligned_byte"), extract_bits(&seed, 16, 8));
        assert_eq!(uint(&s, &b, "tail_nibble"), extract_bits(&seed, 24, 4));
        assert_eq!(uint(&s, &b, "tail_subnibble"), extract_bits(&seed, 28, 4));
    }
}

#[test]
fn aligned_fields_of_a_written_type_are_their_bytes() {
    let s = build("Outer", 64, vec![typed(0, 0, 64, "field", "Inner")]);
    let seed = [1u8, 2, 3, 4, 5, 6, 7, 8];
    let b = s.from_array(&seed);
    assert_eq!(get(&s, &b, "field"), FieldValue::Bytes(seed.to_vec()));
}

#[test]
fn struct_from_mask_keeps_the_low_bytes() {
    let s = build("Short", 12, vec![field(0, 0, 12, "low")]);
    assert_eq!(s.from_mask(0xABCD), vec![0xAB, 0xCD]);
    let b = s.from_array(&[0xAB, 0xCD]);
    assert_eq!(uint(&s, &b, "low"), 0xABC);
}

#[test]
fn widened_read_when_the_window_reaches_the_mask() {
    // a 20-bit field at bit 12 touches three bytes, read through a 32-bit
    // mask; the window widens to the four bytes that end with them
    let s = build("Wide", 48, vec![field(1, 4, 20, "x")]);
    let f = &s.fields[0];
    assert_eq!(f.layout.read_offset_bytes, 0);
    assert_eq!(f.layout.read_bytes, 4);
    assert_eq!(f.layout.shr, 0);
    let bytes = [0xFF, 0xF1, 0x23, 0x45, 0xFF, 0xFF];
    assert_eq!(uint(&s, &bytes, "x"), 0x12345);
}

#[test]
fn readme_payload_is_read_from_its_own_bits() {
    // `1.0;20 pub(crate) payload` of `Header: u36`
    let s = build("Header", 36, vec![field(1, 0, 20, "payload")]);
    let f = &s.fields[0];
    assert_eq!((f.layout.read_offset_bytes, f.layout.read_bytes, f.layout.shr), (0, 4, 4));
    assert_eq!(uint(&s, &[0, 0, 0, 0, 0x10], "payload"), 0);
    let bytes = [0xAA, 0x12, 0x34, 0x5F, 0xFF];
    assert_eq!(uint(&s, &bytes, "payload"), extract_bits(&bytes, 8, 20));
    assert_eq!(uint(&s, &bytes, "payload"), 0x12345);
}

#[test]
fn from_mask_of_the_bytes_gives_them_back() {
    let s = build("Three", 24, vec![field(0, 0, 24, "all")]);
    let bytes = [0x12u8, 0x34, 0x56];
    let mut wide = [0u8; 16];
    wide[13..].copy_from_slice(&bytes);
    assert_eq!(s.from_mask(u128::from_be_bytes(wide)), bytes.to_vec());
}

#[test]
fn unaligned_wide_written_type_has_no_getter() {
    let s = build("HugePacket", 257, vec![typed(0, 1, 256, "huge_field", "LargeData")]);
    let bytes = [0u8; 33];
    assert_eq!(get(&s, &bytes, "huge_field"), FieldValue::Unsupported);
    assert!(s.mask.is_none());
}

#[test]
fn written_types_must_match_the_field_width() {
    let s = build("Outer", 16, vec![typed(0, 0, 8, "inner", "Inner"), field(1, 0, 8, "plain")]);
    assert!(s.fields[0].size_matches(8));
    assert!(!s.fields[0].size_matches(16));
    // fields of no written type are not checked
    assert!(s.fields[1].size_matches(3));
}

/// The tokens as text, one space after each.
fn text(tokens: &[Token]) -> String {
    let mut out = String::new();
    for t in tokens {
        match t {
            Token::Ident(i) => out.push_str(i),
            Token::Punct(c) => out.push(*c),
            Token::Literal(l) => out.push_str(&String::from_utf8_lossy(l)),
            Token::Group(d, inner) => {
                let (open, close) = match d {
                    Delimiter::Parenthesis => ('(', ')'),
                    Delimiter::Brace => ('{', '}'),
                    Delimiter::Bracket => ('[', ']'),
                    Delimiter::Invisible => (' ', ' '),
                };
                out.push(open);
                out.push(' ');
                out.push_str(&text(inner));
                out.push(close);
            }
        }
        out.push(' ');
    }
    out
}

#[test]
fn getter_tokens_of_an_unaligned_nibble() {
    // `0.1;04 aligned_nibble`: bits 1..5 of byte 0, shift 3, keep 4 bits
    let s = build("Mixed", 32, vec![field(0, 1, 4, "aligned_nibble")]);
    let f = &s.fields[0];
    assert_eq!(
        text(&f.layout.quote_read(&f.ty, f.builtin)),
        "let from = self . 0 . split_at ( 0usize ) . 1 . split_at ( 1usize ) . 0 ; \
         let mut buffer = [ 0u8 ; 1 ] ; let into = buffer . split_at_mut ( 1 - 1usize ) . 1 ; \
         : : bitx : : copy ( into , from ) ; \
         let mut val = < : : core : : primitive : : u8 > : : from_be_bytes ( buffer ) ; \
         val > > = 3 ; val & = < : : core : : primitive : : u8 > : : MAX > > ( 8 - 4 ) ; \
         val as : : core : : primitive : : u8 "
    );
}

#[test]
fn getter_tokens_of_the_readme_payload() {
    let s = build("Header", 36, vec![field(1, 0, 20, "payload")]);
    let f = &s.fields[0];
    let body = text(&f.layout.quote_read(&f.ty, f.builtin));
    assert!(body.starts_with("let from = self . 0 . split_at ( 0usize ) . 1 . split_at ( 4usize ) . 0 ; "));
    assert!(body.contains("val > > = 4 ;"));
    assert!(body.contains("MAX > > ( 32 - 20 ) ;"));
}

#[test]
fn getter_tokens_of_aligned_fields() {
    let s = build("S", 48, vec![field(0, 0, 24, "wide"), typed(3, 0, 16, "inner", "Inner")]);
    let wide = &s.fields[0];
    let body = text(&wide.layout.quote_read(&wide.ty, wide.builtin));
    assert!(body.contains("let mut buffer = [ 0u8 ; 4 ] ;"));
    assert!(body.ends_with("< : : core : : primitive : : u32 > : : from_be_bytes ( buffer ) "));
    let inner = &s.fields[1];
    assert_eq!(
        text(&inner.layout.quote_read(&inner.ty, inner.builtin)),
        "let from = self . 0 . split_at ( 3usize ) . 1 . split_at ( 2usize ) . 0 ; < Inner > : : from_slice ( from ) "
    );
}

#[test]
fn getter_return_types() {
    let s = build(
        "S",
        48,
        vec![field(0, 0, 24, "wide"), typed(3, 0, 16, "inner", "Inner"), field(5, 0, 1, "flag")],
    );
    let ret = |i: usize| text(&s.fields[i].layout.return_type(&s.fields[i].ty, s.fields[i].builtin));
    assert_eq!(ret(0), ": : core : : primitive : : u32 ");
    assert_eq!(
        ret(1),
        ": : core : : option : : Option < < Inner as : : bitx : : Bits > : : Read < ' _ > > "
    );
    assert_eq!(ret(2), ": : core : : primitive : : bool ");
}

#[test]
fn getter_size_checks() {
    let s = build("S", 24, vec![typed(0, 0, 16, "inner", "Inner"), field(2, 0, 8, "plain")]);
    assert_eq!(
        text(&s.fields[0].quote_assert()),
        ": : core : : assert ! ( < Inner as : : bitx : : Bits > : : BITS = = 16 , \
         \"field `inner` has incompatible size with its type\" ) ; "
    );
    // a field of no written type is not checked
    assert!(s.fields[1].quote_assert().is_empty());
}

#[test]
fn struct_item_tokens() {
    let s = build("Header", 36, vec![field(0, 0, 1, "is_active"), field(1, 0, 20, "payload")]);
    let item = text(&s.quote_item());
    assert!(item.starts_with(
        "# [ repr ( C , packed ) ] struct Header ( [ : : core : : primitive : : u8 ; 5 ] ) ; \
         impl : : bitx : : Bits for Header { type Mask = : : core : : primitive : : u64 ; \
         type Read < ' a > = & ' a Header ; const BITS : : : core : : primitive : : u32 = 36 ; }"
    ));
    assert!(item.contains(
        "const fn __from_mask ( mask : : : core : : primitive : : u64 ) - > Self { \
         let bytes = mask . to_be_bytes ( ) ; let from = bytes . split_at ( 8 - 5 ) . 1 ; \
         let mut buf = [ 0u8 ; 5 ] ; : : bitx : : copy ( & mut buf , from ) ; Self ( buf ) }"
    ));
    assert!(item.contains("const fn from_array ( v : [ : : core : : primitive : : u8 ; 5 ] ) - > Self { Self ( v ) }"));
    assert!(item.contains("- > : : core : : option : : Option < & Self > {"));
    assert!(item.contains("# [ inline ] const fn is_active ( & self ) - > : : core : : primitive : : bool {"));
    assert!(item.contains("# [ inline ] const fn payload ( & self ) - > : : core : : primitive : : u32 {"));
}

#[test]
fn wide_struct_item_has_unit_mask() {
    let s = build("Wide", 136, vec![field(0, 0, 8, "first")]);
    let item = text(&s.quote_item());
    assert!(item.contains("type Mask = ( ) ;"));
    assert!(!item.contains("__from_mask"));
}
