use bitx::cg::layout::FieldValue;
use bitx::data::{
    BitsImpl, Body, Data, DataError, Decl, MaskArm, RawBody, RawField, Variant,
};
use bitx::field::{Field, FieldError, RetTy, Type, WrittenType};
use bitx::off::Offset;
use bitx::tt::{Delimiter, Token};

fn uint(n: &str) -> WrittenType {
    WrittenType { ident: Some(n.as_bytes().to_vec()), text: n.to_string() }
}

fn named(n: &str) -> WrittenType {
    WrittenType { ident: Some(n.as_bytes().to_vec()), text: n.to_string() }
}

fn off(byte: usize, bit: usize) -> Offset {
    Offset { byte, bit }
}

fn var(name: &str, value: Option<u128>) -> Variant {
    Variant { name: name.to_string(), value }
}

fn raw(byte: usize, bit: usize, name: &str, ty: WrittenType) -> RawField {
    RawField { offset: off(byte, bit), name: name.to_string(), ty }
}

fn enum_data(bits: usize, vs: Vec<Variant>) -> Result<Data, DataError> {
    Data::parse("E".to_string(), Offset::from_bits(bits), RawBody::Enum(vs))
}

#[test]
fn type_parse_literal_and_named() {
    match Type::parse(uint("u4"), off(0, 4), off(1, 0)) {
        Ok(Type::Literal { bits, mask_bits }) => {
            assert_eq!(bits, 4);
            assert_eq!(mask_bits, 8);
        }
        other => panic!("unexpected {:?}", other),
    }
    // 12 bits starting at bit 6 end at bit 18: three bytes, a 32-bit mask.
    match Type::parse(uint("u12"), off(0, 6), off(4, 0)) {
        Ok(Type::Literal { bits, mask_bits }) => {
            assert_eq!(bits, 12);
            assert_eq!(mask_bits, 32);
        }
        other => panic!("unexpected {:?}", other),
    }
    assert!(matches!(Type::parse(named("Flags"), off(2, 0), off(4, 0)), Ok(Type::Aligned(t)) if t == "Flags"));
    assert!(matches!(Type::parse(named("Flags"), off(2, 3), off(4, 0)), Ok(Type::Unaligned(t)) if t == "Flags"));
    // `u0` is not a width, so it names a type.
    assert!(matches!(Type::parse(uint("u0"), off(1, 0), off(4, 0)), Ok(Type::Aligned(_))));
}

#[test]
fn type_parse_errors() {
    assert_eq!(Type::parse(uint("u9"), off(0, 0), off(1, 0)).unwrap_err(), FieldError::ExceedsBounds);
    assert_eq!(Type::parse(uint("u8"), off(16, 1), off(40, 0)).unwrap_err(), FieldError::TooLarge);
    assert!(Type::parse(uint("u8"), off(15, 0), off(40, 0)).is_ok());
}

#[test]
fn ret_ty_by_width() {
    assert_eq!(Type::Literal { bits: 1, mask_bits: 8 }.ret_ty(), RetTy::Bool);
    assert_eq!(Type::Literal { bits: 3, mask_bits: 16 }.ret_ty(), RetTy::Uint(16));
    assert_eq!(Type::Aligned("T".to_string()).ret_ty(), RetTy::Named("T".to_string()));
}

#[test]
fn reader_reads_msb_first() {
    let data = [0b1010_1100u8, 0b0101_0011, 0xFF];
    // bit 0 is the top bit of byte 0
    let t = Type::Literal { bits: 1, mask_bits: 8 };
    assert_eq!(t.reader(off(0, 0), &data, 0), FieldValue::Bool(true));
    assert_eq!(t.reader(off(0, 1), &data, 0), FieldValue::Bool(false));
    // bits 4..12: 1100 0101
    let t = Type::Literal { bits: 8, mask_bits: 16 };
    assert_eq!(t.reader(off(0, 4), &data, 0), FieldValue::Uint(0b1100_0101));
    // an aligned named type of 16 bits hands its bytes on
    let t = Type::Aligned("T".to_string());
    assert_eq!(t.reader(off(1, 0), &data, 16), FieldValue::Bytes(vec![0b0101_0011, 0xFF]));
    // an unaligned one of 5 bits at bit 2: 10110
    let t = Type::Unaligned("T".to_string());
    assert_eq!(t.reader(off(0, 2), &data, 5), FieldValue::Mask(0b10110));
}

#[test]
fn field_parse_and_checks() {
    assert_eq!(
        Field::parse(off(2, 0), "f".to_string(), uint("u8"), off(2, 0)).unwrap_err(),
        FieldError::OffsetExceeds
    );
    let f = Field::parse(off(1, 0), "f".to_string(), named("Inner"), off(3, 0)).unwrap();
    assert_eq!(f.max_nested_bits(off(3, 0)), Some(16));
    let g = Field::parse(off(0, 0), "g".to_string(), uint("u4"), off(3, 0)).unwrap();
    assert_eq!(g.max_nested_bits(off(3, 0)), None);
}

#[test]
fn enum_parse_errors() {
    assert_eq!(enum_data(129, vec![var("A", None)]).unwrap_err(), DataError::EnumTooLarge);
    assert_eq!(enum_data(2, vec![]).unwrap_err(), DataError::ZeroVariants);
    assert_eq!(
        enum_data(2, vec![var("A", Some(0)), var("B", Some(4))]).unwrap_err(),
        DataError::ValueExceeds { variant: 1 }
    );
    assert_eq!(
        enum_data(2, vec![var("A", None), var("B", Some(1)), var("C", None)]).unwrap_err(),
        DataError::DuplicateDefault { variant: 2 }
    );
    // five variants cannot be told apart in two bits
    assert_eq!(
        enum_data(2, vec![var("A", Some(0)), var("B", Some(1)), var("C", Some(2)), var("D", Some(3)), var("E", None)])
            .unwrap_err(),
        DataError::Overstuffed
    );
    // three values of two bits, and no default
    assert_eq!(
        enum_data(2, vec![var("A", Some(0)), var("B", Some(1)), var("C", Some(2))]).unwrap_err(),
        DataError::Uncovered
    );
}

#[test]
fn enum_parse_sealed_and_open() {
    let d = enum_data(1, vec![var("Off", Some(0)), var("On", Some(1))]).unwrap();
    assert!(matches!(d.body, Body::Enum { sealed: true, .. }));
    let d = enum_data(4, vec![var("A", Some(3)), var("Rest", None)]).unwrap();
    assert!(matches!(d.body, Body::Enum { sealed: false, .. }));
}

#[test]
fn enum_generated_code() {
    let d = enum_data(12, vec![var("A", Some(0x123)), var("B", Some(0xABC)), var("Rest", None)]).unwrap();
    assert_eq!(d.stub_decl(), Decl::Enum { repr_bits: 16 });
    assert_eq!(d.stub_gen_mask(), BitsImpl { bits: 12, mask_bits: Some(16) });
    assert_eq!(d.variant_of_mask(0xABC), 1);
    assert_eq!(d.variant_of_mask(0x7), 2);
    // the first two bytes, cut to 12 bits
    assert_eq!(d.enum_from_slice(&[0xF1, 0x23, 0x99]), Some(0));
    assert_eq!(d.enum_from_slice(&[0x0A, 0xBC]), Some(1));
    assert_eq!(d.enum_from_slice(&[0x0A]), None);
    assert_eq!(d.enum_from_array(&[0x00, 0x01]), 2);
    assert!(d.stub_fields().is_empty());
    // three bytes round up to a four-byte repr
    let d = enum_data(20, vec![var("Any", None)]).unwrap();
    assert_eq!(d.stub_decl(), Decl::Enum { repr_bits: 32 });
}

#[test]
fn sealed_enum_takes_every_value() {
    let d = enum_data(2, vec![var("A", Some(3)), var("B", Some(0)), var("C", Some(2)), var("D", Some(1))]).unwrap();
    for x in 0u8..4 {
        let i = d.enum_from_slice(&[x]).unwrap();
        match &d.body {
            Body::Enum { variants, .. } => assert_eq!(variants[i].value, Some(x as u128)),
            Body::Struct(_) => panic!("an enum"),
        }
    }
}

#[test]
fn struct_parse_and_generated_code() {
    let d = Data::parse(
        "S".to_string(),
        off(3, 0),
        RawBody::Struct(vec![
            raw(0, 0, "flag", uint("u1")),
            raw(0, 1, "kind", named("Kind")),
            raw(1, 0, "len", uint("u16")),
        ]),
    )
    .unwrap();
    match &d.body {
        Body::Struct(fs) => {
            assert_eq!(fs.len(), 3);
            assert!(matches!(fs[0].ty, Type::Literal { bits: 1, mask_bits: 8 }));
            assert!(matches!(&fs[1].ty, Type::Unaligned(t) if t == "Kind"));
            assert!(matches!(fs[2].ty, Type::Literal { bits: 16, mask_bits: 32 }));
        }
        Body::Enum { .. } => panic!("a struct"),
    }
    assert_eq!(d.stub_decl(), Decl::Struct { bytes: 3 });
    assert_eq!(d.stub_gen_mask(), BitsImpl { bits: 24, mask_bits: Some(32) });
    assert_eq!(d.stub_fields(), vec![None, Some(23), None]);
    assert_eq!(d.struct_from_mask(0x1122_3344), vec![0x22, 0x33, 0x44]);
    assert_eq!(d.struct_from_slice(&[1, 2, 3, 4]), Some(vec![1, 2, 3]));
    assert_eq!(d.struct_from_slice(&[1, 2]), None);
}

#[test]
fn struct_parse_reports_first_bad_field() {
    let r = Data::parse(
        "S".to_string(),
        off(2, 0),
        RawBody::Struct(vec![raw(0, 0, "a", uint("u8")), raw(1, 4, "b", uint("u8")), raw(3, 0, "c", uint("u1"))]),
    );
    assert_eq!(r.unwrap_err(), DataError::Field { field: 1, error: FieldError::ExceedsBounds });
    let r = Data::parse("S".to_string(), off(2, 0), RawBody::Struct(vec![raw(2, 0, "a", uint("u1"))]));
    assert_eq!(r.unwrap_err(), DataError::Field { field: 0, error: FieldError::OffsetExceeds });
}

#[test]
fn wide_struct_has_no_mask() {
    let d = Data::parse("S".to_string(), off(17, 0), RawBody::Struct(vec![raw(0, 0, "a", uint("u8"))])).unwrap();
    assert_eq!(d.stub_gen_mask(), BitsImpl { bits: 136, mask_bits: None });
    assert_eq!(d.stub_decl(), Decl::Struct { bytes: 17 });
}

/// The tokens as text, one space after each.
fn text(tokens: &[Token]) -> String {
    let mut out = String::new();
    for t in tokens {
        match t {
            Token::Ident(i) => out.push_str(i),
            Token::Punct(c) => out.push(*c),
            Token::Literal(l) => out.push_str(&String::from_utf8_lossy(l)),
            Token::Group(d, inner) => {
                let (open, close) = match d {
                    Delimiter::Parenthesis => ('(', ')'),
                    Delimiter::Brace => ('{', '}'),
                    Delimiter::Bracket => ('[', ']'),
                    Delimiter::Invisible => (' ', ' '),
                };
                out.push(open);
                out.push(' ');
                out.push_str(&text(inner));
                out.push(close);
            }
        }
        out.push(' ');
    }
    out
}

#[test]
fn reader_tokens_of_a_nibble() {
    // `0.1 nibble: u4`: bits 1..5 of byte 0, through a `u8`: shift 3, keep 4 bits
    let t = Type::Literal { bits: 4, mask_bits: 8 };
    assert_eq!(
        text(&t.quote_reader(off(0, 1), &vec![])),
        "let mut val = { let from = self . 0 . split_at ( 0usize ) . 1 . split_at ( 1usize ) . 0 ; \
         let mut buffer = [ 0u8 ; 1usize ] ; buffer . split_at_mut ( 1usize - 1usize ) . 1 . \
         copy_from_slice ( from ) ; < : : core : : primitive : : u8 > : : from_be_bytes ( buffer ) } ; \
         val > > = 3 ; val & = : : core : : primitive : : u8 : : MAX > > 4 ; val "
    );
}

#[test]
fn reader_tokens_of_a_flag() {
    // `2.7 flag: u1`: the last bit of byte 2, read through the `u32` mask
    let t = Type::Literal { bits: 1, mask_bits: 32 };
    let body = text(&t.quote_reader(off(2, 7), &vec![]));
    assert!(body.contains("split_at ( 2usize ) . 1 . split_at ( 1usize )"));
    assert!(body.contains("[ 0u8 ; 4usize ]"));
    assert!(body.contains("val > > = 0 ;"));
    assert!(body.contains("u32 : : MAX > > 31 ;"));
    assert!(body.ends_with("val = = 1 "));
}

#[test]
fn reader_tokens_of_written_types() {
    let ty = vec![Token::Ident("Inner".to_string())];
    let aligned = text(&Type::Aligned("Inner".to_string()).quote_reader(off(3, 0), &ty));
    assert!(aligned.starts_with("type Mask = < Inner as : : bitx : : Bits > : : Mask ; "));
    assert!(aligned.contains("const SIZE : : : core : : primitive : : usize = ( 0 + BITS as"));
    assert!(aligned.contains(
        "assert ! ( BITS % 8 = = 0 | | SIZE < = 16 , \"unaligned nested types cannot exceed 128 bits\" , ) ;"
    ));
    assert!(aligned.contains(
        "if BITS % 8 = = 0 { let from = self . 0 . split_at ( 3usize ) . 1 . split_at ( SIZE ) . 0 ;"
    ));
    assert!(aligned.contains("Inner : : from_array ( buf ) } else {"));
    assert!(aligned.ends_with("Inner : : __from_mask ( val ) } "));

    let unaligned = text(&Type::Unaligned("Inner".to_string()).quote_reader(off(1, 5), &ty));
    assert!(unaligned.contains(
        "assert ! ( SIZE < = 16 , \"unaligned nested types cannot exceed 128 bits\" ) ;"
    ));
    assert!(unaligned.contains("[ 0u8 ; 16usize ]"));
    assert!(unaligned.contains(
        "val > > = ( SIZE as : : core : : primitive : : u32 * 8 ) - ( 5 + BITS ) ;"
    ));
    assert!(unaligned.ends_with("let val = ( val as Mask ) & MASK ; Inner : : __from_mask ( val ) "));
}

#[test]
fn mask_arms_end_unreachable_when_sealed() {
    let d = enum_data(1, vec![var("Off", Some(0)), var("On", Some(1))]).unwrap();
    assert_eq!(
        d.stub_gen_arms(),
        vec![
            MaskArm::Value { value: 0, variant: 0 },
            MaskArm::Value { value: 1, variant: 1 },
            MaskArm::Unreachable,
        ]
    );
    let d = enum_data(4, vec![var("A", Some(3)), var("Rest", None)]).unwrap();
    assert_eq!(
        d.stub_gen_arms(),
        vec![MaskArm::Value { value: 3, variant: 0 }, MaskArm::Default { variant: 1 }]
    );
}

#[test]
fn struct_from_array_keeps_the_bytes() {
    let d = Data::parse("S".to_string(), off(2, 4), RawBody::Struct(vec![raw(0, 0, "a", uint("u8"))])).unwrap();
    assert_eq!(d.struct_from_array(&[0xAB, 0xCD, 0xEF]), vec![0xAB, 0xCD, 0xEF]);
}
