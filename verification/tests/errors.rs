use bitx::ast::{Body, Data, Field, Value, Values, Variant};
use bitx::error::Error;
use bitx::hir::{Enum, Struct};
use bitx::tt::Layout;

fn variant(name: &str, values: &[(u128, u128)]) -> Variant {
    Variant {
        attr: vec![],
        name: name.to_string(),
        values: Values(values.iter().map(|&(start, end)| Value { start, end }).collect()),
    }
}

fn point(name: &str, v: u128) -> Variant {
    variant(name, &[(v, v)])
}

fn enum_data(size: u32, variants: Vec<Variant>) -> Data {
    Data { attr: vec![], vis: vec![], name: "E".to_string(), size, body: Body::Enum(variants) }
}

#[test]
fn raise_struct_as_enum() {
    let data = Data { attr: vec![], vis: vec![], name: "Foo".to_string(), size: 1, body: Body::Struct(vec![]) };
    assert!(matches!(Enum::try_from(data), Err(Error::Internal)));
}

#[test]
fn full_coverage() {
    let data = enum_data(2, vec![point("A", 0), point("B", 1), point("C", 2), point("D", 3)]);
    let enm = Enum::try_from(data).expect("full coverage should succeed");
    assert_eq!(enm.size, 2);
}

#[test]
fn default_allows_gap() {
    let data = enum_data(4, vec![variant("A", &[(0, 2)]), point("B", 3), variant("Rest", &[])]);
    let _ = Enum::try_from(data).expect("default variant should make the rest implicit");
}

#[test]
fn conflict_default() {
    let data = enum_data(2, vec![point("A", 0), variant("B", &[]), variant("C", &[])]);
    assert!(matches!(Enum::try_from(data), Err(Error::ConflictDefault { variant: 2 })));
}

#[test]
fn zero_variants() {
    let data = enum_data(2, vec![]);
    assert!(matches!(Enum::try_from(data), Err(Error::ZeroVariants)));
}

#[test]
fn too_big() {
    let data = enum_data(129, vec![point("A", 0)]);
    assert!(matches!(Enum::try_from(data), Err(Error::EnumTooLarge)));
}

#[test]
fn overlap_rejected() {
    let data = enum_data(3, vec![variant("A", &[(0, 3)]), variant("B", &[(2, 4)])]);
    match Enum::try_from(data) {
        Err(Error::Overlap { variant, value }) => {
            assert_eq!(variant, 1);
            assert_eq!(value, Value { start: 2, end: 4 });
        }
        other => panic!("expected an overlap, got {other:?}"),
    }
}

#[test]
fn value_exceeds_max() {
    let data = enum_data(2, vec![point("A", 5)]);
    assert!(matches!(Enum::try_from(data), Err(Error::ExceedsMax { variant: 0, max: 3 })));
}

#[test]
fn range_exceeds_max() {
    let data = enum_data(2, vec![variant("A", &[(0, 4)])]);
    assert!(matches!(Enum::try_from(data), Err(Error::ExceedsMax { variant: 0, max: 3 })));
}

#[test]
fn coverage_gap_below() {
    let data = enum_data(3, vec![point("A", 2), point("B", 3), point("C", 4)]);
    assert!(matches!(Enum::try_from(data), Err(Error::UncoveredBelow { start: 2 })));
}

#[test]
fn coverage_gap_above() {
    let data = enum_data(3, vec![point("A", 0), point("B", 1), point("C", 2)]);
    assert!(matches!(Enum::try_from(data), Err(Error::UncoveredAbove { start: 3, max: 7 })));
}

#[test]
fn coverage_gap_middle() {
    let data = enum_data(4, vec![variant("A", &[(0, 1)]), variant("B", &[(4, 7)])]);
    match Enum::try_from(data) {
        Err(Error::UncoveredGaps(gaps)) => assert_eq!(gaps.0, vec![Value { start: 2, end: 3 }]),
        other => panic!("expected a gap, got {other:?}"),
    }
}

#[test]
fn zero_width_enum_is_accepted() {
    let data = enum_data(0, vec![point("Only", 0)]);
    assert!(Enum::try_from(data).is_ok());
}

fn field(offset: u32, size: u32, name: &str) -> Field {
    Field { attr: vec![], layout: Layout { offset, size }, vis: vec![], name: name.to_string(), ty: None }
}

fn struct_data(size: u32, fields: Vec<Field>) -> Data {
    Data { attr: vec![], vis: vec![], name: "S".to_string(), size, body: Body::Struct(fields) }
}

#[test]
fn field_exceeds_struct_bounds() {
    let data = struct_data(8, vec![field(0, 1, "flag"), field(1, 16, "too_large")]);
    match Struct::try_from(data) {
        Err(Error::FieldExceeds { name }) => assert_eq!(name, "too_large"),
        other => panic!("expected a bounds error, got {other:?}"),
    }
}

#[test]
fn zero_size_and_too_large_fields() {
    match Struct::try_from(struct_data(8, vec![field(0, 0, "nothing")])) {
        Err(Error::ZeroSizeField { name }) => assert_eq!(name, "nothing"),
        other => panic!("expected a zero-size error, got {other:?}"),
    }
    match Struct::try_from(struct_data(256, vec![field(0, 129, "huge")])) {
        Err(Error::FieldTooLarge { name }) => assert_eq!(name, "huge"),
        other => panic!("expected a size error, got {other:?}"),
    }
}

#[test]
fn enum_as_struct_is_internal() {
    assert!(matches!(Struct::try_from(enum_data(2, vec![point("A", 0)])), Err(Error::Internal)));
}
