use bitx::ast::{Body, Data, Value, Values, Variant};
use bitx::cg::enm::Decoded;
use bitx::hir::Enum;
use bitx::tt::{Delimiter, Token};

fn variant(name: &str, values: &[(u128, u128)]) -> Variant {
    Variant {
        attr: vec![],
        name: name.to_string(),
        values: Values(values.iter().map(|&(start, end)| Value { start, end }).collect()),
    }
}

fn build(name: &str, size: u32, variants: Vec<Variant>) -> Enum {
    match Enum::try_from(Data { attr: vec![], vis: vec![], name: name.to_string(), size, body: Body::Enum(variants) }) {
        Ok(e) => e,
        Err(err) => panic!("enum should be accepted: {err:?}"),
    }
}

/// The variant name and the carried value of a decoded enum.
fn named(e: &Enum, d: Decoded) -> (String, Option<u128>) {
    (e.variants[d.variant].name.clone(), d.value)
}

fn from_array(e: &Enum, bytes: &[u8]) -> (String, Option<u128>) {
    named(e, e.from_array(bytes))
}

fn unit(name: &str) -> (String, Option<u128>) {
    (name.to_string(), None)
}

fn with(name: &str, v: u128) -> (String, Option<u128>) {
    (name.to_string(), Some(v))
}

fn power() -> Enum {
    build(
        "Power",
        2,
        vec![
            variant("Off", &[(0, 0)]),
            variant("Sleep", &[(1, 1)]),
            variant("Standby", &[(2, 2)]),
            variant("On", &[(3, 3)]),
        ],
    )
}

#[test]
fn test_coverage() {
    let e = power();
    assert_eq!(from_array(&e, &[0]), unit("Off"));
    assert_eq!(from_array(&e, &[1]), unit("Sleep"));
    assert_eq!(from_array(&e, &[2]), unit("Standby"));
    assert_eq!(from_array(&e, &[3]), unit("On"));

    // The upper 6 bits are masked out:
    assert_eq!(from_array(&e, &[4]), unit("Off"));
    assert_eq!(from_array(&e, &[5]), unit("Sleep"));
    assert_eq!(from_array(&e, &[6]), unit("Standby"));
    assert_eq!(from_array(&e, &[7]), unit("On"));
}

fn status() -> Enum {
    build(
        "Status",
        3,
        vec![variant("Active", &[(1, 1)]), variant("Paused", &[(2, 2)]), variant("Unknown", &[])],
    )
}

#[test]
fn test_fallback() {
    let e = status();
    assert_eq!(from_array(&e, &[0]), with("Unknown", 0));
    assert_eq!(from_array(&e, &[1]), unit("Active"));
    assert_eq!(from_array(&e, &[2]), unit("Paused"));
    assert_eq!(from_array(&e, &[3]), with("Unknown", 3));
    assert_eq!(from_array(&e, &[7]), with("Unknown", 7));

    // The upper 5 bits are masked out
    assert_eq!(from_array(&e, &[8]), with("Unknown", 0));
    assert_eq!(from_array(&e, &[10]), unit("Paused"));
    assert_eq!(from_array(&e, &[15]), with("Unknown", 7));
}

#[test]
fn test_ranges() {
    // 1..3 | 7 => Active, 4 | 3..=5 => Error, _ => Unknown
    let e = build(
        "State",
        3,
        vec![
            variant("Active", &[(1, 2), (7, 7)]),
            variant("Error", &[(4, 4), (3, 5)]),
            variant("Unknown", &[]),
        ],
    );
    assert_eq!(from_array(&e, &[0]), with("Unknown", 0));
    assert_eq!(from_array(&e, &[1]), with("Active", 1));
    assert_eq!(from_array(&e, &[2]), with("Active", 2));
    assert_eq!(from_array(&e, &[3]), with("Error", 3));
    assert_eq!(from_array(&e, &[4]), with("Error", 4));
    assert_eq!(from_array(&e, &[5]), with("Error", 5));
    assert_eq!(from_array(&e, &[6]), with("Unknown", 6));
    assert_eq!(from_array(&e, &[7]), with("Active", 7));

    // The upper 5 bits are masked out
    assert_eq!(from_array(&e, &[8]), with("Unknown", 0));
    assert_eq!(from_array(&e, &[9]), with("Active", 1));
    assert_eq!(from_array(&e, &[11]), with("Error", 3));
    assert_eq!(from_array(&e, &[14]), with("Unknown", 6));
}

#[test]
fn test_ranges_u128() {
    const BEG: u128 = u128::MAX >> 1;
    const END: u128 = BEG + 1;

    // 0..0x80000000000000000000000000000000 => Beg, _ => End
    let e = build("MaxSize", 128, vec![variant("Beg", &[(0, BEG)]), variant("End", &[])]);

    assert_eq!(from_array(&e, &[0u8; 16]), with("Beg", 0));
    assert_eq!(from_array(&e, &BEG.to_be_bytes()), with("Beg", BEG));
    assert_eq!(from_array(&e, &END.to_be_bytes()), with("End", END));
    assert_eq!(from_array(&e, &[0xFFu8; 16]), with("End", u128::MAX));
}

#[test]
fn test_enum_no_std() {
    let e = build(
        "PowerState",
        2,
        vec![
            variant("Off", &[(0, 0)]),
            variant("Sleep", &[(1, 1)]),
            variant("Standby", &[(2, 2)]),
            variant("On", &[(3, 3)]),
        ],
    );
    assert_eq!(from_array(&e, &[0]), unit("Off"));
    assert_eq!(from_array(&e, &[3]), unit("On"));
    assert_eq!(named(&e, e.from_slice(&[1]).unwrap()), unit("Sleep"));
}

#[test]
fn from_slice_is_none_when_too_short() {
    let e = build("Wide", 12, vec![variant("All", &[])]);
    assert!(e.from_slice(&[0xAB]).is_none());
    assert_eq!(named(&e, e.from_slice(&[0xAB, 0xCD]).unwrap()), with("All", 0xBCD));
}

#[test]
fn from_slice_is_from_array_of_the_first_bytes() {
    // a 24-bit enum reads its three bytes, whatever follows them
    let e = build("Three", 24, vec![variant("All", &[])]);
    assert_eq!(named(&e, e.from_slice(&[1, 2, 3]).unwrap()), with("All", 0x010203));
    assert_eq!(named(&e, e.from_slice(&[1, 2, 3, 4]).unwrap()), with("All", 0x010203));
    assert_eq!(e.from_slice(&[0, 0, 1, 0xFF]).unwrap(), e.from_array(&[0, 0, 1]));
}

#[test]
fn first_matching_arm_wins_with_a_default() {
    let e = build("E", 2, vec![variant("A", &[(0, 2)]), variant("B", &[(2, 3)]), variant("C", &[])]);
    assert_eq!(named(&e, e.from_mask(2)), with("A", 2));
    assert_eq!(named(&e, e.from_mask(3)), with("B", 3));
}

#[test]
fn decoding_is_total_for_accepted_enums() {
    let e = build("E", 4, vec![variant("A", &[(0, 7)]), variant("B", &[(8, 14)]), variant("C", &[(15, 15)])]);
    for x in 0u128..16 {
        let d = e.from_mask(x);
        let v = &e.variants[d.variant].values.0;
        assert!(v.iter().any(|r| r.start <= x && x <= r.end));
    }
}

/// The tokens as text, one space after each.
fn text(tokens: &[Token]) -> String {
    let mut out = String::new();
    for t in tokens {
        match t {
            Token::Ident(i) => out.push_str(i),
            Token::Punct(c) => out.push(*c),
            Token::Literal(l) => out.push_str(&String::from_utf8_lossy(l)),
            Token::Group(d, inner) => {
                let (open, close) = match d {
                    Delimiter::Parenthesis => ('(', ')'),
                    Delimiter::Brace => ('{', '}'),
                    Delimiter::Bracket => ('[', ']'),
                    Delimiter::Invisible => (' ', ' '),
                };
                out.push(open);
                out.push(' ');
                out.push_str(&text(inner));
                out.push(close);
            }
        }
        out.push(' ');
    }
    out
}

#[test]
fn variant_arm_tokens() {
    // `_ => Unknown`: the default binds the raw value
    assert_eq!(text(&variant("Unknown", &[]).quote_arm()), "val = > Self : : Unknown ( val ) ");
    // `1 => Active`: a single value gives a unit arm
    assert_eq!(text(&variant("Active", &[(1, 1)]).quote_arm()), "1 = > Self : : Active ");
    // `1..3 | 7 => Active`: the value matched is kept
    assert_eq!(
        text(&variant("Active", &[(1, 2), (7, 7)]).quote_arm()),
        "val @ ( 1 . . = 2 | 7 ) = > Self : : Active ( val ) "
    );
}

#[test]
fn variant_declaration_tokens() {
    let mask = vec![Token::Ident("u8".to_string())];
    assert_eq!(text(&variant("Active", &[(1, 1)]).quote_def(&mask)), "Active ");
    assert_eq!(text(&variant("Error", &[(2, 2), (6, 7)]).quote_def(&mask)), "Error ( u8 ) ");
    assert_eq!(text(&variant("Unknown", &[]).quote_def(&mask)), "Unknown ( u8 ) ");
}

#[test]
fn enum_item_tokens() {
    // the README's `State: u3`
    let e = build(
        "State",
        3,
        vec![
            variant("Inactive", &[(0, 0)]),
            variant("Active", &[(1, 1)]),
            variant("Error", &[(2, 2), (6, 7)]),
            variant("Unknown", &[]),
        ],
    );
    let item = text(&e.quote_item());
    assert!(item.starts_with(
        "# [ derive ( Debug , Copy , Clone , PartialEq , Eq ) ] # [ repr ( C , u8 ) ] \
         enum State { Inactive , Active , Error ( : : core : : primitive : : u8 ) , \
         Unknown ( : : core : : primitive : : u8 ) } "
    ));
    assert!(item.contains(
        "impl : : bitx : : Bits for State { type Mask = : : core : : primitive : : u8 ; \
         type Read < ' a > = Self ; const BITS : : : core : : primitive : : u32 = 3 ; }"
    ));
    assert!(item.contains(
        "match val & ( : : core : : primitive : : u8 : : MAX > > ( 8 - 3 ) ) { 0 = > Self : : Inactive , \
         1 = > Self : : Active , val @ ( 2 | 6 . . = 7 ) = > Self : : Error ( val ) , \
         val = > Self : : Unknown ( val ) , _ = > unreachable ! ( ) , }"
    ));
    assert!(item.contains(
        "const fn from_array ( val : [ : : core : : primitive : : u8 ; 1 ] ) - > Self { \
         let mut buffer = [ 0u8 ; 1 ] ; buffer . split_at_mut ( 1 - 1 ) . 1 . copy_from_slice ( & val ) ; \
         Self : : __from_mask ( : : core : : primitive : : u8 : : from_be_bytes ( buffer ) ) }"
    ));
    assert!(item.contains(
        "let : : core : : option : : Option : : Some ( ( val , _ ) ) = val . split_at_checked ( 1 ) \
         else { return : : core : : option : : Option : : None ; } ;"
    ));
}
