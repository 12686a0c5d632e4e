use bitx::ast::{Value, Values};
use bitx::tt::{Delimiter, ParseError, Token};
use bitx::hir::value::write_value;
use bitx::hir::value::Values as Checked;

const MIN: Value = Value { start: 0, end: 0 };

const MID: Value = Value { start: 1, end: u128::MAX - 1 };

const MAX: Value = Value { start: u128::MAX, end: u128::MAX };

const FULL: Value = Value { start: 0, end: u128::MAX };

#[test]
fn test_adjoin() {
    assert!(MIN.adjoin(&MID));
    assert!(MID.adjoin(&MAX));
    assert!(!MIN.adjoin(&MAX));
}

#[test]
fn test_overlap() {
    assert!(!MIN.overlap(&MID));
    assert!(!MID.overlap(&MAX));
    assert!(!MIN.overlap(&MAX));

    assert!(FULL.overlap(&MIN));
    assert!(FULL.overlap(&MID));
    assert!(FULL.overlap(&MAX));
}

#[test]
fn test_merge() {
    let mut buf = MIN;
    buf.merge(&MAX);
    assert_eq!(buf, FULL);

    let mut buf = MID;
    buf.merge(&FULL);
    assert_eq!(buf, FULL);
}

#[test]
fn test_from_trivials() {
    let unit = Value { start: 1, end: 1 };

    assert_eq!(Values::from(vec![]).0, vec![]);
    assert_eq!(Values::from(vec![unit]).0, vec![unit]);
}

fn v(start: u128, end: u128) -> Value {
    Value { start, end }
}

#[test]
fn values_from_sorts_and_merges_adjoining() {
    let merged = Values::from(vec![v(4, 5), v(1, 1), v(3, 3), v(2, 2), v(9, 9)]);
    assert_eq!(merged.0, vec![v(1, 5), v(9, 9)]);
}

#[test]
fn values_from_keeps_the_covered_set() {
    let raw = vec![v(10, 20), v(0, 3), v(15, 30), v(5, 5)];
    let merged = Values::from(raw.clone());
    for x in 0u128..40 {
        let before = raw.iter().any(|r| r.start <= x && x <= r.end);
        let after = merged.0.iter().any(|r| r.start <= x && x <= r.end);
        assert_eq!(before, after, "value {x}");
    }
    assert_eq!(merged.0, vec![v(0, 3), v(5, 5), v(10, 30)]);
}

#[test]
fn values_point_and_empty() {
    let empty = Values(vec![]);
    assert!(empty.is_empty());
    assert_eq!(empty.bounds(), Ok(v(0, u128::MAX)));
    let single = Values(vec![v(1, 1)]);
    assert!(single.is_point());
    assert_eq!(single.point(), Some(1));
    assert_eq!(single.bounds(), Ok(v(1, 1)));
    let multi = Values(vec![v(1, 1), v(2, 2)]);
    assert_eq!(multi.point(), None);
    assert_eq!(multi.bounds(), Ok(v(1, 2)));
    let iter: Vec<Value> = multi.iter().to_vec();
    assert_eq!(iter, vec![v(1, 1), v(2, 2)]);
}

#[test]
fn values_bounds_reports_gaps() {
    let gaps = Values(vec![v(1, 1), v(3, 3), v(4, 4)]);
    assert_eq!(gaps.bounds(), Err(vec![v(2, 2)]));
    let two = Values(vec![v(10, 12), v(0, 1), v(20, 20)]);
    assert_eq!(two.bounds(), Err(vec![v(2, 9), v(13, 19)]));
}

#[test]
fn no_overlap_accepts_disjoint_and_refuses_shared_values() {
    assert!(Values::no_overlap(vec![v(1, 1)]).is_ok());
    assert_eq!(Values::no_overlap(vec![v(3, 4), v(1, 1)]).unwrap().0, vec![v(1, 1), v(3, 4)]);
    assert_eq!(Values::no_overlap(vec![v(1, 2), v(3, 4)]).unwrap().0, vec![v(1, 4)]);
    assert_eq!(Values::no_overlap(vec![v(1, 1), v(1, 1)]), Err(v(1, 1)));
    assert_eq!(Values::no_overlap(vec![v(2, 4), v(0, 3)]), Err(v(2, 4)));
    assert_eq!(Values::no_overlap(vec![v(0, 10), v(20, 30), v(5, 6)]), Err(v(5, 6)));
}

#[test]
fn adjoin_saturates_at_the_top() {
    assert!(v(0, u128::MAX).adjoin(&v(u128::MAX, u128::MAX)));
    assert!(v(5, 6).adjoin(&v(7, 9)));
    assert!(!v(5, 6).adjoin(&v(8, 9)));
    assert!(v(7, 9).adjoin(&v(5, 6)));
}

#[test]
fn value_text_forms() {
    assert_eq!(v(1, 1).to_string(), "0x1");
    assert_eq!(v(0xAB, u128::MAX).to_string(), "0xAB..");
    assert_eq!(v(0, 0x1F).to_string(), "..=0x1F");
    assert_eq!(v(1, 2).to_string(), "0x1..=0x2");
    assert_eq!(MIN.to_string(), "0x0");
    assert_eq!(FULL.to_string(), "0x0..");
    // both ends padded to a quarter of the larger ilog2, "0x" included
    assert_eq!(v(1, 0x10000).to_string(), "0x01..=0x10000");
    assert_eq!(v(0x10, 0x12345).to_string(), "0x10..=0x12345");
}

#[test]
fn values_text_forms() {
    assert_eq!(Values::from(vec![]).to_string(), "_");
    assert_eq!(Values::from(vec![v(1, 1)]).to_string(), "0x1");
    assert_eq!(Values::from(vec![v(2, 2), v(4, 4)]).to_string(), "0x2 | 0x4");
    assert_eq!(
        Values::from(vec![v(1, 1), v(3, 3), v(5, 5), v(7, 7)]).to_string(),
        "0x1 | 0x3 | 0x5 | ..."
    );
}

#[test]
fn checked_values_text_forms() {
    let mut out = String::new();
    write_value(&v(0, 5), &mut out);
    assert_eq!(out, "..0x0");
    let mut out = String::new();
    write_value(&v(3, 4), &mut out);
    assert_eq!(out, "0x3..0x5");
    let c = Checked::from(vec![v(9, 9), v(1, 1), v(3, 4), v(20, 30)]);
    assert_eq!(c.to_string(), "0x1 | 0x3..0x5 | 0x9 | ...");
    assert_eq!(Checked::from(vec![]).to_string(), "");
}

#[test]
fn values_parse_keeps_the_written_order() {
    let mut rest = toks("_ => Default");
    assert!(Values::parse(&mut rest).unwrap().is_empty());
    assert_eq!(rest.len(), 3);
    let vs = Values::parse(&mut toks("9 | 3..5 | 0x10..=0x1F")).unwrap();
    assert_eq!(vs.iter(), &[v(9, 9), v(3, 4), v(0x10, 0x1F)]);
    assert_eq!(Values::parse(&mut toks("1 | 5..5 | x")).unwrap_err(), ParseError::EmptyRange);
    assert_eq!(Values::parse(&mut toks("1 | x")).unwrap_err(), ParseError::LiteralExpected);
    assert_eq!(Values::parse(&mut toks("1 | 1.5")).unwrap_err(), ParseError::InvalidStart);
}

#[test]
fn values_written_forms() {
    // empty
    let val = Values::parse(&mut toks("_")).unwrap();
    assert!(val.is_empty());
    assert_eq!(val.to_string(), "_");
    assert_eq!(val.bounds(), Ok(Value { start: 0, end: u128::MAX }));
    // single
    let val = Values::parse(&mut toks("1..=1")).unwrap();
    assert_eq!(val.point(), Some(1));
    assert_eq!(val.to_string(), "0x1");
    assert_eq!(val.bounds(), Ok(Value { start: 1, end: 1 }));
    assert!(Values::no_overlap(val.0).is_ok());
    // multi
    let val = Values::parse(&mut toks("1 | 2")).unwrap();
    assert_eq!(val.point(), None);
    assert_eq!(val.to_string(), "0x1 | 0x2");
    assert_eq!(val.bounds(), Ok(Value { start: 1, end: 2 }));
    assert!(Values::no_overlap(val.0).is_ok());
    // gaps
    let val = Values::parse(&mut toks("1 | 3..4 | 4..5")).unwrap();
    assert_eq!(val.bounds(), Err(vec![Value { start: 2, end: 2 }]));
    assert!(Values::no_overlap(val.0).is_ok());
    // overlap
    let val = Values::parse(&mut toks("1 | 1")).unwrap();
    assert!(Values::no_overlap(val.0).is_err());
    // long
    assert_eq!(Values::parse(&mut toks("1 | 2 | 3 | 4")).unwrap().to_string(), "0x1 | 0x2 | 0x3 | ...");
    // iter
    let val = Values::parse(&mut toks("1 | 2")).unwrap();
    let mut iter = val.iter().iter();
    assert_eq!(iter.next(), Some(&Value { start: 1, end: 1 }));
    assert_eq!(iter.next(), Some(&Value { start: 2, end: 2 }));
    assert_eq!(iter.next(), None);
}

/// The tokens of `src`, as the macro receives them.
fn toks(src: &str) -> Vec<Token> {
    let stream: proc_macro2::TokenStream = src.parse().expect("source lexes");
    convert(stream)
}

fn convert(stream: proc_macro2::TokenStream) -> Vec<Token> {
    stream
        .into_iter()
        .map(|tree| match tree {
            proc_macro2::TokenTree::Ident(i) => Token::Ident(i.to_string()),
            proc_macro2::TokenTree::Punct(p) => Token::Punct(p.as_char()),
            proc_macro2::TokenTree::Literal(l) => Token::Literal(l.to_string().into_bytes()),
            proc_macro2::TokenTree::Group(g) => {
                let d = match g.delimiter() {
                    proc_macro2::Delimiter::Parenthesis => Delimiter::Parenthesis,
                    proc_macro2::Delimiter::Brace => Delimiter::Brace,
                    proc_macro2::Delimiter::Bracket => Delimiter::Bracket,
                    proc_macro2::Delimiter::None => Delimiter::Invisible,
                };
                Token::Group(d, convert(g.stream()))
            }
        })
        .collect()
}

#[test]
fn normalizing_twice_changes_nothing() {
    let once = Values::from(vec![v(9, 12), v(1, 2), v(3, 4), v(20, 30), v(13, 13)]);
    assert_eq!(once.iter(), &[v(1, 4), v(9, 13), v(20, 30)]);
    let twice = Values::from(once.iter().to_vec());
    assert_eq!(twice.iter(), once.iter());
}
