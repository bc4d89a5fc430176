use envio::date::Date;
use envio::envelope::{decode, encode, identify, push_block, read_block, Scheme};
use envio::error::StoreError;
use envio::payload::{parse, serialize};
use envio::vars::{Env, EnvVec};

fn set_of(pairs: &[(&str, &str)]) -> EnvVec {
    let mut v = EnvVec::new();
    for (k, val) in pairs {
        v.insert(Env::new(k.to_string(), val.to_string(), None, None)).unwrap();
    }
    v
}

#[test]
fn envelope_header_is_bit_exact() {
    let f = encode(Scheme::Passphrase, &[9, 8, 7]);
    assert_eq!(f, vec![b'E', b'N', b'V', b'1', 0x01, 0, 0, 9, 8, 7]);
    let g = encode(Scheme::Recipient, &[]);
    assert_eq!(g, vec![b'E', b'N', b'V', b'1', 0x02, 0, 0]);
}

#[test]
fn envelope_decodes_what_it_encodes() {
    let f = encode(Scheme::Recipient, &[1, 2, 3, 4]);
    assert_eq!(identify(&f), Ok(Scheme::Recipient));
    let (s, body) = decode(&f).unwrap();
    assert_eq!(s, Scheme::Recipient);
    assert_eq!(body, vec![1, 2, 3, 4]);
}

#[test]
fn envelope_rejects_bad_magic_and_truncation() {
    assert_eq!(identify(b"ENV2\x01\0\0"), Err(StoreError::BadEnvelope));
    assert_eq!(identify(b"ENV"), Err(StoreError::BadEnvelope));
    assert_eq!(identify(b""), Err(StoreError::BadEnvelope));
    assert!(matches!(decode(b"ENV1\x01\0"), Err(StoreError::BadEnvelope)));
    assert!(matches!(decode(b"ENV1\x01\0\x05"), Err(StoreError::BadEnvelope)));
}

#[test]
fn envelope_rejects_unknown_scheme() {
    assert_eq!(identify(b"ENV1\x07\0\0"), Err(StoreError::UnsupportedScheme));
    assert!(matches!(decode(b"ENV1\x00\0\0abc"), Err(StoreError::UnsupportedScheme)));
}

#[test]
fn identify_reads_only_the_first_five_bytes() {
    assert_eq!(identify(b"ENV1\x01"), Ok(Scheme::Passphrase));
}

#[test]
fn blocks_are_length_prefixed_big_endian() {
    let mut out = vec![0xaa];
    push_block(&mut out, &[1, 2, 3]);
    assert_eq!(out, vec![0xaa, 0, 0, 0, 3, 1, 2, 3]);
    let (b, rest) = read_block(&[0, 0, 0, 2, 7, 8, 9]).unwrap();
    assert_eq!(b, vec![7, 8]);
    assert_eq!(rest, vec![9]);
    assert!(read_block(&[0, 0, 1, 0, 1]).is_none());
    assert!(read_block(&[0, 0]).is_none());
}

#[test]
fn dates_parse_and_format() {
    let d = Date::parse("2024-02-29").unwrap();
    assert_eq!(d, Date { year: 2024, month: 2, day: 29 });
    assert_eq!(d.to_text(), "2024-02-29");
    assert!(Date::parse("2023-02-29").is_none());
    assert!(Date::parse("2024-13-01").is_none());
    assert!(Date::parse("2024-1-01").is_none());
    assert!(Date::parse("2024/01/01").is_none());
    assert_eq!(Date::from_ymd(7, 3, 4).unwrap().to_text(), "0007-03-04");
    assert!(Date::from_ymd(1900, 2, 29).is_none());
    assert!(Date::from_ymd(2000, 2, 29).is_some());
}

#[test]
fn dates_compare_in_calendar_order() {
    let a = Date::from_ymd(2024, 5, 31).unwrap();
    let b = Date::from_ymd(2024, 6, 1).unwrap();
    assert!(a.is_on_or_before(&b));
    assert!(!b.is_on_or_before(&a));
    assert!(a.is_on_or_before(&a));
}

#[test]
fn variable_set_keeps_insertion_order() {
    let mut v = set_of(&[("B", "1"), ("A", "2"), ("C", "3")]);
    assert_eq!(v.keys(), vec!["B", "A", "C"]);
    assert_eq!(v.get("A"), Some(&"2".to_string()));
    assert!(v.contains("C"));
    assert!(!v.contains("D"));
    assert_eq!(v.get("D"), None);
    v.edit("A", "9".to_string()).unwrap();
    assert_eq!(v.keys(), vec!["B", "A", "C"]);
    assert_eq!(v.get("A"), Some(&"9".to_string()));
    v.remove("B").unwrap();
    assert_eq!(v.keys(), vec!["A", "C"]);
    assert_eq!(v.len(), 2);
}

#[test]
fn variable_set_errors() {
    let mut v = set_of(&[("A", "1")]);
    assert_eq!(v.insert(Env::new("A".to_string(), "2".to_string(), None, None)), Err(StoreError::Duplicate));
    assert_eq!(v.get("A"), Some(&"1".to_string()));
    assert_eq!(v.edit("Z", "1".to_string()), Err(StoreError::Missing));
    assert_eq!(v.remove("Z"), Err(StoreError::Missing));
    assert_eq!(v.len(), 1);
}

#[test]
fn insert_then_remove_leaves_serialization_unchanged() {
    let mut v = set_of(&[("A", "1"), ("B", "two")]);
    let before = serialize(&v).unwrap();
    v.insert(Env::new("K".to_string(), "v".to_string(), Some("c".to_string()), None)).unwrap();
    assert_ne!(serialize(&v).unwrap(), before);
    v.remove("K").unwrap();
    assert_eq!(serialize(&v).unwrap(), before);
}

#[test]
fn payload_text_format() {
    let mut v = EnvVec::new();
    v.insert(Env::new(
        "DB".to_string(),
        "postgres://x".to_string(),
        Some("main db".to_string()),
        Some(Date::from_ymd(2025, 1, 9).unwrap()),
    ))
    .unwrap();
    v.insert(Env::new("EMPTY".to_string(), String::new(), None, None)).unwrap();
    v.insert(Env::new("X".to_string(), "y".to_string(), None, Some(Date::from_ymd(2030, 12, 31).unwrap())))
        .unwrap();
    let text = serialize(&v).unwrap();
    assert_eq!(
        text,
        "DB=postgres://x\n# comment: main db\n# expires: 2025-01-09\nEMPTY=\nX=y\n# expires: 2030-12-31\n"
    );
    let back = parse(&text).unwrap();
    assert_eq!(back.keys(), vec!["DB", "EMPTY", "X"]);
    let e = &back.entries()[0];
    assert_eq!(e.value, "postgres://x");
    assert_eq!(e.comment.as_deref(), Some("main db"));
    assert_eq!(e.expiration_date, Some(Date { year: 2025, month: 1, day: 9 }));
    assert_eq!(back.entries()[1].value, "");
    assert_eq!(back.entries()[2].comment, None);
    assert_eq!(serialize(&back).unwrap(), text);
}

#[test]
fn serialize_rejects_unrepresentable_values() {
    assert_eq!(serialize(&set_of(&[("A", "x=y")])), Err(StoreError::InvalidValue));
    assert_eq!(serialize(&set_of(&[("A", "x\ny")])), Err(StoreError::InvalidValue));
    assert_eq!(serialize(&set_of(&[("A", " lead")])), Err(StoreError::InvalidValue));
    assert_eq!(serialize(&set_of(&[("", "v")])), Err(StoreError::InvalidValue));
    assert_eq!(serialize(&set_of(&[("#A", "v")])), Err(StoreError::InvalidValue));
    assert_eq!(serialize(&set_of(&[("A=B", "v")])), Err(StoreError::InvalidValue));
    let mut v = EnvVec::new();
    v.insert(Env::new("A".to_string(), "v".to_string(), Some("two\nlines".to_string()), None)).unwrap();
    assert_eq!(serialize(&v), Err(StoreError::InvalidValue));
    assert_eq!(serialize(&set_of(&[("A", "trailing ")])).unwrap(), "A=trailing \n");
}

#[test]
fn parse_rejects_text_that_no_set_produces() {
    assert!(matches!(parse("A=1"), Err(StoreError::Corrupt)));
    assert!(matches!(parse("A\n"), Err(StoreError::Corrupt)));
    assert!(matches!(parse("A=1\nA=2\n"), Err(StoreError::Corrupt)));
    assert!(matches!(parse("# comment: x\n"), Err(StoreError::Corrupt)));
    assert!(matches!(parse("A=1\n# expires: 2024-02-30\n"), Err(StoreError::Corrupt)));
    assert!(matches!(parse("A=1\n# expires: 2024-01-01\n# comment: late\n"), Err(StoreError::Corrupt)));
    assert!(matches!(parse("A=1\n\n"), Err(StoreError::Corrupt)));
    assert_eq!(parse("").unwrap().len(), 0);
}

#[test]
fn parse_handles_unicode() {
    let v = parse("GRÜSSE=héllo wörld ✓\n").unwrap();
    assert_eq!(v.get("GRÜSSE"), Some(&"héllo wörld ✓".to_string()));
}

#[test]
fn serialize_rejects_unicode_leading_whitespace() {
    for lead in ["\u{A0}x", "\u{3000}x", "\u{2028}x", "\u{85}x", "\u{1680}x", "\u{2009}x", "\tx"] {
        assert_eq!(serialize(&set_of(&[("A", lead)])), Err(StoreError::InvalidValue), "{:?}", lead);
    }
    assert_eq!(serialize(&set_of(&[("A", "x\u{A0}")])).unwrap(), "A=x\u{A0}\n");
}
