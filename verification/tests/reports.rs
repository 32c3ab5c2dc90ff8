//! Error messages, numbers and consistency checks.
use dashmap::DashMap;
use std::sync::Arc;
use stringstore::index::ContentIndex;
use stringstore::validate::{check_entries, find_errors};
use stringstore::{Hex, HexFormat, Integer, StringStoreError};
use xxhash_rust::xxh3::{xxh3_64, Xxh3DefaultBuilder};

#[test]
fn test_error_display() {
    let err = StringStoreError::oob(42, 10);
    assert_eq!(err.to_string(), "index 42 out of bounds (max: 10)");

    let err = StringStoreError::reconstruction(5, 2, 4);
    assert_eq!(err.to_string(), "invalid index 5 at position 2 (max: 4)");

    let err = StringStoreError::InvalidPath("contains null byte".to_string());
    assert_eq!(err.to_string(), "invalid path: contains null byte");
}

#[test]
fn test_error_debug() {
    let err = StringStoreError::StoreFull;
    assert_eq!(format!("{err:?}"), "StoreFull");

    let err = StringStoreError::delimiter("Empty delimiter");
    assert_eq!(format!("{err:?}"), r#"InvalidDelimiter("Empty delimiter")"#);
}

#[test]
fn every_error_has_its_message() {
    assert_eq!(
        StringStoreError::StoreFull.to_string(),
        "string store has reached maximum capacity"
    );
    assert_eq!(
        StringStoreError::ReconstructionTooLarge { requested: 4294967296, max: 4294967295 }
            .to_string(),
        "too many indexes to reconstruct (requested: 4294967296, max: 4294967295)"
    );
    assert_eq!(
        StringStoreError::InvalidUtf8("byte 3".to_string()).to_string(),
        "invalid UTF-8 sequence: byte 3"
    );
    assert_eq!(StringStoreError::path("x").to_string(), "invalid path: x");
    assert_eq!(StringStoreError::delimiter("x").to_string(), "invalid delimiter: x");
    assert_eq!(
        StringStoreError::internal_error(String::from("oops")).to_string(),
        "internal error: oops"
    );
    assert_eq!(
        StringStoreError::oob(u32::MAX, 0).to_string(),
        "index 4294967295 out of bounds (max: 0)"
    );
    assert_eq!(StringStoreError::path("x"), StringStoreError::path("x").clone());
}

#[test]
fn hexadecimal_formats() {
    let upper_prefix = HexFormat(HexFormat::upper().0 | HexFormat::prefix().0);
    assert_eq!(Hex(0xdeadbeef).get(), 0xdeadbeef);
    assert_eq!(Hex(0xdeadbeef).to_string(HexFormat::plain()), "deadbeef");
    assert_eq!(Hex(0xdeadbeef).to_string(HexFormat::upper()), "DEADBEEF");
    assert_eq!(Hex(0xdeadbeef).to_string(HexFormat::prefix()), "0xdeadbeef");
    assert_eq!(Hex(0xdeadbeef).to_string(upper_prefix), "0XDEADBEEF");
    assert_eq!(Hex(0xdeadbeef).to_string(HexFormat::columns()), "dead:beef");
    assert_eq!(Hex(0).to_string(HexFormat::plain()), "0");
    assert_eq!(Hex(u64::MAX).to_string(HexFormat::plain()), "ffffffffffffffff");
    assert_eq!(Hex(0x1234).to_string(HexFormat::columns()), "1234");
    assert_eq!(Hex(0x12345).to_string(HexFormat::columns()), "1234:5");
    assert_eq!(Hex(u64::MAX).to_string(HexFormat::columns()), "ffff:ffff:ffff:ffff");
    assert_eq!(Hex(0xdeadbeef).to_string(HexFormat(0b111)), "0XDE:ADBE:EF");
}

#[test]
fn hexadecimal_format_names() {
    assert_eq!(HexFormat::plain().to_string(), "Plain");
    assert_eq!(HexFormat::upper().to_string(), "Upper");
    assert_eq!(HexFormat(0b110).to_string(), "Prefix|Columns");
    assert_eq!(HexFormat(0b111).to_string(), "Upper|Prefix|Columns");
    assert_eq!(HexFormat(0b1000).to_string(), "");
    let format = HexFormat(0b101);
    assert!(format.is_upper() && !format.is_prefix() && format.is_columns());
}

#[test]
fn hexadecimal_debug_output() {
    assert_eq!(format!("{:?}", Hex(0xdeadbeef)), "Hex(deadbeef)");
    assert_eq!(Hex(0).debug_text(), "Hex(0)");
    assert_eq!(format!("{:?}", HexFormat::plain()), "HexFmt(0: Plain)");
    assert_eq!(format!("{:?}", HexFormat(0b11)), "HexFmt(3: Upper|Prefix)");
    assert_eq!(HexFormat(0b100).debug_text(), "HexFmt(4: Columns)");
}

#[test]
fn integers_as_64_bits() {
    assert_eq!(5u8.as_i64(), 5);
    assert_eq!((-1i8).as_i64(), -1);
    assert_eq!((-1i8).as_u64(), u64::MAX);
    assert_eq!(u64::MAX.as_i64(), -1);
    assert_eq!((i128::MAX - 1).as_i64(), -2);
    assert_eq!((1u128 << 64).as_u64(), 0);
    assert_eq!(usize::MAX.as_u64(), u64::MAX);
    assert_eq!(isize::MIN.as_i64(), i64::MIN);
    assert_eq!((-300i16).as_i64() + 300i32.as_i64() + 7i64.as_i64(), 7);
    assert_eq!(1u16.as_u64() + 2u32.as_u64() + 3u64.as_u64(), 6);
}

fn shared(strings: &[&str]) -> Vec<Arc<String>> {
    strings.iter().map(|s| Arc::new(s.to_string())).collect()
}

fn index_of(entries: &[(u64, u32)]) -> ContentIndex {
    let index: ContentIndex = DashMap::with_hasher(Xxh3DefaultBuilder::new());
    for (key, sid) in entries {
        index.insert(*key, *sid);
    }
    index
}

#[test]
fn agreement_gives_no_errors() {
    let strings = shared(&["one", "two"]);
    let index = index_of(&[(xxh3_64(b"one"), 0), (xxh3_64(b"two"), 1)]);
    assert!(find_errors(&strings, &index, 258).is_empty());
    assert!(find_errors(&vec![], &index_of(&[]), 256).is_empty());
}

#[test]
fn lengths_that_differ_are_reported() {
    let strings = shared(&["one"]);
    let index = index_of(&[(xxh3_64(b"one"), 0)]);
    assert_eq!(
        find_errors(&strings, &index, 300),
        vec!["store.len() (1) != stored length (300)".to_string()]
    );
    assert_eq!(
        find_errors(&vec![], &index_of(&[(7, 0)]), 256),
        vec![
            "store.len() (0) != index.len() (1)".to_string(),
            "index out of bounds: 0 >= 0 (hash: 0x7)".to_string(),
        ]
    );
}

#[test]
fn wrong_entries_are_reported() {
    let strings = shared(&["one", "two"]);
    let (one, two) = (xxh3_64(b"one"), xxh3_64(b"two"));

    let index = index_of(&[(one, 0), (0xabc, 1)]);
    assert_eq!(
        find_errors(&strings, &index, 258),
        vec![
            format!("missing hash: 0x{two:x} (str_id: 1, str: 'two')"),
            format!("hash mismatch for 'two' (stored: 0xabc, calculated: 0x{two:x})"),
        ]
    );

    let index = index_of(&[(one, 0), (two, 0)]);
    assert_eq!(
        find_errors(&strings, &index, 258),
        vec![
            format!("index mismatch for str_id 1 ('two'): hash 0x{two:x} -> 0 ('one')"),
            format!("hash mismatch for 'one' (stored: 0x{two:x}, calculated: 0x{one:x})"),
        ]
    );
}

#[test]
fn entries_are_checked_in_order() {
    let strings = shared(&["one"]);
    let one = xxh3_64(b"one");
    assert_eq!(
        check_entries(&strings, &vec![(1, 9), (one, 0), (2, 0)]),
        vec![
            "index out of bounds: 9 >= 1 (hash: 0x1)".to_string(),
            format!("hash mismatch for 'one' (stored: 0x2, calculated: 0x{one:x})"),
        ]
    );
}
