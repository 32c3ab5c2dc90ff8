//! Splitting strings into stored parts and putting them back together.
use stringstore::store::uses_regex;
use stringstore::{StringStoreError, UniqueStrStore, LATIN1_NUM, PATH_SEP};

#[test]
fn lib_test_split_and_store() {
    let mut store: UniqueStrStore = UniqueStrStore::new();
    let input: &str = ",apple,banana,cherry,cake,,cake,,,";
    let exp_v: Vec<&str> = vec!["", "apple", "banana", "cherry", "cake", "", "cake", "", "", ""];
    let delim: &str = ",";
    // 4 uniq parts (delim + empty string already should exist)
    let mut exp_store_len: usize = (LATIN1_NUM + 4) as usize;

    let (indices, d) = store.split_and_store(input, delim);
    assert_eq!(indices.len(), exp_v.len(), "{indices:?}");
    assert_eq!(store.len(), exp_store_len);

    // Check that the delimiter is stored
    assert!(store.contains(delim), "Store should contain the delim: '{delim}'");
    assert_eq!(store.get(d).unwrap(), delim);

    // Check that the parts are stored correctly
    for (i, &idx) in indices.iter().enumerate() {
        let exp: &str = exp_v[i];
        assert_eq!(store.get(idx).unwrap(), exp, "index {i}: '{exp}'");
    }

    // Check that the original string can be reconstructed
    let built: String = indices
        .iter()
        .map(|&idx| store.borrow_str(idx))
        .collect::<Vec<&str>>()
        .join(delim);

    assert_eq!(input, built, "Reconstructed string should be '{input}'");
    assert_eq!(
        input,
        store.reconstruct(&indices, d).unwrap(),
        "input <-> reconstruct() mismatch"
    );

    // Check for incorrect delimiter handling
    let delim: &str = ";";
    let (indices, d) = store.split_and_store(input, delim);
    exp_store_len += 1; // +1 new part
    assert_eq!(indices.len(), 1, "{indices:?}");
    assert_eq!(store.len(), exp_store_len);
    assert_eq!(store.get(d).unwrap(), delim, "Store should have the next delim: '{delim}'");
    assert!(store.contains(input), "Store should contain '{input}' (not split)");

    assert_eq!(
        input,
        store.reconstruct(&indices, d).unwrap(),
        "input <-> reconstruct() mismatch (not split)"
    );

    store.validate_contents().unwrap();
}

#[test]
fn lib_test_store_path() {
    let mut store: UniqueStrStore = UniqueStrStore::new();
    let path1: &str = "/home/user/foo/bar/garbage.txt";
    let exp_1: Vec<&str> = vec!["", "home", "user", "foo", "bar", "garbage.txt"];
    let parts1: Vec<u32> = store.store_path(path1);

    // 5 uniq parts (delim + empty string already should exist)
    let mut exp_store_len: usize = (LATIN1_NUM + 5) as usize;

    // 6 returned indices expected, not 5, since it includes the
    // empty string at the 1st index, as this is an absolute path
    assert_eq!(parts1.len(), exp_1.len(), "{parts1:?}");
    assert_eq!(store.len(), exp_store_len);

    // Check that the delimiter is stored
    assert!(store.contains(PATH_SEP), "Store should contain the delim: '{PATH_SEP}'");

    // Check that the parts are stored correctly
    for (i, &idx) in parts1.iter().enumerate() {
        let exp: &str = exp_1[i];
        assert_eq!(store.get(idx).unwrap(), exp, "parts1 {i}: '{exp}'");
    }

    // Check that the original string can be reconstructed
    let built: String = parts1
        .iter()
        .map(|&idx| store.borrow_str(idx))
        .collect::<Vec<&str>>()
        .join(PATH_SEP);

    assert_eq!(path1, built, "Reconstructed path should be '{path1}'");
    assert_eq!(
        path1,
        store.reconstruct(&parts1, store.idx(PATH_SEP).unwrap()).unwrap(),
        "input <-> reconstruct() mismatch (path1)"
    );

    // A path that shares most of its segments ("/home/user/./..../foo/../bar/garbage2.txt" in
    // its normalized form)
    let path2: &str = "/home/user/bar/garbage2.txt";
    let exp_2: Vec<&str> = vec!["", "home", "user", "bar", "garbage2.txt"];
    let parts2: Vec<u32> = store.store_path(path2);

    exp_store_len += 1; // 1 new part
    assert_eq!(parts2.len(), exp_2.len(), "{parts2:?}");
    assert_eq!(store.len(), exp_store_len);

    for (i, &idx) in parts2.iter().enumerate() {
        let exp: &str = exp_2[i];
        assert_eq!(store.get(idx).unwrap(), exp, "parts2 {i}: '{exp}'");
    }

    assert_eq!(
        exp_2.join(PATH_SEP),
        store.reconstruct(&parts2, store.idx(PATH_SEP).unwrap()).unwrap(),
        "input <-> reconstruct() mismatch (path2)"
    );

    // A relative path ("veri/sekrit/.///hidn/../lokas\0juun/garbage.1" in its normalized form)
    let path3: &str = "veri/sekrit/lokasjuun/garbage.1";
    let exp_3: Vec<&str> = vec!["veri", "sekrit", "lokasjuun", "garbage.1"];
    let parts3: Vec<u32> = store.store_path(path3);

    exp_store_len += exp_3.len();
    assert_eq!(parts3.len(), exp_3.len(), "{parts3:?}");
    assert_eq!(store.len(), exp_store_len);

    for (i, &idx) in parts3.iter().enumerate() {
        let exp: &str = exp_3[i];
        assert_eq!(store.get(idx).unwrap(), exp, "parts3 {i}: '{exp}'");
    }

    assert_eq!(
        exp_3.join(PATH_SEP),
        store.reconstruct(&parts3, store.idx(PATH_SEP).unwrap()).unwrap(),
        "input <-> reconstruct() mismatch (path3)"
    );
}

#[test]
fn stringstore_test_split_and_store() {
    let mut store: UniqueStrStore = UniqueStrStore::new();
    let input: &str = ",apple,banana,cherry,cake,,cake,,,";
    let exp_v: Vec<&str> = vec!["", "apple", "banana", "cherry", "cake", "", "cake", "", "", ""];
    let delim: &str = ",";
    // 4 uniq parts (delim + empty string already should exist)
    let mut exp_store_len: usize = (LATIN1_NUM + 4) as usize;

    let (indices, d) = store.split_and_store(input, delim);
    assert_eq!(indices.len(), exp_v.len(), "{indices:?}");
    assert_eq!(store.len(), exp_store_len);

    // Check that the delimiter is stored
    assert!(store.contains(delim), "Store should contain the delim: '{delim}'");
    assert_eq!(store.get(d).unwrap(), delim);

    // Check that the parts are stored correctly
    for (i, &idx) in indices.iter().enumerate() {
        let exp: &str = exp_v[i];
        assert_eq!(store.get(idx).unwrap(), exp, "index {i}: '{exp}'");
    }

    // Check that the original string can be reconstructed
    let built: String = indices
        .iter()
        .map(|&idx| store.get_raw(idx))
        .collect::<Vec<&str>>()
        .join(delim);

    assert_eq!(input, built, "Reconstructed string should be '{input}'");
    assert_eq!(
        input,
        store.reconstruct(&indices, d).unwrap(),
        "input <-> reconstruct() mismatch"
    );

    // Check for incorrect delimiter handling
    let delim: &str = ";";
    let (indices, d) = store.split_and_store(input, delim);
    exp_store_len += 1; // +1 new part
    assert_eq!(indices.len(), 1, "{indices:?}");
    assert_eq!(store.len(), exp_store_len);
    assert_eq!(store.get(d).unwrap(), delim, "Store should have the next delim: '{delim}'");
    assert!(store.contains(input), "Store should contain '{input}' (not split)");

    assert_eq!(
        input,
        store.reconstruct(&indices, d).unwrap(),
        "input <-> reconstruct() mismatch (not split)"
    );

    store.validate_contents().unwrap();
}

#[test]
fn stringstore_test_store_path() {
    let mut store: UniqueStrStore = UniqueStrStore::new();
    let path1: &str = "/home/user/foo/bar/garbage.txt";
    let exp_1: Vec<&str> = vec!["", "home", "user", "foo", "bar", "garbage.txt"];
    let parts1: Vec<u32> = store.store_path(path1);

    // 5 uniq parts (delim + empty string already should exist)
    let mut exp_store_len: usize = (LATIN1_NUM + 5) as usize;

    // 6 returned indices expected, not 5, since it includes the
    // empty string at the 1st index, as this is an absolute path
    assert_eq!(parts1.len(), exp_1.len(), "{parts1:?}");
    assert_eq!(store.len(), exp_store_len);

    // Check that the delimiter is stored
    assert!(store.contains(PATH_SEP), "Store should contain the delim: '{PATH_SEP}'");

    // Check that the parts are stored correctly
    for (i, &idx) in parts1.iter().enumerate() {
        let exp: &str = exp_1[i];
        assert_eq!(store.get(idx).unwrap(), exp, "parts1 {i}: '{exp}'");
    }

    // Check that the original string can be reconstructed
    let built: String = parts1
        .iter()
        .map(|&idx| store.get_raw(idx))
        .collect::<Vec<&str>>()
        .join(PATH_SEP);

    assert_eq!(path1, built, "Reconstructed path should be '{path1}'");
    assert_eq!(
        path1,
        store.reconstruct(&parts1, store.idx(PATH_SEP).unwrap()).unwrap(),
        "input <-> reconstruct() mismatch (path1)"
    );

    // A path that shares most of its segments ("/home/user/./..../foo/../bar/garbage2.txt" in
    // its normalized form)
    let path2: &str = "/home/user/bar/garbage2.txt";
    let exp_2: Vec<&str> = vec!["", "home", "user", "bar", "garbage2.txt"];
    let parts2: Vec<u32> = store.store_path(path2);

    exp_store_len += 1; // 1 new part
    assert_eq!(parts2.len(), exp_2.len(), "{parts2:?}");
    assert_eq!(store.len(), exp_store_len);

    for (i, &idx) in parts2.iter().enumerate() {
        let exp: &str = exp_2[i];
        assert_eq!(store.get(idx).unwrap(), exp, "parts2 {i}: '{exp}'");
    }

    assert_eq!(
        exp_2.join(PATH_SEP),
        store.reconstruct(&parts2, store.idx(PATH_SEP).unwrap()).unwrap(),
        "input <-> reconstruct() mismatch (path2)"
    );

    // A relative path ("veri/sekrit/.///hidn/../lokas\0juun/garbage.1" in its normalized form)
    let path3: &str = "veri/sekrit/lokasjuun/garbage.1";
    let exp_3: Vec<&str> = vec!["veri", "sekrit", "lokasjuun", "garbage.1"];
    let parts3: Vec<u32> = store.store_path(path3);

    exp_store_len += exp_3.len();
    assert_eq!(parts3.len(), exp_3.len(), "{parts3:?}");
    assert_eq!(store.len(), exp_store_len);

    for (i, &idx) in parts3.iter().enumerate() {
        let exp: &str = exp_3[i];
        assert_eq!(store.get(idx).unwrap(), exp, "parts3 {i}: '{exp}'");
    }

    assert_eq!(
        exp_3.join(PATH_SEP),
        store.reconstruct(&parts3, store.idx(PATH_SEP).unwrap()).unwrap(),
        "input <-> reconstruct() mismatch (path3)"
    );
}

#[test]
fn paths_and_leading_zeros() {
    let mut store = UniqueStrStore::new();
    assert_eq!(store.store_path("foo/bar"), vec![256, 257]);
    assert_eq!(store.store_path("/foo/bar"), vec![0, 256, 257]);
    assert_eq!(store.store_path("/"), vec![0, 0]);
    assert_eq!(store.store_path(""), vec![0]);
    assert_eq!(store.checked_store_path("/foo"), Some(vec![0, 256]));
    assert_eq!(store.reconstruct(&[0, 0], 47).unwrap(), "/");
    assert_eq!(store.reconstruct(&[0], 47).unwrap(), "");
    assert_eq!(store.len(), 258);
}

#[test]
fn reconstruct_undoes_split_and_store() {
    let inputs = [
        "", "a", "::", ":a:", "a::b", ":::", "a:b:c", "\u{e4}:\u{20ac}", "aaa", "no delimiter",
    ];
    let mut store = UniqueStrStore::new();
    for input in inputs {
        for delim in [":", "::", "a", "aa", "", "missing"] {
            let (indices, d) = store.split_and_store(input, delim);
            assert_eq!(store.reconstruct(&indices, d).unwrap(), input);
            assert_eq!(store.borrow_str(d), delim);
            assert_eq!(store.checked_split_and_store(input, delim), Some((indices, d)));
        }
    }
    store.validate_contents().unwrap();
}

#[test]
fn parts_are_those_of_str_split() {
    for input in ["a", "::", ":a:", "a::b", ":::", "aaaa", "\u{e4}b"] {
        for delim in [":", "::", "a", "aa", ""] {
            let mut store = UniqueStrStore::new();
            let (indices, _) = store.split_and_store(input, delim);
            let parts: Vec<&str> = indices.iter().map(|&i| store.borrow_str(i)).collect();
            let expected: Vec<&str> = input.split(delim).collect();
            assert_eq!(parts, expected);
            assert!(delim.is_empty() || parts.iter().all(|part| !part.contains(delim)));
        }
    }
}

#[test]
fn empty_string_still_stores_the_delimiter() {
    let mut store = UniqueStrStore::new();
    assert_eq!(store.split_and_store("", "=>"), (vec![0], 256));
    assert_eq!(store.idx("=>"), Some(256));
    assert_eq!(store.split_and_store("", ""), (vec![0], 0));
}

#[test]
fn zeros_mark_delimiters() {
    let mut store = UniqueStrStore::new();
    let (indices, _) = store.split_and_store(",one,,two,", ",");
    assert_eq!(indices, vec![0, 256, 0, 257, 0]);
    let (indices, _) = store.split_and_store("one,two", ",");
    assert_eq!(indices, vec![256, 257]);
}

#[test]
fn empty_parts_and_cuts() {
    // cut out at the start only: the occurrence at the end overlaps the one at the start
    let mut store = UniqueStrStore::new();
    let (indices, _) = store.split_and_store("aaa", "aa");
    assert_eq!(indices, vec![0, 97]);
    let (indices, _) = store.split_and_store("aaaa", "aa");
    assert_eq!(indices, vec![0, 0, 0]);
    let (indices, _) = store.split_and_store("baab", "aa");
    assert_eq!(indices, vec![98, 98]);
}

#[test]
fn strings_are_put_back_together_later() {
    let mut store = UniqueStrStore::new();
    let (parts, d) = store.split_and_store("alpha, beta, , gamma", ", ");
    let path = store.store_path("/usr/local/lib");
    let (tokens, _) = store.split_and_store_multi("k1=v1;k2=v2", &["=", ";"], None);
    let index = store.insert("alone");
    for i in 0..100 {
        store.insert(&format!("later {i}"));
    }
    assert_eq!(store.reconstruct(&parts, d).unwrap(), "alpha, beta, , gamma");
    assert_eq!(store.reconstruct(&path, store.idx("/").unwrap()).unwrap(), "/usr/local/lib");
    assert_eq!(store.reconstruct(&tokens, 0).unwrap(), "k1=v1;k2=v2");
    assert_eq!(store.get(index).unwrap(), "alone");
    assert_eq!(store.idx("alone"), Some(index));
}

#[test]
fn a_nul_part_is_lost() {
    let mut store = UniqueStrStore::new();
    let (indices, d) = store.split_and_store("one,\0,two", ",");
    assert_eq!(indices, vec![256, 0, 257]);
    assert_eq!(store.reconstruct(&indices, d).unwrap(), "one,,two");
}

#[test]
fn split_by_several_delimiters() {
    for force in [None, Some(true), Some(false)] {
        let mut store = UniqueStrStore::new();
        let (indices, delims) = store.split_and_store_multi("key => val; x", &[" => ", ";", ""], force);
        assert_eq!(delims, vec![256, 59, 0]);
        // "key", " => ", "val", ";", " x"
        assert_eq!(indices, vec![257, 256, 258, 59, 259]);
        assert_eq!(store.reconstruct(&indices, 0).unwrap(), "key => val; x");
        assert_eq!(
            store.checked_split_and_store_multi("key => val; x", &[" => ", ";", ""], force),
            Some((indices, delims))
        );
        store.validate_contents().unwrap();
    }
}

#[test]
fn split_by_several_delimiters_special_cases() {
    let mut store = UniqueStrStore::new();
    assert_eq!(store.split_and_store_multi("", &["ab", ""], None), (vec![0], vec![256, 0]));
    assert_eq!(store.split_and_store_multi("whole string", &[], None), (vec![257], vec![]));
    assert_eq!(store.split_and_store_multi("", &[], Some(true)), (vec![0], vec![]));
    assert_eq!(store.split_and_store_multi("abc", &[""], Some(true)), (vec![258], vec![0]));
}

#[test]
fn regex_is_chosen_by_size() {
    assert!(!uses_regex(10000, 1, None));
    assert!(uses_regex(10001, 1, None));
    assert!(!uses_regex(1000, 10, None));
    assert!(uses_regex(0, 11, None));
    assert!(uses_regex(usize::MAX, 2, None));
    assert!(uses_regex(0, 0, Some(true)));
    assert!(!uses_regex(usize::MAX, usize::MAX, Some(false)));
}

#[test]
fn long_strings_are_split_the_same_way() {
    let input = "word, and \u{e9} word; ".repeat(1000);
    let delims = [", ", " ", ";"];
    let mut scanned = UniqueStrStore::new();
    let mut matched = UniqueStrStore::new();
    let by_scan = scanned.split_and_store_multi(&input, &delims, Some(false));
    let by_size = matched.split_and_store_multi(&input, &delims, None);
    assert_eq!(by_scan, by_size);
    assert_eq!(matched.reconstruct(&by_size.0, 0).unwrap(), input);
}

#[test]
fn reconstruct_errors() {
    let mut store = UniqueStrStore::new();
    store.insert("foo");
    assert_eq!(store.reconstruct(&[], u32::MAX).unwrap(), "");
    assert_eq!(store.reconstruct(&[0], u32::MAX).unwrap(), "");
    assert_eq!(
        store.reconstruct(&[256], 257),
        Err(StringStoreError::IndexOutOfBounds { idx: 257, max: 256 })
    );
    assert_eq!(
        store.reconstruct(&[256, 300, 400], 44),
        Err(StringStoreError::InvalidReconstruction { idx: 300, pos: 1, max: 257 })
    );
    // the delimiter is checked first
    assert_eq!(
        store.reconstruct(&[300], 999),
        Err(StringStoreError::IndexOutOfBounds { idx: 999, max: 256 })
    );
    assert_eq!(store.reconstruct(&[256, 0, 256], 44).unwrap(), "foo,,foo");
    assert_eq!(store.reconstruct(&[0, 0], 256).unwrap(), "foo");
}
