//! Tokenization of strings.
use stringstore::{tokenize, tokenize_regex, Token};

const TOKEN_TEST: &str = "apple,banana,cherry,cake,,cake";
const TOKEN_DELIMS: [&str; 8] = [",", "cherry", " ", ",", ".", "!", "?", "\n"];
const TOKENS_LEN: usize = 10;
const TOKENS_EXPECTED: [&str; TOKENS_LEN] = [
    "apple", ",", "banana", ",", "cherry", ",", "cake", ",", ",", "cake",
];

fn text(content: &str) -> Token {
    Token { content: content.to_string(), is_delim: false, delim_idx: None }
}

fn delim(content: &str, idx: usize) -> Token {
    Token { content: content.to_string(), is_delim: true, delim_idx: Some(idx) }
}

#[test]
fn lib_test_tokenize() {
    let tokens: Vec<Token> = tokenize(TOKEN_TEST, &TOKEN_DELIMS);

    // Check that the length and tokenization is correct
    assert_eq!(tokens.len(), TOKENS_LEN, "len failed, tokens:\n{tokens:#?}");
    for (i, token) in tokens.iter().enumerate() {
        let exp: &str = TOKENS_EXPECTED[i];
        assert_eq!(token.content, exp, "token {i}: {token:?} (tokens: {tokens:#?})");
    }
}

#[test]
fn lib_test_tokenize_regex() {
    let tokens: Vec<Token> = tokenize_regex(TOKEN_TEST, &TOKEN_DELIMS);

    assert_eq!(tokens.len(), TOKENS_LEN, "len failed, tokens:\n{tokens:#?}");
    for (i, token) in tokens.iter().enumerate() {
        let exp: &str = TOKENS_EXPECTED[i];
        assert_eq!(token.content, exp, "token {i}: {token:?}, tokens:\n{tokens:#?})");
    }

    // detailed check for the tokenization
    let t: [Token; 10] = [
        Token { content: "apple".to_string(), is_delim: false, delim_idx: None },
        Token { content: ",".to_string(), is_delim: true, delim_idx: Some(0) },
        Token { content: "banana".to_string(), is_delim: false, delim_idx: None },
        Token { content: ",".to_string(), is_delim: true, delim_idx: Some(0) },
        Token { content: "cherry".to_string(), is_delim: true, delim_idx: Some(1) },
        Token { content: ",".to_string(), is_delim: true, delim_idx: Some(0) },
        Token { content: "cake".to_string(), is_delim: false, delim_idx: None },
        Token { content: ",".to_string(), is_delim: true, delim_idx: Some(0) },
        Token { content: ",".to_string(), is_delim: true, delim_idx: Some(0) },
        Token { content: "cake".to_string(), is_delim: false, delim_idx: None },
    ];

    assert!(tokens == t, "tokens don't match expected:\n{tokens:#?}");
}

#[test]
fn lib_test_tokenize_long() {
    let test: &str = "Mary had a little lamb, its fleece was white as snow.\n";
    let tokens: Vec<Token> = tokenize(test, &TOKEN_DELIMS);

    assert_eq!(tokens.len(), 24, "len failed, tokens:\n{tokens:#?}");

    let t: [Token; 24] = [
        Token { content: "Mary".to_string(), is_delim: false, delim_idx: None },
        Token { content: " ".to_string(), is_delim: true, delim_idx: Some(2) },
        Token { content: "had".to_string(), is_delim: false, delim_idx: None },
        Token { content: " ".to_string(), is_delim: true, delim_idx: Some(2) },
        Token { content: "a".to_string(), is_delim: false, delim_idx: None },
        Token { content: " ".to_string(), is_delim: true, delim_idx: Some(2) },
        Token { content: "little".to_string(), is_delim: false, delim_idx: None },
        Token { content: " ".to_string(), is_delim: true, delim_idx: Some(2) },
        Token { content: "lamb".to_string(), is_delim: false, delim_idx: None },
        Token { content: ",".to_string(), is_delim: true, delim_idx: Some(0) },
        Token { content: " ".to_string(), is_delim: true, delim_idx: Some(2) },
        Token { content: "its".to_string(), is_delim: false, delim_idx: None },
        Token { content: " ".to_string(), is_delim: true, delim_idx: Some(2) },
        Token { content: "fleece".to_string(), is_delim: false, delim_idx: None },
        Token { content: " ".to_string(), is_delim: true, delim_idx: Some(2) },
        Token { content: "was".to_string(), is_delim: false, delim_idx: None },
        Token { content: " ".to_string(), is_delim: true, delim_idx: Some(2) },
        Token { content: "white".to_string(), is_delim: false, delim_idx: None },
        Token { content: " ".to_string(), is_delim: true, delim_idx: Some(2) },
        Token { content: "as".to_string(), is_delim: false, delim_idx: None },
        Token { content: " ".to_string(), is_delim: true, delim_idx: Some(2) },
        Token { content: "snow".to_string(), is_delim: false, delim_idx: None },
        Token { content: ".".to_string(), is_delim: true, delim_idx: Some(4) },
        Token { content: "\n".to_string(), is_delim: true, delim_idx: Some(7) },
    ];

    assert!(tokens == t, "tokens don't match expected:\n{tokens:#?}");

    // regex part
    let tokens: Vec<Token> = tokenize_regex(test, &TOKEN_DELIMS);
    assert_eq!(tokens.len(), 24, "regex len failed, tokens:\n{tokens:#?}");
    assert!(tokens == t, "regex tokens don't match expected:\n{tokens:#?}");
}

#[test]
fn stringstore_test_tokenize() {
    let tokens: Vec<Token> = tokenize(TOKEN_TEST, &TOKEN_DELIMS);

    // Check that the length and tokenization is correct
    assert_eq!(tokens.len(), TOKENS_LEN, "len failed, tokens:\n{tokens:#?}");
    for (i, token) in tokens.iter().enumerate() {
        let exp: &str = TOKENS_EXPECTED[i];
        assert_eq!(token.content, exp, "token {i}: {token:?} (tokens: {tokens:#?})");
    }
}

#[test]
fn stringstore_test_tokenize_regex() {
    let tokens: Vec<Token> = tokenize_regex(TOKEN_TEST, &TOKEN_DELIMS);

    assert_eq!(tokens.len(), TOKENS_LEN, "len failed, tokens:\n{tokens:#?}");
    for (i, token) in tokens.iter().enumerate() {
        let exp: &str = TOKENS_EXPECTED[i];
        assert_eq!(token.content, exp, "token {i}: {token:?}, tokens:\n{tokens:#?})");
    }

    // detailed check for the tokenization
    let t: [Token; 10] = [
        Token { content: "apple".to_string(), is_delim: false, delim_idx: None },
        Token { content: ",".to_string(), is_delim: true, delim_idx: Some(0) },
        Token { content: "banana".to_string(), is_delim: false, delim_idx: None },
        Token { content: ",".to_string(), is_delim: true, delim_idx: Some(0) },
        Token { content: "cherry".to_string(), is_delim: true, delim_idx: Some(1) },
        Token { content: ",".to_string(), is_delim: true, delim_idx: Some(0) },
        Token { content: "cake".to_string(), is_delim: false, delim_idx: None },
        Token { content: ",".to_string(), is_delim: true, delim_idx: Some(0) },
        Token { content: ",".to_string(), is_delim: true, delim_idx: Some(0) },
        Token { content: "cake".to_string(), is_delim: false, delim_idx: None },
    ];

    assert!(tokens == t, "tokens don't match expected:\n{tokens:#?}");
}

#[test]
fn stringstore_test_tokenize_long() {
    let test: &str = "Mary had a little lamb, its fleece was white as snow.\n";
    let tokens: Vec<Token> = tokenize(test, &TOKEN_DELIMS);

    assert_eq!(tokens.len(), 24, "len failed, tokens:\n{tokens:#?}");

    let t: [Token; 24] = [
        Token { content: "Mary".to_string(), is_delim: false, delim_idx: None },
        Token { content: " ".to_string(), is_delim: true, delim_idx: Some(2) },
        Token { content: "had".to_string(), is_delim: false, delim_idx: None },
        Token { content: " ".to_string(), is_delim: true, delim_idx: Some(2) },
        Token { content: "a".to_string(), is_delim: false, delim_idx: None },
        Token { content: " ".to_string(), is_delim: true, delim_idx: Some(2) },
        Token { content: "little".to_string(), is_delim: false, delim_idx: None },
        Token { content: " ".to_string(), is_delim: true, delim_idx: Some(2) },
        Token { content: "lamb".to_string(), is_delim: false, delim_idx: None },
        Token { content: ",".to_string(), is_delim: true, delim_idx: Some(0) },
        Token { content: " ".to_string(), is_delim: true, delim_idx: Some(2) },
        Token { content: "its".to_string(), is_delim: false, delim_idx: None },
        Token { content: " ".to_string(), is_delim: true, delim_idx: Some(2) },
        Token { content: "fleece".to_string(), is_delim: false, delim_idx: None },
        Token { content: " ".to_string(), is_delim: true, delim_idx: Some(2) },
        Token { content: "was".to_string(), is_delim: false, delim_idx: None },
        Token { content: " ".to_string(), is_delim: true, delim_idx: Some(2) },
        Token { content: "white".to_string(), is_delim: false, delim_idx: None },
        Token { content: " ".to_string(), is_delim: true, delim_idx: Some(2) },
        Token { content: "as".to_string(), is_delim: false, delim_idx: None },
        Token { content: " ".to_string(), is_delim: true, delim_idx: Some(2) },
        Token { content: "snow".to_string(), is_delim: false, delim_idx: None },
        Token { content: ".".to_string(), is_delim: true, delim_idx: Some(4) },
        Token { content: "\n".to_string(), is_delim: true, delim_idx: Some(7) },
    ];

    assert!(tokens == t, "tokens don't match expected:\n{tokens:#?}");

    // regex part
    let tokens: Vec<Token> = tokenize_regex(test, &TOKEN_DELIMS);
    assert_eq!(tokens.len(), 24, "regex len failed, tokens:\n{tokens:#?}");
    assert!(tokens == t, "regex tokens don't match expected:\n{tokens:#?}");
}

#[test]
fn first_listed_delimiter_wins() {
    let expected = vec![text("x"), delim("ab", 0), text("cy")];
    assert_eq!(tokenize("xabcy", &["ab", "abc"]), expected);
    assert_eq!(tokenize_regex("xabcy", &["ab", "abc"]), expected);

    let expected = vec![text("x"), delim("abc", 0), text("y")];
    assert_eq!(tokenize("xabcy", &["abc", "ab"]), expected);
    assert_eq!(tokenize_regex("xabcy", &["abc", "ab"]), expected);
}

#[test]
fn empty_delimiters_are_skipped_without_renumbering() {
    let expected = vec![text("a"), delim(";", 1), text("b"), delim(",", 3)];
    assert_eq!(tokenize("a;b,", &["", ";", "", ","]), expected);
    assert_eq!(tokenize_regex("a;b,", &["", ";", "", ","]), expected);
}

#[test]
fn without_delimiters_the_string_is_one_token() {
    assert_eq!(tokenize("a,b", &[]), vec![text("a,b")]);
    assert_eq!(tokenize_regex("a,b", &[]), vec![text("a,b")]);
    assert_eq!(tokenize("a,b", &["", ""]), vec![text("a,b")]);
    assert_eq!(tokenize_regex("a,b", &["", ""]), vec![text("a,b")]);
    assert!(tokenize("", &[","]).is_empty());
    assert!(tokenize_regex("", &[","]).is_empty());
    assert!(tokenize_regex("", &[""]).is_empty());
}

#[test]
fn multibyte_characters_are_kept_whole() {
    let input = "\u{e4}\u{20ac}\u{1f600}b\u{20ac}\u{20ac}";
    let expected = vec![
        text("\u{e4}"),
        delim("\u{20ac}", 0),
        delim("\u{1f600}", 1),
        text("b"),
        delim("\u{20ac}", 0),
        delim("\u{20ac}", 0),
    ];
    assert_eq!(tokenize(input, &["\u{20ac}", "\u{1f600}"]), expected);
    assert_eq!(tokenize_regex(input, &["\u{20ac}", "\u{1f600}"]), expected);
}

#[test]
fn meta_characters_are_literal_delimiters() {
    let metas = [
        "\\", ".", "+", "*", "?", "(", ")", "|", "[", "]", "{", "}", "^", "$", "#", "&", "-", "~",
    ];
    for meta in metas {
        let input = format!("a{meta}b");
        let expected = vec![text("a"), delim(meta, 0), text("b")];
        assert_eq!(tokenize_regex(&input, &[meta]), expected);
        assert_eq!(tokenize(&input, &[meta]), expected);
    }
    let all: String = metas.concat();
    let tokens = tokenize_regex(&all, &metas);
    assert_eq!(tokens.len(), metas.len());
    for (i, token) in tokens.iter().enumerate() {
        assert_eq!(token.content, metas[i]);
        assert_eq!(token.delim_idx, Some(i));
    }
    assert_eq!(tokenize_regex("a.*b", &[".*"]), vec![text("a"), delim(".*", 0), text("b")]);
    assert_eq!(tokenize_regex("axxb", &[".*"]), vec![text("axxb")]);
}

#[test]
fn a_repeated_delimiter_has_its_first_position() {
    let expected = vec![delim("x", 1), text("a"), delim("x", 1)];
    assert_eq!(tokenize("xax", &["y", "x", "x"]), expected);
    assert_eq!(tokenize_regex("xax", &["y", "x", "x"]), expected);
}

#[test]
fn tokens_spell_the_string() {
    let inputs = ["", "a", ",", "a,b;;c", "one two  three", "\u{e5}, \u{20ac};\n"];
    for input in inputs {
        for delims in [vec![","], vec![";", ","], vec![" ", ""], vec![";;", ";", "\n"]] {
            for tokens in [tokenize(input, &delims), tokenize_regex(input, &delims)] {
                let spelled: String = tokens.iter().map(|t| t.content.as_str()).collect();
                assert_eq!(spelled, input);
            }
            assert_eq!(tokenize(input, &delims), tokenize_regex(input, &delims));
        }
    }
}

#[test]
fn token_kinds_and_texts_apart() {
    let delims = [",", "--", ""];
    let tokens = tokenize(",a--b-c,,--d", &delims);
    for (n, token) in tokens.iter().enumerate() {
        match token.delim_idx {
            Some(k) => {
                assert!(token.is_delim);
                assert_eq!(token.content, delims[k]);
            }
            None => {
                assert!(!token.is_delim);
                assert!(!token.content.is_empty());
                assert!(!token.content.contains(",") && !token.content.contains("--"));
            }
        }
        assert!(n == 0 || token.is_delim || tokens[n - 1].is_delim);
    }
}

#[test]
fn no_delimiter_begins_in_a_text() {
    let input = "a-b--c,d\u{e9}-,,--x";
    let delims = [",", "--", ""];
    for tokens in [tokenize(input, &delims), tokenize_regex(input, &delims)] {
        let mut at = 0;
        for token in &tokens {
            assert!(input[at..].starts_with(&token.content));
            if !token.is_delim {
                for (p, _) in token.content.char_indices() {
                    let rest = &input[at + p..];
                    assert!(!rest.starts_with(",") && !rest.starts_with("--"));
                }
            }
            at += token.content.len();
        }
        assert_eq!(at, input.len());
    }
}

#[test]
fn default_token_is_an_empty_text() {
    assert_eq!(Token::default(), text(""));
}
