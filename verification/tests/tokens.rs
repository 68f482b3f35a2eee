use sqlite3_connection_pool::tokenize::{
    ascii_lowercase, fold_into, is_diacritic, normalize_into, tokenize, tokenize_bytes,
};

fn normalized(segment: &str) -> String {
    let mut buf = String::from("left over");
    normalize_into(segment, &mut buf);
    buf
}

#[test]
fn diacritics_are_the_combining_block() {
    assert!(!is_diacritic('\u{02ff}'));
    assert!(is_diacritic('\u{0300}'));
    assert!(is_diacritic('\u{0301}'));
    assert!(is_diacritic('\u{036f}'));
    assert!(!is_diacritic('\u{0370}'));
    assert!(!is_diacritic('a'));
}

#[test]
fn ascii_capitals_become_small() {
    assert_eq!(ascii_lowercase('A'), 'a');
    assert_eq!(ascii_lowercase('Z'), 'z');
    assert_eq!(ascii_lowercase('m'), 'm');
    assert_eq!(ascii_lowercase('@'), '@');
    assert_eq!(ascii_lowercase('['), '[');
    assert_eq!(ascii_lowercase('É'), 'É');
}

#[test]
fn folding_drops_diacritics_and_lowers_case() {
    let mut buf = String::from("old");
    fold_into(&['H', 'e', '\u{0301}', 'L', 'L', 'o', '9'], &mut buf);
    assert_eq!(buf, "hello9");
    fold_into(&[], &mut buf);
    assert_eq!(buf, "");
    fold_into(&['Σ', 'Ж'], &mut buf);
    assert_eq!(buf, "σж");
    fold_into(&['İ'], &mut buf);
    assert_eq!(buf, "i\u{0307}");
}

#[test]
fn normalizing_decomposes_first() {
    assert_eq!(normalized("Hello"), "hello");
    assert_eq!(normalized("É"), "e");
    assert_eq!(normalized("Ünïcödé"), "unicode");
    assert_eq!(normalized("ÅNGSTRÖM"), "angstrom");
    assert_eq!(normalized(""), "");
}

#[test]
fn tokens_carry_byte_offsets() {
    let tokens = tokenize("Hello, Wörld 42!");
    let seen: Vec<(&str, usize, usize)> =
        tokens.iter().map(|t| (t.text.as_str(), t.start, t.end)).collect();
    assert_eq!(seen, vec![("hello", 0, 5), ("world", 7, 13), ("42", 14, 16)]);
    assert!(tokenize("").is_empty());
    assert!(tokenize(" ,;! ").is_empty());
}

#[test]
fn invalid_utf8_has_no_tokens() {
    assert!(tokenize_bytes(&[0x48, 0x69, 0xff]).is_empty());
    let tokens = tokenize_bytes("Hi thére".as_bytes());
    let seen: Vec<(&str, usize, usize)> =
        tokens.iter().map(|t| (t.text.as_str(), t.start, t.end)).collect();
    assert_eq!(seen, vec![("hi", 0, 2), ("there", 3, 9)]);
}
