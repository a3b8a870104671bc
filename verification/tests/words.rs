use chip_hdl::text::{
    char_is_punct, char_is_space, find_first, is_single, split_first, word_is_false, word_is_true,
};

#[test]
fn white_space_is_the_unicode_set() {
    for c in [' ', '\t', '\n', '\r', '\u{b}', '\u{c}', '\u{85}', '\u{a0}', '\u{1680}', '\u{2000}',
        '\u{200a}', '\u{2028}', '\u{2029}', '\u{202f}', '\u{205f}', '\u{3000}']
    {
        assert!(char_is_space(c));
        assert!(c.is_whitespace());
    }
    for c in ['a', '(', '/', '\u{8}', '\u{e}', '\u{200b}', '\u{feff}', '\u{180e}'] {
        assert!(!char_is_space(c));
        assert!(!c.is_whitespace());
    }
}

#[test]
fn white_space_agrees_with_std_on_every_char() {
    for code in 0u32..=0x10ffff {
        if let Some(c) = char::from_u32(code) {
            assert_eq!(char_is_space(c), c.is_whitespace());
        }
    }
}

#[test]
fn punctuation_is_four_characters() {
    for c in ['(', ')', '=', ','] {
        assert!(char_is_punct(c));
    }
    for c in [':', '.', '/', ' ', 'a', ';'] {
        assert!(!char_is_punct(c));
    }
}

#[test]
fn is_single_compares_whole_words() {
    assert!(is_single("(", '('));
    assert!(!is_single("((", '('));
    assert!(!is_single("", '('));
    assert!(!is_single(")", '('));
}

#[test]
fn literal_words_ignore_case() {
    for w in ["true", "TRUE", "True", "tRuE", "1"] {
        assert!(word_is_true(w));
        assert!(!word_is_false(w));
    }
    for w in ["false", "FALSE", "False", "fAlSe", "0"] {
        assert!(word_is_false(w));
        assert!(!word_is_true(w));
    }
    for w in ["", "tru", "truee", "yes", "10", "01", "fals", "falsey", "t", "f"] {
        assert!(!word_is_true(w));
        assert!(!word_is_false(w));
    }
}

#[test]
fn literal_words_agree_with_lowercasing() {
    for w in ["TRUE", "trÜe", "ᵀrue", "TRUe", "FALſE", "FALSE", "İ", "true "] {
        assert_eq!(word_is_true(w), w.to_lowercase() == "true" || w == "1");
        assert_eq!(word_is_false(w), w.to_ascii_lowercase() == "false" || w == "0");
    }
}

#[test]
fn find_first_gives_the_index_or_the_length() {
    assert_eq!(find_first("a:b:c", ':'), 1);
    assert_eq!(find_first(":", ':'), 0);
    assert_eq!(find_first("abc", ':'), 3);
    assert_eq!(find_first("", ':'), 0);
    assert_eq!(find_first("äö:ü", ':'), 2);
}

#[test]
fn split_first_gives_both_sides() {
    assert_eq!(split_first("a:b:c", ':'), ("a".to_string(), "b:c".to_string()));
    assert_eq!(split_first("abc", ':'), ("abc".to_string(), "".to_string()));
    assert_eq!(split_first(":x", ':'), ("".to_string(), "x".to_string()));
    assert_eq!(split_first("x:", ':'), ("x".to_string(), "".to_string()));
    assert_eq!(split_first("äö.ü", '.'), ("äö".to_string(), "ü".to_string()));
}
