use pycycle::text::{
    chars_of, comes_before, count_leading, decimal_text, first_word_text, is_space_char, join_first,
    same_text, skip_chars, split_text, strip_all_suffixes, strip_suffix_text, trim_text,
};

#[test]
fn white_space_is_that_of_unicode() {
    for code in 0..=0x10ffffu32 {
        if let Some(c) = char::from_u32(code) {
            assert_eq!(is_space_char(c), c.is_whitespace());
        }
    }
}

#[test]
fn order_is_that_of_strings() {
    let list = ["", "a", "aa", "ab", "b", "é", "包", "A", "\u{ffff}", "\u{10000}"];
    for a in list {
        for b in list {
            assert_eq!(comes_before(a, b), a < b);
            assert_eq!(same_text(a, b), a == b);
        }
    }
}

#[test]
fn split_gives_one_piece_more_than_separators() {
    for text in ["", ".", "a", "a.b", ".a..b.", "包.模块"] {
        let expected: Vec<String> = text.split('.').map(|piece| piece.to_string()).collect();
        let pieces = split_text(text, '.');
        assert_eq!(pieces, expected);
        assert_eq!(join_first(&pieces, pieces.len(), "."), text);
    }
}

#[test]
fn join_takes_the_first_parts() {
    let parts = vec!["a".to_string(), "b".to_string(), "c".to_string()];
    assert_eq!(join_first(&parts, 0, "."), "");
    assert_eq!(join_first(&parts, 1, "."), "a");
    assert_eq!(join_first(&parts, 2, " -> "), "a -> b");
}

#[test]
fn words_and_trimming_match_std() {
    for text in ["", "  ", "a", " a b ", "\tname as other\u{3000}", "\u{a0}x\u{2003}y"] {
        assert_eq!(trim_text(text), text.trim());
        assert_eq!(first_word_text(text), text.split_whitespace().next().unwrap_or(""));
    }
}

#[test]
fn leading_characters_are_counted() {
    assert_eq!(count_leading("..a.b", '.'), 2);
    assert_eq!(count_leading("a..", '.'), 0);
    assert_eq!(count_leading("...", '.'), 3);
    assert_eq!(skip_chars("..é.b", 2), "é.b");
    assert_eq!(chars_of("é包"), vec!['é', '包']);
}

#[test]
fn suffixes_are_stripped() {
    assert_eq!(strip_suffix_text("a.py", ".py"), Some("a".to_string()));
    assert_eq!(strip_suffix_text("a.pyc", ".py"), None);
    assert_eq!(strip_suffix_text("py", ".py"), None);
    assert_eq!(strip_all_suffixes("a.__init__.__init__", ".__init__"), "a");
    assert_eq!(strip_all_suffixes("__init__", ".__init__"), "__init__");
}

#[test]
fn decimal_digits_match_std() {
    for n in [0u64, 7, 9, 10, 99, 100, 1234567890, u64::MAX] {
        assert_eq!(decimal_text(n), n.to_string());
    }
}
