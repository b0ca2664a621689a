use desktop_find::text::{
    chars_of, compare_texts, eq_ignore_ascii_case, is_blank, is_white_space_char, joined,
    push_decimal, same_text, trim,
};

#[test]
fn white_space_matches_std() {
    for u in 0u32..=0x10FFFF {
        if let Some(c) = char::from_u32(u) {
            assert_eq!(is_white_space_char(c), c.is_whitespace(), "{u:#x}");
        }
    }
}

#[test]
fn trim_matches_std() {
    for s in ["", " ", "  a b  ", "\u{3000}标题\u{2028}", "\u{85}x\u{a0}", "\u{200b}x", "x\t\n"] {
        assert_eq!(trim(s), s.trim());
        assert_eq!(is_blank(s), s.trim().is_empty());
    }
    assert_eq!(trim(&trim(" a ")), "a");
}

#[test]
fn ascii_case_matches_std() {
    let samples = ["", "a", "A", "Ab", "aB", "ä", "Ä", "ab", "abc", "[", "{", "@", "`", "微信", "微信A"];
    for a in samples {
        for b in samples {
            assert_eq!(eq_ignore_ascii_case(a, b), a.eq_ignore_ascii_case(b), "{a} {b}");
        }
    }
}

#[test]
fn text_order_matches_string_order() {
    let samples = ["", "a", "A", "ab", "b", "é", "微信", "微", "z\u{10000}", "z\u{ffff}"];
    for a in samples {
        for b in samples {
            let expected = match a.cmp(b) {
                std::cmp::Ordering::Less => -1,
                std::cmp::Ordering::Equal => 0,
                std::cmp::Ordering::Greater => 1,
            };
            assert_eq!(compare_texts(&chars_of(a), &chars_of(b)), expected, "{a} {b}");
        }
    }
}

#[test]
fn small_text_helpers() {
    assert_eq!(chars_of("微a"), vec!['微', 'a']);
    assert_eq!(joined("标题", "不能为空"), "标题不能为空");
    assert!(same_text("微信", "微信"));
    assert!(!same_text("微信", "微"));
    let mut s = "n=".to_string();
    push_decimal(&mut s, 9070);
    assert_eq!(s, "n=9070");
}
