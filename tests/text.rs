use lumberjack::text::{
    hyphenate_whitespace, is_white, sanitize_segment, strip_dots_and_slashes, to_kebab_case, trimmed,
};

#[test]
fn kebab_case_of_payments_api() {
    assert_eq!(to_kebab_case("Payments API"), "payments-api");
}

#[test]
fn kebab_case_trims_and_hyphenates_inner_whitespace() {
    assert_eq!(to_kebab_case("  My\tBig App \n"), "my-big-app");
    assert_eq!(to_kebab_case("ÉCOLE Ünï"), "école-ünï");
    assert_eq!(to_kebab_case("   "), "");
}

#[test]
fn trimmed_drops_unicode_whitespace() {
    assert_eq!(trimmed("\u{3000} a b \t"), "a b");
    assert_eq!(trimmed(""), "");
}

#[test]
fn sanitize_segment_drops_dots_and_slashes() {
    assert_eq!(sanitize_segment("../Payments-API/"), "payments-api");
    assert_eq!(sanitize_segment("2024-01-15.jsonl"), "2024-01-15jsonl");
}

#[test]
fn hyphenate_and_strip_work_on_given_text() {
    assert_eq!(hyphenate_whitespace("a b\tc\u{2003}d"), "a-b-c-d");
    assert_eq!(strip_dots_and_slashes("a./b/.c"), "abc");
    for c in [' ', '\t', '\n', '\r', '\u{0b}', '\u{0c}', '\u{85}', '\u{a0}', '\u{1680}', '\u{2000}', '\u{200a}', '\u{2028}', '\u{2029}', '\u{202f}', '\u{205f}', '\u{3000}'] {
        assert!(is_white(c) && c.is_whitespace());
    }
    for c in ['a', '0', '\u{200b}', '\u{feff}', '\u{180e}', '-'] {
        assert!(!is_white(c) && !c.is_whitespace());
    }
}

#[test]
fn is_white_agrees_with_std_everywhere() {
    for u in 0..=0x10FFFFu32 {
        if let Some(c) = char::from_u32(u) {
            assert_eq!(is_white(c), c.is_whitespace(), "U+{:04X}", u);
        }
    }
}
