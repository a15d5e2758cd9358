use rs_tenant::text::chars_of;
use rs_tenant::text::decimal_string;
use rs_tenant::text::same_chars;
use rs_tenant::text::string_of;
use rs_tenant::text::trim_bounds;
use rs_tenant::text::with_char;

#[test]
fn decimal_should_agree_with_the_standard_library() {
    for n in [0usize, 1, 9, 10, 11, 99, 100, 101, 12345, 1 << 20, usize::MAX - 1, usize::MAX] {
        assert_eq!(decimal_string(n), n.to_string());
    }
    for n in 0usize..2000 {
        assert_eq!(decimal_string(n), n.to_string());
    }
}

#[test]
fn chars_should_round_trip() {
    for text in ["", "a", "hello world", "\u{e9}\u{1f600}x", " : * "] {
        let chars = chars_of(text);
        assert_eq!(chars, text.chars().collect::<Vec<char>>());
        assert_eq!(string_of(&chars, 0, chars.len()), text);
    }
    let chars = chars_of("invoice:read");
    assert_eq!(string_of(&chars, 0, 7), "invoice");
    assert_eq!(string_of(&chars, 8, 12), "read");
    assert_eq!(string_of(&chars, 5, 5), "");
    assert_eq!(with_char(String::from("ab"), 'c'), "abc");
}

#[test]
fn trim_should_agree_with_the_standard_library() {
    for text in [
        "",
        " ",
        "a",
        "  a  ",
        "\t\na b\r\n",
        "\u{a0}x\u{2028}",
        " \u{200b} ",
        "\u{85}\u{1680}y z\u{205f}\u{3000}",
        "x \u{b}\u{c}",
    ] {
        let chars = chars_of(text);
        let (a, b) = trim_bounds(&chars);
        assert_eq!(string_of(&chars, a, b), text.trim(), "for {text:?}");
    }
}

#[test]
fn same_chars_should_compare_ranges() {
    let a = chars_of("invoice:read");
    let b = chars_of("xinvoice");
    assert!(same_chars(&a, 0, 7, &b, 1, 8));
    assert!(!same_chars(&a, 0, 7, &b, 0, 7));
    assert!(!same_chars(&a, 0, 7, &b, 1, 7));
    assert!(same_chars(&a, 3, 3, &b, 8, 8));
}
