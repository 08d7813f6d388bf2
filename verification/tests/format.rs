//! The `to_str` formatter groups dotted keys under section headers.

use cni_format::to_str;

fn pairs(v: Vec<(&str, &str)>) -> Vec<(String, String)> {
    let mut r: Vec<(String, String)> = Vec::new();
    for (k, val) in v {
        r.push((k.to_string(), val.to_string()));
    }
    r
}

#[test]
fn format_section() {
    let map = pairs(vec![("a.b", "c")]);

    assert_eq!(&to_str(&map), "[a]\nb = c\n");
}

#[test]
fn format_multi_section() {
    let map = pairs(vec![("a.b.c", "d")]);

    assert_eq!(&to_str(&map), "[a]\nb.c = d\n");
}

#[test]
fn format_section_nonalphabetical() {
    let map = pairs(vec![("a.b", "with section header"), ("ccc", "without section header")]);

    assert_eq!(
        &to_str(&map),
        "ccc = without section header\n[a]\nb = with section header\n"
    );
}

#[test]
fn format_multi_value() {
    assert_eq!(&to_str(&pairs(vec![("a", "b"), ("c", "d")])), "a = b\nc = d\n");
}

#[test]
fn format_value_backtick() {
    let map = pairs(vec![("a", "backtick`d")]);

    assert_eq!(&to_str(&map), "a = `backtick``d`\n");
}

#[test]
fn format_value_vertical_whitespace() {
    assert_eq!(&to_str(&pairs(vec![("a", "multi\nline")])), "a = `multi\nline`\n");

    assert_eq!(&to_str(&pairs(vec![("a", "multi\r\nline")])), "a = `multi\r\nline`\n");

    assert_eq!(&to_str(&pairs(vec![("a", "multi\u{b}line")])), "a = `multi\u{b}line`\n");
}

#[test]
fn format_value_comment_symbol() {
    assert_eq!(&to_str(&pairs(vec![("a", "sharp#sign")])), "a = `sharp#sign`\n");

    assert_eq!(&to_str(&pairs(vec![("a", "semi;colon")])), "a = `semi;colon`\n");
}
