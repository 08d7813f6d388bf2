//! The command line output formats: CNI with a section threshold, the
//! custom record layout, and the plain dump.

use cni_format::Format;
use cni_format::dump;

fn pairs(v: Vec<(&str, &str)>) -> Vec<(String, String)> {
    let mut r: Vec<(String, String)> = Vec::new();
    for (k, val) in v {
        r.push((k.to_string(), val.to_string()));
    }
    r
}

#[test]
fn format_cni_without_sections() {
    let map = pairs(vec![("a.b", "c"), ("x", "1")]);
    // threshold zero writes plain lines in store order
    assert_eq!(
        cni_format::formatter::format(&map, Format::Cni(0)),
        "a.b = c\nx = 1\n"
    );
}

#[test]
fn format_cni_threshold_met() {
    let map = pairs(vec![("x", "1"), ("a.b", "2"), ("a.c", "3")]);
    assert_eq!(
        cni_format::formatter::format(&map, Format::Cni(2)),
        "x = 1\n[a]\nb = 2\nc = 3\n"
    );
}

#[test]
fn format_cni_threshold_not_met() {
    let map = pairs(vec![("x", "1"), ("a.b", "2"), ("a.c", "3")]);
    assert_eq!(
        cni_format::formatter::format(&map, Format::Cni(3)),
        "x = 1\na.b = 2\na.c = 3\n"
    );
}

#[test]
fn format_custom_records() {
    let map = pairs(vec![("a", "1"), ("b", "2")]);
    let csv = cni_format::formatter::format(
        &map,
        Format::Custom(Some("".to_string()), Some(",\"".to_string()), "\"\n".to_string()),
    );
    assert_eq!(csv, "a1,\"\"\nb2,\"\"\n");
}

#[test]
fn format_custom_without_keys() {
    let map = pairs(vec![("a", "1"), ("b", "2")]);
    let out = cni_format::formatter::format(
        &map,
        Format::Custom(None, Some("=".to_string()), "\0".to_string()),
    );
    assert_eq!(out, "1=\02=\0");
}

#[test]
fn format_cni_empty_value_as_comment() {
    let map = pairs(vec![("a", "")]);
    assert_eq!(cni_format::formatter::format(&map, Format::Cni(0)), "a = #empty\n");
}

#[test]
fn dump_with_separators() {
    let map = pairs(vec![("k", "v"), ("a", "b")]);
    assert_eq!(dump(&map, ("<", "|", ">\n")), "<k|v>\n<a|b>\n");
}

#[test]
fn dump_empty_store() {
    assert_eq!(dump(&Vec::new(), ("", " = ", "\n")), "");
}
