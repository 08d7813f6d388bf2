//! The strict parser: accepted documents, error positions and dialect
//! gating.

use std::collections::HashMap;

use cni_format::Opts;
use cni_format::error::Kind;
use cni_format::from_str;
use cni_format::from_str_opts;

fn as_map(v: Vec<(String, String)>) -> HashMap<String, String> {
    let mut r = HashMap::new();
    for (k, val) in v {
        r.insert(k, val);
    }
    r
}

#[test]
fn parses_flat_pairs() {
    let parsed = as_map(from_str("a = b\nc = d\n").unwrap());
    let mut want = HashMap::new();
    want.insert("a".to_string(), "b".to_string());
    want.insert("c".to_string(), "d".to_string());
    assert_eq!(parsed, want);
}

#[test]
fn section_scoping() {
    // a section header prefixes every following key
    let parsed = as_map(from_str("[s]\nk = v\n").unwrap());
    let mut want = HashMap::new();
    want.insert("s.k".to_string(), "v".to_string());
    assert_eq!(parsed, want);
}

#[test]
fn unterminated_raw_position() {
    // the error points at the opening backtick, not the end of input
    let err = from_str("a = `").unwrap_err();
    assert_eq!(err.line, 1);
    assert_eq!(err.col, 5);
    assert_eq!(err.kind, Kind::UnterminatedRaw);
}

#[test]
fn dotted_key_rejected() {
    let err = from_str(".k = v").unwrap_err();
    assert_eq!(err.kind, Kind::InvalidKey);

    let err = from_str("k. = v").unwrap_err();
    assert_eq!(err.kind, Kind::InvalidKey);
}

#[test]
fn escaped_backtick_value() {
    let parsed = as_map(from_str("k = `a``b`").unwrap());
    assert_eq!(parsed.get("k").unwrap(), "a`b");
}

#[test]
fn raw_value_keeps_whitespace_and_comments() {
    let parsed = as_map(from_str("k = ` a # b \n c `").unwrap());
    assert_eq!(parsed.get("k").unwrap(), " a # b \n c ");
}

#[test]
fn bareword_is_trimmed_and_comment_cut() {
    let parsed = as_map(from_str("k =   some words   # comment").unwrap());
    assert_eq!(parsed.get("k").unwrap(), "some words");
}

#[test]
fn empty_input_is_empty_map() {
    assert_eq!(from_str("").unwrap(), vec![]);
    assert_eq!(from_str("  \n\n# only a comment\n").unwrap(), vec![]);
}

#[test]
fn duplicate_keys_last_wins() {
    let parsed = from_str("a = 1\na = 2\n").unwrap();
    assert_eq!(parsed, vec![("a".to_string(), "2".to_string())]);
}

#[test]
fn missing_equals_is_reported() {
    let err = from_str("key value").unwrap_err();
    assert_eq!(err.kind, Kind::ExpectedEquals);
}

#[test]
fn unclosed_section_is_reported() {
    let err = from_str("[s\nk = v").unwrap_err();
    assert_eq!(err.kind, Kind::ExpectedSectionEnd);

    let err = from_str("[").unwrap_err();
    assert_eq!(err.kind, Kind::ExpectedSectionEnd);
}

#[test]
fn key_expected_for_bare_equals() {
    let err = from_str("= v").unwrap_err();
    assert_eq!(err.kind, Kind::ExpectedKey);
}

#[test]
fn ini_comment_only_with_dialect() {
    // with the ini extension a semicolon starts a comment
    let with_ini = as_map(
        from_str_opts("k = v ; rest", Opts { ini: true, more_keys: false }).unwrap(),
    );
    assert_eq!(with_ini.get("k").unwrap(), "v");

    // without it the semicolon is part of the value
    let without = as_map(from_str("k = v ; rest").unwrap());
    assert_eq!(without.get("k").unwrap(), "v ; rest");
}

#[test]
fn more_keys_only_with_dialect() {
    // the wide key character set is only accepted with the extension
    let wide = from_str_opts("k+y = v", Opts { ini: false, more_keys: true }).unwrap();
    assert_eq!(wide, vec![("k+y".to_string(), "v".to_string())]);

    let err = from_str("k+y = v").unwrap_err();
    assert_eq!(err.kind, Kind::ExpectedEquals);
}

#[test]
fn crlf_counts_as_one_line_break() {
    // the error on line 2 sees CRLF as a single vertical unit
    let err = from_str("a = b\r\n.k = v").unwrap_err();
    assert_eq!(err.line, 2);
    assert_eq!(err.col, 1);
    assert_eq!(err.kind, Kind::InvalidKey);
}

#[test]
fn last_pos_tracks_values() {
    let mut p = cni_format::CniParser::new("a = b\nc = d\n");
    assert_eq!(p.last_pos(), None);
    let first = p.next().unwrap().unwrap();
    assert_eq!(first, ("a".to_string(), "b".to_string()));
    assert_eq!(p.last_pos(), Some((1, 5)));
    let second = p.next().unwrap().unwrap();
    assert_eq!(second, ("c".to_string(), "d".to_string()));
    assert_eq!(p.last_pos(), Some((2, 5)));
    assert!(p.next().is_none());
}

#[test]
fn parser_stops_after_error() {
    let mut p = cni_format::CniParser::new(".a = b\nc = d\n");
    assert!(p.next().unwrap().is_err());
    // the walk is over after an error
    assert!(p.next().is_none());
    assert!(p.next().is_none());
}

#[test]
fn error_kind_messages() {
    assert_eq!(Kind::ExpectedSectionEnd.message(), "expected \"]\"");
    assert_eq!(Kind::InvalidKey.message(), "invalid key, can not start or end with a dot");
    assert_eq!(Kind::ExpectedKey.message(), "expected key");
    assert_eq!(Kind::ExpectedEquals.message(), "expected \"=\"");
    assert_eq!(Kind::UnterminatedRaw.message(), "unterminated raw value");
}

#[test]
fn round_trip_concrete() {
    // parse(format(map)) == map on a concrete store
    let map = vec![
        ("name".to_string(), "value".to_string()),
        ("raw".to_string(), "with ` and #".to_string()),
        ("empty".to_string(), "".to_string()),
    ];
    let text = cni_format::to_str(&map);
    let back = as_map(from_str(&text).unwrap());
    assert_eq!(back, as_map(map));
}

#[test]
fn format_idempotent_concrete() {
    // format(parse(format(map))) == format(map) on a concrete store
    let map = vec![
        ("b".to_string(), "2".to_string()),
        ("a".to_string(), "1".to_string()),
        ("s.k".to_string(), "v".to_string()),
    ];
    let once = cni_format::to_str(&map);
    let again = cni_format::to_str(&from_str(&once).unwrap());
    assert_eq!(once, again);
}

#[test]
fn round_trip_sections() {
    // parse(format(map)) == map with dotted keys and sections
    let map = vec![
        ("top".to_string(), "1".to_string()),
        ("s.k".to_string(), "v".to_string()),
        ("s.t.u".to_string(), "w".to_string()),
        ("other.x".to_string(), "`tricky`".to_string()),
    ];
    let text = cni_format::to_str(&map);
    let back = as_map(from_str(&text).unwrap());
    assert_eq!(back, as_map(map));
}

#[test]
fn section_end_error_at_header_start() {
    // the missing bracket is reported at the column the header began
    let err = from_str("[s x]").unwrap_err();
    assert_eq!((err.line, err.col), (1, 2));
    assert_eq!(err.kind, Kind::ExpectedSectionEnd);
}
