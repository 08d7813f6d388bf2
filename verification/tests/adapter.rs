//! The deserialization adapter's decision rules: scalar readings,
//! duplicate detection and the tree walker.

use cni_format::de::Deserializer;
use cni_format::de::Error;
use cni_format::de::Kind;
use cni_format::de::Tree;
use cni_format::de::bool_value;
use cni_format::de::char_value;
use cni_format::de::check_unique;

#[test]
fn bool_words() {
    for word in ["1", "+", "true", "yes", "on", "up", "TRUE", "Yes", "oN"] {
        assert_eq!(bool_value(word), Some(true));
    }
    for word in ["0", "-", "false", "no", "off", "down", "FALSE", "No", "DOWN"] {
        assert_eq!(bool_value(word), Some(false));
    }
    for word in ["2", "", "truth", "maybe"] {
        assert_eq!(bool_value(word), None);
    }
}

#[test]
fn char_reading() {
    assert_eq!(char_value("x"), Some('x'));
    assert_eq!(char_value("\u{2028}"), Some('\u{2028}'));
    assert_eq!(char_value(""), None);
    assert_eq!(char_value("ab"), None);
}

#[test]
fn duplicate_keys_detected() {
    let items = vec![
        ("a".to_string(), "1".to_string(), 1, 5),
        ("b".to_string(), "2".to_string(), 2, 5),
        ("a".to_string(), "3".to_string(), 3, 5),
    ];
    let err = check_unique(&items).unwrap_err();
    assert_eq!(err.line, 3);
    assert_eq!(err.col, 5);
    assert_eq!(err.kind, Kind::DuplicateKey("a".to_string()));

    let unique = vec![
        ("a".to_string(), "1".to_string(), 1, 5),
        ("b".to_string(), "2".to_string(), 2, 5),
    ];
    assert!(check_unique(&unique).is_ok());
}

#[test]
fn walker_hands_out_values() {
    let mut d = Deserializer::new(vec![
        ("k".to_string(), Tree::Value("v".to_string(), 1, 5)),
        ("s".to_string(), Tree::Branch(Vec::new())),
    ]);
    assert_eq!(d.end, Some((1, 5)));
    // entries come out back to front; a branch is no scalar
    let err = d.next().unwrap_err();
    assert_eq!(err.kind, Kind::ExpectedValues);
    assert_eq!((err.line, err.col), (1, 5));
    assert_eq!(d.next(), Ok(("v".to_string(), 1, 5)));
    // past the end the recorded position is reported
    let err = d.next().unwrap_err();
    assert_eq!((err.line, err.col, err.kind), (1, 5, Kind::ExpectedValues));
}

#[test]
fn walker_without_values() {
    let mut d = Deserializer::new(Vec::new());
    assert_eq!(d.end, None);
    let err = d.next().unwrap_err();
    assert_eq!((err.line, err.col, err.kind), (0, 0, Kind::ExpectedValues));
}

#[test]
fn parse_errors_carry_over() {
    let e = cni_format::from_str(".k = v").unwrap_err();
    let carried = Error::from_parse(e.clone());
    assert_eq!(carried.line, e.line);
    assert_eq!(carried.col, e.col);
    assert_eq!(carried.kind, Kind::InvalidKey);
}

#[test]
fn tree_building() {
    let items = vec![
        ("top".to_string(), "1".to_string(), 1, 7),
        ("s.a".to_string(), "2".to_string(), 2, 5),
        ("s.b.c".to_string(), "3".to_string(), 3, 5),
        ("t.x".to_string(), "4".to_string(), 4, 5),
    ];
    let tree = cni_format::de::to_tree(&items);
    let Tree::Branch(children) = tree else {
        panic!("expected a branch at the top");
    };
    // the dotless leaf first, then one subtree per first segment
    assert_eq!(children.len(), 3);
    assert_eq!(children[0].0, "top");
    assert!(matches!(&children[0].1, Tree::Value(v, 1, 7) if v == "1"));
    assert_eq!(children[1].0, "s");
    let Tree::Branch(s_children) = &children[1].1 else {
        panic!("expected a subtree for s");
    };
    assert_eq!(s_children.len(), 2);
    assert_eq!(s_children[0].0, "a");
    assert!(matches!(&s_children[0].1, Tree::Value(v, 2, 5) if v == "2"));
    assert_eq!(s_children[1].0, "b");
    assert!(matches!(&s_children[1].1, Tree::Branch(_)));
    assert_eq!(children[2].0, "t");
    assert!(matches!(&children[2].1, Tree::Branch(_)));
}

#[test]
fn tree_of_empty_store() {
    let tree = cni_format::de::to_tree(&Vec::new());
    assert!(matches!(tree, Tree::Branch(children) if children.is_empty()));
}
