//! The hierarchical query layer: filtering by section and listing
//! subsection names.

use std::collections::HashMap;

fn test_map() -> Vec<(String, String)> {
    vec![
        ("a".to_string(), "a".to_string()),
        ("a.b".to_string(), "b".to_string()),
        ("a.c".to_string(), "c".to_string()),
        ("a.b.c".to_string(), "c".to_string()),
    ]
}

fn as_map(v: Vec<(String, String)>) -> HashMap<String, String> {
    let mut r = HashMap::new();
    for (k, val) in v {
        r.insert(k, val);
    }
    r
}

#[test]
fn sub_tree() {
    let mut map = HashMap::<String, String>::new();
    map.insert("b".into(), "b".into());
    map.insert("c".into(), "c".into());
    map.insert("b.c".into(), "c".into());

    assert_eq!(as_map(cni_format::sub_tree(&test_map(), "a")), map);

    assert_eq!(as_map(cni_format::sub_tree(&test_map(), "")), as_map(test_map()));
}

#[test]
fn sub_leaves() {
    let mut map = HashMap::<String, String>::new();
    map.insert("b".into(), "b".into());
    map.insert("c".into(), "c".into());

    assert_eq!(as_map(cni_format::sub_leaves(&test_map(), "a")), map);

    map.clear();
    map.insert("a".into(), "a".into());

    assert_eq!(as_map(cni_format::sub_leaves(&test_map(), "")), map);
}

#[test]
fn walk_tree() {
    let mut map = HashMap::<String, String>::new();
    map.insert("a.b".into(), "b".into());
    map.insert("a.c".into(), "c".into());
    map.insert("a.b.c".into(), "c".into());

    assert_eq!(as_map(cni_format::walk_tree(&test_map(), "a")), map);
    assert_eq!(as_map(cni_format::walk_tree(&test_map(), "a")), map);

    map.insert("a".into(), "a".into());

    assert_eq!(as_map(cni_format::walk_tree(&test_map(), "")), map);
}

#[test]
fn walk_leaves() {
    let mut map = HashMap::<String, String>::new();
    map.insert("a.b".into(), "b".into());
    map.insert("a.c".into(), "c".into());

    assert_eq!(as_map(cni_format::walk_leaves(&test_map(), "a")), map);
    assert_eq!(as_map(cni_format::walk_leaves(&test_map(), "a")), map);

    map.clear();
    map.insert("a".into(), "a".into());

    assert_eq!(as_map(cni_format::walk_leaves(&test_map(), "")), map);
}

#[test]
fn section_tree() {
    assert_eq!(cni_format::section_tree(&test_map(), "a"), vec!["b"]);
    assert_eq!(cni_format::section_tree(&test_map(), ""), vec!["a", "a.b"]);
}

#[test]
fn section_leaves() {
    assert_eq!(cni_format::section_leaves(&test_map(), ""), vec!["a"]);
    println!("---");
    assert_eq!(cni_format::section_leaves(&test_map(), "a"), vec!["b"]);
}
