use snapconfig::adapters::parse_json;
use snapconfig::cache::{cache_info, default_cache_path, load_decision, LoadDecision};
use snapconfig::codec::{encode, open_archive};
use snapconfig::config::{loads, open_handle};
use snapconfig::error::TraversalError;
use snapconfig::parsers::parse_env;
use snapconfig::project::{env_assignments, i64_to_string};
use snapconfig::reader::{find_key_in_object, materialize_node, ConfigValue};
use snapconfig::value::ValueNode;

#[test]
fn test_round_trip_env_tree() {
    let tree = parse_env("A=1\nB=true\nC=text");
    let bytes = encode(&tree).unwrap();
    let again = open_archive(&bytes).unwrap();
    assert_eq!(again.len(), tree.len());
    assert_eq!(again.root, tree.root);
    let bytes2 = encode(&again).unwrap();
    assert_eq!(bytes, bytes2); // deterministic encoding
}

#[test]
fn test_open_rejects_empty_and_truncated() {
    assert!(open_archive(&[]).is_err());
    let tree = parse_env("A=1");
    let bytes = encode(&tree).unwrap();
    assert!(open_archive(&bytes[..bytes.len() - 1]).is_err());
    let mut extra = bytes.clone();
    extra.push(0);
    assert!(open_archive(&extra).is_err());
}

#[test]
fn test_path_get_nested() {
    // compiling {"a":{"b":{"c":1}}} then path_get "a.b.c" reaches Int(1)
    let tree = parse_json(r#"{"a":{"b":{"c":1}}}"#).unwrap();
    let bytes = encode(&tree).unwrap();
    let handle = open_handle(&bytes, "cache".to_string(), None).unwrap();
    let idx = handle.get("a.b.c").unwrap();
    assert!(matches!(handle.tree.nodes[idx as usize], ValueNode::Int(1)));
}

#[test]
fn test_path_get_array_index() {
    let tree = parse_json("[10, 20, 30]").unwrap();
    let bytes = encode(&tree).unwrap();
    let handle = open_handle(&bytes, "cache".to_string(), None).unwrap();
    let idx = handle.get("2").unwrap();
    assert!(matches!(handle.tree.nodes[idx as usize], ValueNode::Int(30)));
    assert!(matches!(
        handle.get("x"),
        Err(TraversalError::TypeMismatch(_))
    ));
    assert!(matches!(
        handle.get("9"),
        Err(TraversalError::IndexOutOfBounds(_))
    ));
}

#[test]
fn test_path_get_key_not_found() {
    let tree = parse_json(r#"{"a": 1}"#).unwrap();
    let bytes = encode(&tree).unwrap();
    let handle = open_handle(&bytes, "cache".to_string(), None).unwrap();
    match handle.get("missing") {
        Err(TraversalError::KeyNotFound(seg)) => assert_eq!(seg, "missing"),
        other => panic!("expected KeyNotFound, got {:?}", other),
    }
    assert!(matches!(
        handle.get("a.deeper"),
        Err(TraversalError::TypeMismatch(_))
    ));
}

#[test]
fn test_handle_keys_len_contains() {
    let tree = parse_env("B=2\nA=1");
    let bytes = encode(&tree).unwrap();
    let handle = open_handle(&bytes, "cache".to_string(), None).unwrap();
    let keys = handle.keys().unwrap();
    assert_eq!(keys, vec!["A".to_string(), "B".to_string()]);
    assert_eq!(handle.len().unwrap(), 2);
    assert!(handle.contains("A").unwrap());
    assert!(!handle.contains("Z").unwrap());
    assert_eq!(handle.root_type(), "object");
}

#[test]
fn test_find_key_linear_scan_agreement() {
    // lookup result equals a linear scan result, duplicates included
    let pairs = vec![
        ("a".to_string(), 0u32),
        ("b".to_string(), 1u32),
        ("b".to_string(), 2u32),
        ("c".to_string(), 3u32),
    ];
    let linear = pairs.iter().find(|p| p.0 == "b").map(|p| p.1);
    assert_eq!(find_key_in_object(&pairs, "b"), linear);
    assert_eq!(find_key_in_object(&pairs, "zzz"), None);
}

#[test]
fn test_materialize_subtree() {
    let tree = parse_json(r#"{"xs": [1, 2], "name": "n"}"#).unwrap();
    let root = tree.root().unwrap();
    let value = materialize_node(&tree, root);
    match value {
        ConfigValue::Object(entries) => {
            assert_eq!(entries.len(), 2);
            assert_eq!(entries[0].0, "name");
            assert!(matches!(&entries[0].1, ConfigValue::Str(s) if s == "n"));
            match &entries[1].1 {
                ConfigValue::Array(xs) => {
                    assert!(matches!(xs[0], ConfigValue::Int(1)));
                    assert!(matches!(xs[1], ConfigValue::Int(2)));
                }
                other => panic!("expected array, got {:?}", other),
            }
        }
        other => panic!("expected object, got {:?}", other),
    }
}

#[test]
fn test_loads_dispatch() {
    let v = loads("{\"k\": 5}", "json").unwrap();
    assert!(matches!(v, ConfigValue::Object(_)));
    let v = loads("K=1", "env").unwrap();
    assert!(matches!(v, ConfigValue::Object(_)));
    assert!(matches!(
        loads("x", "parquet"),
        Err(snapconfig::error::SnapconfigError::UnknownFormat(_))
    ));
}

#[test]
fn test_load_decision_staleness() {
    // source newer than cache: always recompile
    assert_eq!(
        load_decision(false, Some(10), Some(5)),
        LoadDecision::Recompile
    );
    // cache at least as new, no force: never recompile
    assert_eq!(load_decision(false, Some(5), Some(5)), LoadDecision::UseCache);
    assert_eq!(load_decision(false, Some(4), Some(5)), LoadDecision::UseCache);
    // forced recompilation
    assert_eq!(
        load_decision(true, Some(4), Some(5)),
        LoadDecision::Recompile
    );
    // no cache yet
    assert_eq!(load_decision(false, Some(4), None), LoadDecision::Recompile);
    // both missing / source missing
    assert_eq!(load_decision(false, None, None), LoadDecision::MissingBoth);
    assert_eq!(load_decision(true, None, Some(5)), LoadDecision::MissingSource);
}

#[test]
fn test_cache_info_reporting() {
    let info = cache_info("app.json", Some((10, 5)), None);
    assert!(info.source_exists);
    assert!(!info.cache_exists);
    assert_eq!(info.cache_path, "app.json.snapconfig");
    assert_eq!(info.source_size, Some(10));
    assert_eq!(info.cache_size, None);
    assert_eq!(info.cache_fresh, None);
    let info = cache_info("app.json", Some((10, 5)), Some((20, 7)));
    assert_eq!(info.cache_fresh, Some(true));
    let info = cache_info("app.json", Some((10, 9)), Some((20, 7)));
    assert_eq!(info.cache_fresh, Some(false));
}

#[test]
fn test_default_cache_path() {
    assert_eq!(default_cache_path("conf/.env"), "conf/.env.snapconfig");
}

#[test]
fn test_i64_to_string_values() {
    assert_eq!(i64_to_string(0), "0");
    assert_eq!(i64_to_string(42), "42");
    assert_eq!(i64_to_string(-7), "-7");
    assert_eq!(i64_to_string(i64::MIN), "-9223372036854775808");
    assert_eq!(i64_to_string(i64::MAX), "9223372036854775807");
}

#[test]
fn test_env_assignments_projection() {
    let tree = parse_env("A=1\nB=true\nC=\nD=hello");
    let root = tree.root().unwrap();
    let existing = vec!["B".to_string()];
    let out = env_assignments(&tree, root, &existing, false);
    assert_eq!(
        out,
        vec![
            ("A".to_string(), "1".to_string()),
            ("C".to_string(), "".to_string()),
            ("D".to_string(), "hello".to_string()),
        ]
    );
    let out = env_assignments(&tree, root, &existing, true);
    assert_eq!(out.len(), 4);
    assert_eq!(out[1], ("B".to_string(), "true".to_string()));
}

#[test]
fn test_yaml_values_through_archive() {
    let tree = snapconfig::adapters::parse_yaml("key: value\nnum: 42").unwrap();
    let bytes = encode(&tree).unwrap();
    let handle = open_handle(&bytes, "c".to_string(), None).unwrap();
    let idx = handle.get("num").unwrap();
    assert!(matches!(handle.tree.nodes[idx as usize], ValueNode::Int(42)));
    let idx = handle.get("key").unwrap();
    assert!(matches!(&handle.tree.nodes[idx as usize], ValueNode::String(s) if s == "value"));
}

#[test]
fn test_toml_values_through_archive() {
    let tree = snapconfig::adapters::parse_toml("[db]\nport = 5432\nhost = \"h\"").unwrap();
    let bytes = encode(&tree).unwrap();
    let handle = open_handle(&bytes, "c".to_string(), None).unwrap();
    let idx = handle.get("db.port").unwrap();
    assert!(matches!(handle.tree.nodes[idx as usize], ValueNode::Int(5432)));
    let idx = handle.get("db.host").unwrap();
    assert!(matches!(&handle.tree.nodes[idx as usize], ValueNode::String(s) if s == "h"));
}

#[test]
fn test_all_kinds_round_trip() {
    let tree = parse_json(r#"{"a": null, "b": true, "c": false, "d": -3, "e": 2.5, "f": "s", "g": [1, [2]], "h": {}}"#)
        .unwrap();
    let bytes = encode(&tree).unwrap();
    let again = open_archive(&bytes).unwrap();
    assert_eq!(encode(&again).unwrap(), bytes);
    let handle = open_handle(&bytes, "c".to_string(), None).unwrap();
    let idx = handle.get("e").unwrap();
    assert!(matches!(&handle.tree.nodes[idx as usize], ValueNode::Float(t) if t == "2.5"));
    let idx = handle.get("g.1.0").unwrap();
    assert!(matches!(handle.tree.nodes[idx as usize], ValueNode::Int(2)));
    assert!(matches!(
        handle.get("h.anything"),
        Err(TraversalError::KeyNotFound(_))
    ));
}

#[test]
fn test_env_assignments_duplicate_keys() {
    // without override, a key written earlier in the run counts as defined
    let tree = parse_env("K=1\nJ=2\nK=3");
    let root = tree.root().unwrap();
    let none: Vec<String> = vec![];
    let out = env_assignments(&tree, root, &none, false);
    let keys: Vec<&str> = out.iter().map(|p| p.0.as_str()).collect();
    assert_eq!(keys, vec!["J", "K"]);
    // overriding writes every occurrence; the later value wins downstream
    let out = env_assignments(&tree, root, &none, true);
    assert_eq!(out.len(), 3);
}

#[test]
fn test_traversal_error_payloads() {
    let tree = parse_json(r#"{"a": 1, "xs": [5]}"#).unwrap();
    let bytes = encode(&tree).unwrap();
    let handle = open_handle(&bytes, "c".to_string(), None).unwrap();
    // a scalar hit names the node kind
    match handle.get("a.b") {
        Err(TraversalError::TypeMismatch(m)) => assert_eq!(m, "int"),
        other => panic!("expected TypeMismatch, got {:?}", other),
    }
    // a non-numeric segment on an array names the segment
    match handle.get("xs.first") {
        Err(TraversalError::TypeMismatch(m)) => assert_eq!(m, "first"),
        other => panic!("expected TypeMismatch, got {:?}", other),
    }
    // an out-of-range segment is carried verbatim
    match handle.get("xs.7") {
        Err(TraversalError::IndexOutOfBounds(m)) => assert_eq!(m, "7"),
        other => panic!("expected IndexOutOfBounds, got {:?}", other),
    }
    // direct element access names the index
    match snapconfig::reader::get_by_index(&handle.tree, handle.get("xs").unwrap(), 9) {
        Err(TraversalError::IndexOutOfBounds(m)) => assert_eq!(m, "9"),
        other => panic!("expected IndexOutOfBounds, got {:?}", other),
    }
}

#[test]
fn test_loads_error_variants() {
    assert!(matches!(
        loads("{broken", "json"),
        Err(snapconfig::error::SnapconfigError::JsonParse(_))
    ));
    assert!(matches!(
        loads("= nope =", "TOML"),
        Err(snapconfig::error::SnapconfigError::TomlParse(_))
    ));
}
