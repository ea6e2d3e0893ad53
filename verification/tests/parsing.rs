use snapconfig::adapters::{parse_ini, parse_json, parse_toml, parse_yaml};
use snapconfig::parsers::{parse_env, parse_i64, is_float_literal, Format};
use snapconfig::value::{FlatValue, ValueNode};
use snapconfig::order::{sort_pairs, str_cmp};

#[test]
fn test_parse_json_simple() {
    let flat = parse_json(r#"{"key": "value", "num": 42}"#).unwrap();
    assert_eq!(flat.len(), 3); // string, int, object
}

#[test]
fn test_parse_json_nested() {
    let flat = parse_json(r#"{"a": {"b": {"c": 1}}}"#).unwrap();
    assert_eq!(flat.len(), 4); // int, 3 objects
}

#[test]
fn test_parse_yaml() {
    let flat = parse_yaml("key: value\nnum: 42").unwrap();
    assert_eq!(flat.len(), 3);
}

#[test]
fn test_parse_toml() {
    let flat = parse_toml("[section]\nkey = \"value\"").unwrap();
    assert_eq!(flat.len(), 3); // string, section object, root object
}

#[test]
fn test_parse_ini() {
    let flat = parse_ini("[section]\nkey = value").unwrap();
    // 1 string value + 1 section object + 1 root object = 3 or 4
    // (may include empty "default" section)
    assert!(flat.len() >= 3);
}

#[test]
fn test_parse_env() {
    let flat = parse_env("KEY=value\nNUM=42\nBOOL=true");
    assert_eq!(flat.len(), 4); // 3 values + root object
}

#[test]
fn test_parse_env_export() {
    let flat = parse_env("export KEY=value");
    let root_idx = flat.root().expect("expected root");
    if let ValueNode::Object(pairs) = &flat.nodes[root_idx as usize] {
        assert_eq!(pairs.len(), 1);
        assert_eq!(pairs[0].0, "KEY");
    } else {
        panic!("Expected Object");
    }
}

#[test]
fn test_parse_env_quotes() {
    let flat = parse_env("KEY=\"quoted value\"");
    let root_idx = flat.root().expect("expected root");
    if let ValueNode::Object(pairs) = &flat.nodes[root_idx as usize] {
        let value_idx = pairs[0].1;
        if let ValueNode::String(s) = &flat.nodes[value_idx as usize] {
            assert_eq!(s, "quoted value");
        } else {
            panic!("Expected String");
        }
    } else {
        panic!("Expected Object");
    }
}

#[test]
fn test_format_detection() {
    assert_eq!(Format::from_path("config.json"), Some(Format::Json));
    assert_eq!(Format::from_path("config.yaml"), Some(Format::Yaml));
    assert_eq!(Format::from_path("config.yml"), Some(Format::Yaml));
    assert_eq!(Format::from_path("Cargo.toml"), Some(Format::Toml));
    assert_eq!(Format::from_path("settings.ini"), Some(Format::Ini));
    assert_eq!(Format::from_path(".env"), Some(Format::Env));
    assert_eq!(Format::from_path(".env.local"), Some(Format::Env));
}

#[test]
fn test_format_detection_unknown() {
    assert_eq!(Format::from_path("notes.txt"), None);
    assert_eq!(Format::from_path("CONFIG.JSON"), Some(Format::Json));
}

#[test]
fn test_flat_value_new() {
    let fv = FlatValue::new();
    assert!(fv.is_empty());
    assert_eq!(fv.root, None);
}

#[test]
fn test_add_node() {
    let mut fv = FlatValue::new();
    let idx = fv.add_node(ValueNode::Int(42));
    assert_eq!(idx, 0);
    assert_eq!(fv.len(), 1);
}

#[test]
fn test_build_simple_object() {
    let mut fv = FlatValue::new();
    let str_idx = fv.add_node(ValueNode::String("hello".to_string()));
    let int_idx = fv.add_node(ValueNode::Int(42));
    let root = fv.add_node(ValueNode::Object(vec![
        ("name".to_string(), str_idx),
        ("value".to_string(), int_idx),
    ]));
    fv.set_root(root);

    assert_eq!(fv.len(), 3);
    assert_eq!(fv.root, Some(2));
}

#[test]
fn test_env_sorted_and_coerced() {
    // sorted keys BOOL, KEY, NUM with coerced values
    let flat = parse_env("KEY=value\nNUM=42\nBOOL=true");
    let root_idx = flat.root().expect("expected root");
    if let ValueNode::Object(pairs) = &flat.nodes[root_idx as usize] {
        let keys: Vec<&str> = pairs.iter().map(|p| p.0.as_str()).collect();
        assert_eq!(keys, vec!["BOOL", "KEY", "NUM"]);
        assert!(matches!(flat.nodes[pairs[0].1 as usize], ValueNode::Bool(true)));
        assert!(matches!(&flat.nodes[pairs[1].1 as usize], ValueNode::String(s) if s == "value"));
        assert!(matches!(flat.nodes[pairs[2].1 as usize], ValueNode::Int(42)));
    } else {
        panic!("Expected Object");
    }
}

#[test]
fn test_env_comments_and_blanks() {
    let flat = parse_env("# comment\n\nA=1\n  # indented comment\nB=two\n");
    let root_idx = flat.root().unwrap();
    if let ValueNode::Object(pairs) = &flat.nodes[root_idx as usize] {
        assert_eq!(pairs.len(), 2);
        assert_eq!(pairs[0].0, "A");
        assert_eq!(pairs[1].0, "B");
    } else {
        panic!("Expected Object");
    }
}

#[test]
fn test_scalar_coercion_null_and_float() {
    let flat = parse_env("A=NULL\nB=none\nC=3.25\nD=1e3\nE=");
    let root_idx = flat.root().unwrap();
    if let ValueNode::Object(pairs) = &flat.nodes[root_idx as usize] {
        assert!(matches!(flat.nodes[pairs[0].1 as usize], ValueNode::Null));
        assert!(matches!(flat.nodes[pairs[1].1 as usize], ValueNode::Null));
        assert!(matches!(&flat.nodes[pairs[2].1 as usize], ValueNode::Float(t) if t == "3.25"));
        assert!(matches!(&flat.nodes[pairs[3].1 as usize], ValueNode::Float(t) if t == "1e3"));
        assert!(matches!(&flat.nodes[pairs[4].1 as usize], ValueNode::String(s) if s.is_empty()));
    } else {
        panic!("Expected Object");
    }
}

#[test]
fn test_parse_i64_bounds() {
    assert_eq!(parse_i64("9223372036854775807"), Some(i64::MAX));
    assert_eq!(parse_i64("-9223372036854775808"), Some(i64::MIN));
    assert_eq!(parse_i64("9223372036854775808"), None);
    assert_eq!(parse_i64("+17"), Some(17));
    assert_eq!(parse_i64("1.5"), None);
    assert_eq!(parse_i64(""), None);
}

#[test]
fn test_float_literal_shapes() {
    assert!(is_float_literal("1.5"));
    assert!(is_float_literal("-2e10"));
    assert!(is_float_literal("+.5"));
    assert!(is_float_literal("INF"));
    assert!(is_float_literal("nan"));
    assert!(!is_float_literal("1.2.3"));
    assert!(!is_float_literal("abc"));
    assert!(!is_float_literal("1e"));
}

#[test]
fn test_parse_json_error() {
    assert!(matches!(
        parse_json("{not json"),
        Err(snapconfig::error::SnapconfigError::JsonParse(_))
    ));
}

#[test]
fn test_parse_toml_error() {
    assert!(matches!(
        parse_toml("= nope ="),
        Err(snapconfig::error::SnapconfigError::TomlParse(_))
    ));
}

#[test]
fn test_parse_ini_error() {
    assert!(matches!(
        parse_ini("[unclosed"),
        Err(snapconfig::error::SnapconfigError::IniParse(_))
    ));
}

#[test]
fn test_sort_pairs_sorts_by_bytes() {
    let mut pairs = vec![
        ("b".to_string(), 1u32),
        ("A".to_string(), 0u32),
        ("a".to_string(), 2u32),
    ];
    sort_pairs(&mut pairs);
    let keys: Vec<&str> = pairs.iter().map(|p| p.0.as_str()).collect();
    assert_eq!(keys, vec!["A", "a", "b"]);
}

#[test]
fn test_str_cmp_order() {
    assert_eq!(str_cmp("a", "b"), -1);
    assert_eq!(str_cmp("b", "a"), 1);
    assert_eq!(str_cmp("same", "same"), 0);
    assert_eq!(str_cmp("ab", "abc"), -1);
}

#[test]
fn test_env_crlf_lines() {
    let flat = parse_env("A=1\r\nB = spaced \r\n");
    let root_idx = flat.root().unwrap();
    if let ValueNode::Object(pairs) = &flat.nodes[root_idx as usize] {
        assert_eq!(pairs.len(), 2);
        assert!(matches!(flat.nodes[pairs[0].1 as usize], ValueNode::Int(1)));
        assert!(matches!(&flat.nodes[pairs[1].1 as usize], ValueNode::String(s) if s == "spaced"));
    } else {
        panic!("Expected Object");
    }
}

#[test]
fn test_env_duplicate_keys_kept() {
    let flat = parse_env("K=1\nK=2");
    let root_idx = flat.root().unwrap();
    if let ValueNode::Object(pairs) = &flat.nodes[root_idx as usize] {
        assert_eq!(pairs.len(), 2);
        assert_eq!(pairs[0].0, "K");
        assert_eq!(pairs[1].0, "K");
    } else {
        panic!("Expected Object");
    }
}
