use dtschema::json::Value;
use dtschema::jsontext::{canonical_json, to_json_text};
use dtschema::version_from_text;

#[test]
fn object_insert_keeps_key_order() {
    let mut v = Value::empty_object();
    v.insert("b", Value::Int(1));
    v.insert("a", Value::Int(2));
    v.insert("c", Value::Bool(true));
    assert_eq!(to_json_text(&v), r#"{"a":2,"b":1,"c":true}"#);
    v.insert("b", Value::Null);
    assert_eq!(to_json_text(&v), r#"{"a":2,"b":null,"c":true}"#);
    v.insert_absent("a", Value::Int(9));
    assert_eq!(v.get("a").map(to_json_text), Some("2".to_string()));
    assert_eq!(v.remove("a").map(|x| to_json_text(&x)), Some("2".to_string()));
    assert!(v.get("a").is_none());
    assert!(v.remove("zz").is_none());
}

#[test]
fn canonical_json_sorts_keys() {
    let v = Value::Object(vec![
        ("z".to_string(), Value::Array(vec![Value::Str("q\"".to_string()), Value::Float("1.5".to_string())])),
        ("a".to_string(), Value::Object(vec![("y".to_string(), Value::Null), ("x".to_string(), Value::Int(-3))])),
    ]);
    assert_eq!(canonical_json(&v), r#"{"a":{"x":-3,"y":null},"z":["q\"",1.5]}"#);
    assert_eq!(to_json_text(&v), r#"{"z":["q\"",1.5],"a":{"y":null,"x":-3}}"#);
}

#[test]
fn version_line_is_found() {
    assert_eq!(version_from_text("x = 1\n__version__ = '2.3'\n"), Some("2.3".to_string()));
    assert_eq!(version_from_text("  __version__ = \"1.0.1\"\r\nother"), Some("1.0.1".to_string()));
    assert_eq!(version_from_text("__version__ 'no equals'\n"), None);
    assert_eq!(version_from_text(""), None);
    assert_eq!(version_from_text("__version__ = '"), None);
}

#[test]
fn string_escapes_as_serde_json_writes_them() {
    let v = Value::Str("a\"\\\n\t\u{8}\u{c}\r\u{1}\u{1f}/é".to_string());
    assert_eq!(
        to_json_text(&v),
        "\"a\\\"\\\\\\n\\t\\b\\f\\r\\u0001\\u001f/é\""
    );
}
