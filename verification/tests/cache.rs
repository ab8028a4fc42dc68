use dtschema::cache::{
    cache_document, cached_diagnostics, hex, map_diagnostic_filename, sha256_hex, CacheOptions,
    ValidationCache,
};
use dtschema::json::Value;
use dtschema::jsontext::canonical_json;
use sha2::Digest;

fn from_serde(v: &serde_json::Value) -> Value {
    match v {
        serde_json::Value::Null => Value::Null,
        serde_json::Value::Bool(b) => Value::Bool(*b),
        serde_json::Value::Number(n) => match (n.as_i64(), n.as_u64()) {
            (Some(i), _) => Value::Int(i as i128),
            (None, Some(u)) => Value::Int(u as i128),
            _ => Value::Float(n.to_string()),
        },
        serde_json::Value::String(s) => Value::Str(s.clone()),
        serde_json::Value::Array(a) => Value::Array(a.iter().map(from_serde).collect()),
        serde_json::Value::Object(m) => {
            Value::Object(m.iter().map(|(k, v)| (k.clone(), from_serde(v))).collect())
        }
    }
}

fn val(text: &str) -> Value {
    from_serde(&serde_json::from_str(text).unwrap())
}

#[test]
fn hex_is_two_lowercase_digits_per_byte() {
    assert_eq!(hex(&[0x00, 0xff, 0x1a, 0x09]), "00ff1a09");
    assert_eq!(hex(&[]), "");
}

#[test]
fn sha256_hex_of_abc() {
    assert_eq!(
        sha256_hex(b"abc"),
        "ba7816bf8f01cfea414140de5dae2223b00361a396177a9cb410ff61f20015ad"
    );
}

fn options() -> CacheOptions {
    CacheOptions {
        compatible_match: true,
        limit: Some(vec!["a".to_string()]),
        show_unmatched: false,
        verbose: false,
    }
}

#[test]
fn cache_options_json() {
    assert_eq!(
        canonical_json(&options().to_json()),
        r#"{"compatible_match":true,"limit":["a"],"show_unmatched":false,"verbose":false}"#
    );
    let none = CacheOptions { compatible_match: false, limit: None, show_unmatched: true, verbose: true };
    assert_eq!(
        canonical_json(&none.to_json()),
        r#"{"compatible_match":false,"limit":null,"show_unmatched":true,"verbose":true}"#
    );
}

#[test]
fn cache_key_hashes_the_canonical_key_object() {
    let cache = ValidationCache::new("/tmp/c".to_string(), None, "1.0".to_string(), &options());
    let key = cache.cache_key("h");
    let text = r#"{"cache_version":2,"dtb_hash":"h","dtschema_version":"1.0","options":{"compatible_match":true,"limit":["a"],"show_unmatched":false,"verbose":false},"schema_hash":null}"#;
    let expected = hex(&sha2::Sha256::digest(text.as_bytes()));
    assert_eq!(key, expected);
    assert_ne!(cache.cache_key("h2"), key);
    let with_schema =
        ValidationCache::new("/tmp/c".to_string(), Some("s".to_string()), "1.0".to_string(), &options());
    assert_ne!(with_schema.cache_key("h"), key);
}

#[test]
fn stored_diagnostics_name_the_sentinel() {
    let d = val(r#"{"file": "board.dtb", "formatted": "board.dtb: x\n\tboard.dtb: y", "message": "m",
                 "nested": [{"file": "board.dtb"}, {"file": "other.dtb"}]}"#);
    let doc = cache_document(&vec![d], "board.dtb");
    assert_eq!(
        canonical_json(&doc),
        r#"{"cache_version":2,"diagnostics":[{"file":"$dtb","formatted":"$dtb: x\n\t$dtb: y","message":"m","nested":[{"file":"$dtb"},{"file":"other.dtb"}]}]}"#
    );
}

#[test]
fn cache_round_trip_gives_diagnostics_back() {
    let text = r#"{"file": "board.dtb", "formatted": "board.dtb: x\n  board.dtb: y\n", "message": "m"}"#;
    let d = val(text);
    let doc = cache_document(&vec![dtschema::json::copy_value(&d)], "board.dtb");
    let back = cached_diagnostics(&doc, "board.dtb").unwrap();
    assert_eq!(back.len(), 1);
    assert_eq!(canonical_json(&back[0]), canonical_json(&d));
    let moved = cached_diagnostics(&doc, "new.dtb").unwrap();
    assert_eq!(moved[0].get_str("file"), Some("new.dtb"));
}

#[test]
fn cached_document_without_list() {
    assert!(cached_diagnostics(&val(r#"{"cache_version": 2}"#), "x").is_none());
    assert!(cached_diagnostics(&val(r#"{"diagnostics": {}}"#), "x").is_none());
}

#[test]
fn map_filename_keeps_other_members() {
    let d = val(r#"{"file": "a", "files": "a", "formatted": 3, "x": ["a"]}"#);
    let m = map_diagnostic_filename(&d, "a", "b");
    assert_eq!(canonical_json(&m), r#"{"file":"b","files":"a","formatted":3,"x":["a"]}"#);
}
