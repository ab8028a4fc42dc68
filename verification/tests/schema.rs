use dtschema::json::Value;
use dtschema::schema::{
    format_meta_error, format_meta_errors, is_node_schema, reference_paths_of, schema_allows_no_undefined_props,
    sort_lines, DTSchema,
};
use dtschema::validator::PathSeg;

fn from_serde(v: &serde_json::Value) -> Value {
    match v {
        serde_json::Value::Null => Value::Null,
        serde_json::Value::Bool(b) => Value::Bool(*b),
        serde_json::Value::Number(n) => match (n.as_i64(), n.as_u64()) {
            (Some(i), _) => Value::Int(i as i128),
            (None, Some(u)) => Value::Int(u as i128),
            _ => Value::Float(n.to_string()),
        },
        serde_json::Value::String(s) => Value::Str(s.clone()),
        serde_json::Value::Array(a) => Value::Array(a.iter().map(from_serde).collect()),
        serde_json::Value::Object(m) => {
            Value::Object(m.iter().map(|(k, v)| (k.clone(), from_serde(v))).collect())
        }
    }
}

fn val(text: &str) -> Value {
    from_serde(&serde_json::from_str(text).unwrap())
}

fn doc(text: &str) -> DTSchema {
    DTSchema { value: val(text), filename: "f.yaml".to_string() }
}

#[test]
fn ids_lose_trailing_hash() {
    let d = doc(r#"{"$id": "http://x/a.yaml#", "$schema": "http://meta/core.yaml#"}"#);
    assert_eq!(d.id(), Some("http://x/a.yaml".to_string()));
    assert_eq!(d.meta_schema_id(), Some("http://meta/core.yaml".to_string()));
    assert_eq!(doc("{}").id(), None);
}

#[test]
fn node_schema_shapes() {
    assert!(is_node_schema(&val(r#"{"type": "object"}"#)));
    assert!(is_node_schema(&val(r#"{"unevaluatedProperties": false}"#)));
    assert!(!is_node_schema(&val(r#"{"type": "string"}"#)));
    assert!(!is_node_schema(&val("true")));
    assert!(schema_allows_no_undefined_props(&val(r#"{"type": "string"}"#)));
    assert!(schema_allows_no_undefined_props(&val(r#"{"properties": {}, "additionalProperties": false}"#)));
    assert!(schema_allows_no_undefined_props(&val(r#"{"properties": {}, "unevaluatedProperties": {"type": "object"}}"#)));
    assert!(!schema_allows_no_undefined_props(&val(r#"{"properties": {}}"#)));
    assert!(!schema_allows_no_undefined_props(&val(r#"{"properties": {}, "additionalProperties": true}"#)));
}

#[test]
fn refs_to_open_schemas_are_reported() {
    let d = doc(
        r#"{"properties": {"child": {"type": "object", "$ref": "/schemas/foo.yaml#"},
                           "ok": {"type": "object", "$ref": "/schemas/bar.yaml"}},
            "additionalProperties": false}"#,
    );
    assert_eq!(d.ref_targets(), vec!["/schemas/foo.yaml", "/schemas/bar.yaml"]);
    let table = vec![("/schemas/foo.yaml".to_string(), false), ("/schemas/bar.yaml".to_string(), true)];
    assert_eq!(
        d.check_schema_refs(&table),
        vec!["f.yaml: child: Missing additionalProperties/unevaluatedProperties constraint"]
    );
    assert!(d.check_schema_refs(&Vec::new()).is_empty());
}

#[test]
fn open_top_level_reports_nothing() {
    let d = doc(r#"{"properties": {"child": {"type": "object", "$ref": "/schemas/foo.yaml#"}}}"#);
    let table = vec![("/schemas/foo.yaml".to_string(), false)];
    assert!(d.check_schema_refs(&table).is_empty());
}

#[test]
fn meta_error_lines() {
    let path = vec![PathSeg::Key("properties".to_string()), PathSeg::Index(0)];
    assert_eq!(format_meta_error("/abs/a.yaml", &path, "bad"), "/abs/a.yaml: properties:0: bad");
    assert_eq!(format_meta_error("/abs/a.yaml", &Vec::new(), "bad"), "/abs/a.yaml: bad");
    let errs = vec![
        (vec![PathSeg::Key("b".to_string())], "y".to_string()),
        (vec![PathSeg::Key("a".to_string())], "x".to_string()),
    ];
    assert_eq!(format_meta_errors("p", &errs), vec!["p: a: x", "p: b: y"]);
}

#[test]
fn lines_sort_ascending() {
    let lines = vec!["b".to_string(), "a".to_string(), "c".to_string(), "a".to_string(), "B".to_string()];
    assert_eq!(sort_lines(lines), vec!["B", "a", "a", "b", "c"]);
}

#[test]
fn structural_schema_check() {
    assert!(doc(r#"{"type": "object", "properties": {"a": true}}"#).check_schema_valid().is_ok());
    assert!(doc(r#"{"type": 5}"#).check_schema_valid().is_err());
}

#[test]
fn reference_paths_of_devicetree_uris() {
    assert_eq!(
        reference_paths_of("http://devicetree.org/schemas/foo/bar.yaml#"),
        vec!["schemas/foo/bar.yaml".to_string(), "foo/bar.yaml".to_string()]
    );
    assert_eq!(
        reference_paths_of("http://devicetree.org/meta-schemas/core.yaml"),
        vec!["meta-schemas/core.yaml".to_string()]
    );
    assert!(reference_paths_of("http://example.com/schemas/x.yaml").is_empty());
}
