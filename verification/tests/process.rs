use dtschema::json::Value;
use dtschema::jsontext::canonical_json;
use dtschema::process::{add_processed, finish_processed, insert_processed, ProcessError, ProcessedSchemas};

fn from_serde(v: &serde_json::Value) -> Value {
    match v {
        serde_json::Value::Null => Value::Null,
        serde_json::Value::Bool(b) => Value::Bool(*b),
        serde_json::Value::Number(n) => match (n.as_i64(), n.as_u64()) {
            (Some(i), _) => Value::Int(i as i128),
            (None, Some(u)) => Value::Int(u as i128),
            _ => Value::Float(n.to_string()),
        },
        serde_json::Value::String(s) => Value::Str(s.clone()),
        serde_json::Value::Array(a) => Value::Array(a.iter().map(from_serde).collect()),
        serde_json::Value::Object(m) => {
            Value::Object(m.iter().map(|(k, v)| (k.clone(), from_serde(v))).collect())
        }
    }
}

fn val(text: &str) -> Value {
    from_serde(&serde_json::from_str(text).unwrap())
}

fn keys(m: &[(String, Value)]) -> Vec<String> {
    m.iter().map(|(k, _)| k.clone()).collect()
}

#[test]
fn processed_schemas_are_keyed_by_id() {
    let mut schemas: Vec<(String, Value)> = Vec::new();
    let mut warnings: Vec<String> = Vec::new();
    assert!(add_processed(&mut schemas, val(r#"{"$id": "http://x#", "$filename": "f.yaml"}"#), &mut warnings));
    assert_eq!(keys(&schemas), vec!["http://x"]);
    assert!(!add_processed(&mut schemas, val(r#"{"$id": "http://x", "$filename": "g.yaml"}"#), &mut warnings));
    assert_eq!(warnings, vec!["g.yaml: warning: ignoring duplicate '$id' value 'http://x'"]);
    assert!(!add_processed(&mut schemas, val(r#"{"title": "no id"}"#), &mut warnings));
    assert_eq!(schemas.len(), 1);
    assert_eq!(warnings.len(), 1);
}

#[test]
fn finished_schema_is_tagged() {
    let out = finish_processed(val(r#"{"$id": "a", "examples": []}"#), "dir/a.yaml");
    assert_eq!(out.get_str("type"), Some("object"));
    assert_eq!(out.get_str("$filename"), Some("dir/a.yaml"));
    assert!(out.get("examples").is_none());
}

#[test]
fn from_value_errors() {
    let e = ProcessedSchemas::from_value(&Value::Int(1), "1").err().unwrap();
    assert_eq!(e, ProcessError::NotObject);
    assert_eq!(e.message(), "processed schema is not a JSON object");
    let e = ProcessedSchemas::from_value(&val(r#"{"$id": "x", "version": "1"}"#), "1").err().unwrap();
    assert_eq!(e, ProcessError::SingleSchema);
    assert_eq!(e.message(), "single schema is not a processed schema set");
    let e = ProcessedSchemas::from_value(&val(r#"{"version": "1"}"#), "2").err().unwrap();
    assert_eq!(e, ProcessError::OutOfDate);
    assert_eq!(e.message(), "Processed schema out of date, delete and retry");
    let e = ProcessedSchemas::from_value(&val(r#"{"a": {}}"#), "2").err().unwrap();
    assert_eq!(e, ProcessError::OutOfDate);
}

#[test]
fn from_value_rebuilds_dispatch() {
    let doc = val(
        r#"{"version": "1",
            "s1": {"$id": "http://s1#", "select": true},
            "s2": {"$id": "http://s2", "properties": {"compatible": {"enum": ["a,b", "syscon"]}}},
            "s3": {"$id": "http://s3", "select": false},
            "s4": {"$id": "http://s4", "properties": {"compatible": {"const": "syscon"}}},
            "generated-types": {"select": true}}"#,
    );
    let p = ProcessedSchemas::from_value(&doc, "1").ok().unwrap();
    assert_eq!(p.always_schemas, vec!["http://s1"]);
    assert_eq!(
        canonical_json(&Value::Object(p.compat_map)),
        r#"{"a,b":"http://s2","syscon":"http://s4"}"#
    );
    assert_eq!(keys(&p.schemas), vec!["generated-types", "s1", "s2", "s3", "s4", "version"]);
}

#[test]
fn build_adds_generated_entries_and_version() {
    let schemas = vec![(
        "http://s2".to_string(),
        val(r#"{"$id": "http://s2", "properties": {"compatible": {"const": "v,x"}, "p": {"type": "boolean"}}}"#),
    )];
    let p = ProcessedSchemas::build(schemas, "9.9");
    assert_eq!(
        keys(&p.schemas),
        vec!["generated-compatibles", "generated-pattern-types", "generated-types", "http://s2", "version"]
    );
    assert_eq!(p.schemas[4].1.as_str(), Some("9.9"));
    assert_eq!(p.always_schemas, vec!["generated-compatibles"]);
    assert_eq!(canonical_json(&Value::Object(p.compat_map)), r#"{"v,x":"http://s2"}"#);
}

#[test]
fn built_set_reads_back_from_its_document() {
    let schemas = vec![(
        "http://s2".to_string(),
        val(r#"{"$id": "http://s2", "properties": {"compatible": {"const": "v,x"}, "p": {"type": "boolean"}}}"#),
    )];
    let p = ProcessedSchemas::build(schemas, "9.9");
    let doc = Value::Object(p.schemas);
    let written = canonical_json(&doc);
    let q = ProcessedSchemas::from_value(&doc, "9.9").ok().unwrap();
    assert_eq!(canonical_json(&Value::Object(q.schemas)), written);
    assert_eq!(q.always_schemas, p.always_schemas);
    assert_eq!(
        canonical_json(&Value::Object(q.compat_map)),
        canonical_json(&Value::Object(p.compat_map))
    );
}

#[test]
fn processed_files_insert_in_order() {
    let a = finish_processed(val(r#"{"$id": "http://x#"}"#), "a.yaml");
    let b = finish_processed(val(r#"{"$id": "http://x"}"#), "b.yaml");
    let c = finish_processed(val(r#"{"$id": "http://y#"}"#), "c.yaml");
    let mut schemas = Vec::new();
    let mut lines = Vec::new();
    let n = insert_processed(
        &mut schemas,
        vec![
            (Some(a), vec![]),
            (None, vec!["bad.yaml: ignoring, error parsing file".to_string()]),
            (Some(b), vec![]),
            (Some(c), vec![]),
        ],
        &mut lines,
    );
    assert_eq!(n, 2);
    assert_eq!(keys(&schemas), vec!["http://x", "http://y"]);
    assert_eq!(
        lines,
        vec![
            "bad.yaml: ignoring, error parsing file".to_string(),
            "b.yaml: warning: ignoring duplicate '$id' value 'http://x'".to_string(),
        ]
    );
}
