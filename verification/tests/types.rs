use dtschema::json::Value;
use dtschema::jsontext::canonical_json;
use dtschema::types::{get_prop_types, make_compatible_schema, make_property_type_cache};

fn from_serde(v: &serde_json::Value) -> Value {
    match v {
        serde_json::Value::Null => Value::Null,
        serde_json::Value::Bool(b) => Value::Bool(*b),
        serde_json::Value::Number(n) => match (n.as_i64(), n.as_u64()) {
            (Some(i), _) => Value::Int(i as i128),
            (None, Some(u)) => Value::Int(u as i128),
            _ => Value::Float(n.to_string()),
        },
        serde_json::Value::String(s) => Value::Str(s.clone()),
        serde_json::Value::Array(a) => Value::Array(a.iter().map(from_serde).collect()),
        serde_json::Value::Object(m) => {
            Value::Object(m.iter().map(|(k, v)| (k.clone(), from_serde(v))).collect())
        }
    }
}

fn val(text: &str) -> Value {
    from_serde(&serde_json::from_str(text).unwrap())
}

fn at<'a>(v: &'a Value, path: &[&str]) -> Option<&'a Value> {
    let mut cur = v;
    for k in path {
        cur = cur.get(k)?;
    }
    Some(cur)
}
fn canon(v: &Value) -> String {
    canonical_json(v)
}

fn schema_set(entries: &[(&str, &str)]) -> Vec<(String, Value)> {
    entries.iter().map(|(k, t)| (k.to_string(), val(t))).collect()
}

fn entries_text(m: &[(String, Value)]) -> String {
    canon(&Value::Object(m.iter().map(|(k, v)| (k.clone(), dtschema::json::copy_value(v))).collect()))
}

const BINDING: &str = r#"{"$id": "http://a#", "properties": {
    "foo": {"$ref": "/schemas/types.yaml#/definitions/uint32"},
    "bar": {"type": "boolean"},
    "baz": {"items": [{"const": "x"}]},
    "node@0": {"type": "object", "properties": {"inner": {"$ref": "types.yaml#/definitions/string"}}},
    "vals-microvolt": {"$ref": "types.yaml#/definitions/uint32-matrix", "maxItems": 4,
                       "items": {"minItems": 2, "maxItems": 2}}},
  "patternProperties": {"^qux-[0-9]$": {"$ref": "types.yaml#/definitions/phandle"}}}"#;

#[test]
fn property_types_of_one_binding() {
    let schemas = schema_set(&[("http://a", BINDING)]);
    let (props, pats) = get_prop_types(&schemas);
    assert_eq!(
        entries_text(&props),
        r#"{"bar":[{"$id":["http://a#"],"type":"flag"}],"baz":[{"$id":["http://a#"],"type":"string-array"}],"foo":[{"$id":["http://a#"],"type":"uint32"}],"inner":[{"$id":["http://a#"],"type":"string"}],"vals-microvolt":[{"$id":["http://a#"],"dim":[[1,4],[2,2]],"type":"uint32-matrix"}]}"#
    );
    assert_eq!(
        entries_text(&pats),
        r#"{"^qux-[0-9]$":[{"$id":["http://a#"],"regex":"^qux-[0-9]$","type":"phandle"}]}"#
    );
}

#[test]
fn same_type_from_two_schemas_merges_ids() {
    let schemas = schema_set(&[
        ("a", r#"{"$id": "a", "properties": {"p": {"$ref": "types.yaml#/definitions/uint32"}}}"#),
        ("b", r#"{"$id": "b", "properties": {"p": {"$ref": "types.yaml#/definitions/uint32"}}}"#),
    ]);
    let (props, _) = get_prop_types(&schemas);
    assert_eq!(entries_text(&props), r#"{"p":[{"$id":["a","b"],"type":"uint32"}]}"#);
}

#[test]
fn untyped_property_covered_by_pattern_is_dropped() {
    let schemas = schema_set(&[(
        "a",
        r#"{"$id": "a", "properties": {"foo-1": true},
            "patternProperties": {"^foo-[0-9]$": {"$ref": "types.yaml#/definitions/uint8"}}}"#,
    )]);
    let (props, pats) = get_prop_types(&schemas);
    assert_eq!(props.len(), 0);
    assert_eq!(pats.len(), 1);
}

#[test]
fn type_cache_entries_are_stripped() {
    let mut schemas = schema_set(&[("http://a", BINDING)]);
    make_property_type_cache(&mut schemas);
    let keys: Vec<&str> = schemas.iter().map(|(k, _)| k.as_str()).collect();
    assert_eq!(keys, vec!["generated-pattern-types", "generated-types", "http://a"]);
    let gen = &schemas[1].1;
    assert_eq!(gen.get_str("$id"), Some("generated-types"));
    assert_eq!(gen.get_str("$filename"), Some("Generated property types"));
    assert_eq!(
        canon(gen.get("properties").unwrap()),
        r#"{"bar":[{"type":"flag"}],"baz":[{"type":"string-array"}],"foo":[{"type":"uint32"}],"inner":[{"type":"string"}],"vals-microvolt":[{"dim":[[1,4],[2,2]],"type":"uint32-matrix"}]}"#
    );
    assert_eq!(canon(gen.get("select").unwrap()), "false");
    let pat = &schemas[0].1;
    assert_eq!(canon(pat.get("properties").unwrap()), r#"{"^qux-[0-9]$":[{"type":"phandle"}]}"#);
}

#[test]
fn compatible_schema_lists_strings_and_patterns() {
    let mut schemas = schema_set(&[
        ("a", r#"{"properties": {"compatible": {"enum": ["v,b", "v,a"]}}}"#),
        (
            "b",
            r#"{"properties": {"compatible": {"items": [{"const": "x,y"}, {"pattern": "^z,[a-z]+$"}]}}}"#,
        ),
    ]);
    make_compatible_schema(&mut schemas);
    let gen = &schemas.iter().find(|(k, _)| k == "generated-compatibles").unwrap().1;
    assert_eq!(
        canon(gen),
        r#"{"$filename":"Generated schema of documented compatible strings","$id":"generated-compatibles","properties":{"compatible":{"items":{"anyOf":[{"enum":["v,a","v,b","x,y"]},{"pattern":"^foo"},{"pattern":"^test,"},{"pattern":"^z,[a-z]+$"}]}}},"select":true}"#
    );
}

#[test]
fn matrix_dimensions_merge_in_either_order() {
    let x = r#"{"properties": {"m": {"$ref": "types.yaml#/definitions/uint32-matrix", "maxItems": 4,
                 "items": {"minItems": 2, "maxItems": 2}}}}"#;
    let y = r#"{"properties": {"m": {"$ref": "types.yaml#/definitions/uint32-matrix", "minItems": 2, "maxItems": 2,
                 "items": {"minItems": 1, "maxItems": 3}}}}"#;
    let with_id = |id: &str, body: &str| format!(r#"{{"$id": "{id}", {}"#, &body[1..]);
    let first = schema_set(&[("a", &with_id("a", x)), ("b", &with_id("b", y))]);
    let second = schema_set(&[("a", &with_id("a", y)), ("b", &with_id("b", x))]);
    let (p1, _) = get_prop_types(&first);
    let (p2, _) = get_prop_types(&second);
    assert_eq!(entries_text(&p1), entries_text(&p2));
    assert_eq!(entries_text(&p1), r#"{"m":[{"$id":["a","b"],"dim":[[1,4],[1,3]],"type":"uint32-matrix"}]}"#);
}
