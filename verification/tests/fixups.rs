use dtschema::fixups::fixup_schema;
use dtschema::json::Value;
use dtschema::jsontext::canonical_json;
use dtschema::schema::DTSchema;

fn from_serde(v: &serde_json::Value) -> Value {
    match v {
        serde_json::Value::Null => Value::Null,
        serde_json::Value::Bool(b) => Value::Bool(*b),
        serde_json::Value::Number(n) => match (n.as_i64(), n.as_u64()) {
            (Some(i), _) => Value::Int(i as i128),
            (None, Some(u)) => Value::Int(u as i128),
            _ => Value::Float(n.to_string()),
        },
        serde_json::Value::String(s) => Value::Str(s.clone()),
        serde_json::Value::Array(a) => Value::Array(a.iter().map(from_serde).collect()),
        serde_json::Value::Object(m) => {
            Value::Object(m.iter().map(|(k, v)| (k.clone(), from_serde(v))).collect())
        }
    }
}

fn val(text: &str) -> Value {
    from_serde(&serde_json::from_str(text).unwrap())
}

fn at<'a>(v: &'a Value, path: &[&str]) -> Option<&'a Value> {
    let mut cur = v;
    for k in path {
        cur = cur.get(k)?;
    }
    Some(cur)
}

fn canon(v: &Value) -> String {
    canonical_json(v)
}

fn fixed(text: &str) -> Value {
    let mut v = val(text);
    fixup_schema(&mut v);
    v
}

#[test]
fn interrupts_get_parent_and_extended() {
    let v = fixed(
        r#"{"properties": {"interrupts": {"maxItems": 1}}, "required": ["interrupts"],
            "additionalProperties": false}"#,
    );
    assert_eq!(canon(at(&v, &["properties", "interrupt-parent"]).unwrap()), "true");
    assert_eq!(
        canon(at(&v, &["properties", "interrupts-extended"]).unwrap()),
        canon(at(&v, &["properties", "interrupts"]).unwrap())
    );
    assert_eq!(
        canon(at(&v, &["oneOf"]).unwrap()),
        r#"[{"required":["interrupts"]},{"required":["interrupts-extended"]}]"#
    );
    assert!(at(&v, &["required"]).is_none());
}

#[test]
fn interrupts_alternative_goes_to_allof_when_oneof_taken() {
    let v = fixed(
        r#"{"properties": {"interrupts": true}, "required": ["interrupts", "reg"],
            "oneOf": [{"required": ["a"]}, {"required": ["b"]}]}"#,
    );
    assert_eq!(
        canon(at(&v, &["allOf"]).unwrap()),
        r#"[{"oneOf":[{"required":["interrupts"]},{"required":["interrupts-extended"]}]}]"#
    );
    assert_eq!(canon(at(&v, &["required"]).unwrap()), r#"["reg"]"#);
}

#[test]
fn dependent_required_interrupts_move_to_dependent_schemas() {
    let v = fixed(r#"{"dependencies": {"foo": ["interrupts"]}}"#);
    assert!(at(&v, &["dependencies"]).is_none());
    assert!(at(&v, &["dependentRequired"]).is_none());
    assert_eq!(
        canon(at(&v, &["dependentSchemas"]).unwrap()),
        r#"{"foo":{"oneOf":[{"required":["interrupts"]},{"required":["interrupts-extended"]}]}}"#
    );
}

#[test]
fn closed_node_gets_implicit_properties() {
    let v = fixed(r#"{"properties": {"clocks": true, "ranges": true}, "additionalProperties": false}"#);
    for name in [
        "assigned-clocks",
        "assigned-clock-rates",
        "assigned-clock-parents",
        "dma-ranges",
        "phandle",
        "status",
        "$nodename",
        "bootph-all",
        "pinctrl-names",
    ] {
        assert_eq!(canon(at(&v, &["properties", name]).unwrap()), "true", "{name}");
    }
    assert_eq!(canon(at(&v, &["patternProperties", "^pinctrl-[0-9]+$"]).unwrap()), "true");
}

#[test]
fn open_node_gets_no_common_properties() {
    let v = fixed(r#"{"properties": {"foo": true}, "additionalProperties": true}"#);
    assert!(at(&v, &["properties", "phandle"]).is_none());
    assert!(at(&v, &["additionalProperties"]).is_none());
}

#[test]
fn nodename_constraint_becomes_select() {
    let v = fixed(r#"{"properties": {"$nodename": {"pattern": "^foo"}}}"#);
    assert_eq!(canon(at(&v, &["select", "required"]).unwrap()), r#"["$nodename"]"#);
    assert!(at(&v, &["select", "properties", "$nodename"]).is_some());
    let v = fixed(r#"{"properties": {"$nodename": true}}"#);
    assert!(at(&v, &["select"]).is_none());
    let v = fixed(r#"{"properties": {"compatible": true, "$nodename": {"pattern": "^a"}}}"#);
    assert!(at(&v, &["select"]).is_none());
}

#[test]
fn documentation_keys_are_dropped() {
    let v = fixed(r#"{"examples": ["x"], "maintainers": ["m"], "historical": 1, "description": "d", "title": "t"}"#);
    assert!(at(&v, &["examples"]).is_none());
    assert!(at(&v, &["maintainers"]).is_none());
    assert!(at(&v, &["historical"]).is_none());
    assert!(at(&v, &["description"]).is_none());
    assert_eq!(canon(at(&v, &["title"]).unwrap()), r#""t""#);
}

#[test]
fn string_property_becomes_array() {
    let v = fixed(r#"{"properties": {"foo": {"const": "bar"}}}"#);
    assert_eq!(
        canon(at(&v, &["properties", "foo"]).unwrap()),
        r#"{"items":[{"const":"bar"}],"maxItems":1,"minItems":1,"type":"array"}"#
    );
}

#[test]
fn variable_matrix_keeps_only_ref() {
    let v = fixed(r#"{"properties": {"fsl,pins": {"$ref": "x.yaml#", "items": {"maxItems": 3}}}}"#);
    assert_eq!(canon(at(&v, &["properties", "fsl,pins"]).unwrap()), r#"{"$ref":"x.yaml#"}"#);
}

#[test]
fn dtschema_fixup_leaves_document() {
    let doc = DTSchema { value: val(r#"{"examples": ["e"], "properties": {}}"#), filename: "a.yaml".to_string() };
    let out = doc.fixup();
    assert!(at(&out, &["examples"]).is_none());
    assert!(at(&doc.value, &["examples"]).is_some());
}
