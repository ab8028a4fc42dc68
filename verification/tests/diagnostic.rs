use dtschema::diagnostic::{
    abs_path, decode_diagnostic, diagnostic_text, error_diagnostic, format_error_at, format_error_display_at,
    py_list_repr, replace_filename_prefix, unmatched_diagnostic, unmatched_message, Diagnostic,
    DiagnosticLevel,
};
use dtschema::json::Value;
use dtschema::jsontext::to_json_text;
use dtschema::validator::{DtError, PathSeg};

fn key(s: &str) -> PathSeg {
    PathSeg::Key(s.to_string())
}

fn member<'a>(v: &'a Value, k: &str) -> &'a Value {
    v.get(k).unwrap()
}

fn text_of<'a>(v: &'a Value, k: &str) -> &'a str {
    member(v, k).as_str().unwrap()
}

fn sample_error() -> DtError {
    DtError {
        instance_path: vec![key("soc"), key("device@0")],
        schema_path: vec![key("then"), key("required")],
        message: "'foo' is a required property".to_string(),
        schema_file: "http://devicetree.org/schemas/test.yaml#".to_string(),
        instance_is_disabled_node: false,
        has_suppressible_disabled_context: false,
    }
}

#[test]
fn test_json_error_diagnostic() {
    let error = sample_error();
    let d = error_diagnostic(
        "test.dtb",
        &error,
        Some("device@0"),
        Some("/soc/device@0"),
        Some("test,device"),
        None,
    )
    .to_value();

    assert_eq!(text_of(&d, "type"), "validation");
    assert_eq!(text_of(&d, "level"), "error");
    assert_eq!(text_of(&d, "file"), "test.dtb");
    assert_eq!(text_of(&d, "node"), "/soc/device@0");
    assert_eq!(text_of(&d, "nodename"), "device@0");
    assert_eq!(text_of(&d, "compatible"), "test,device");
    assert_eq!(to_json_text(member(&d, "property_path")), r#"["soc","device@0"]"#);
    assert_eq!(to_json_text(member(&d, "schema_path")), r#"["then","required"]"#);
    assert_eq!(text_of(&d, "schema"), "http://devicetree.org/schemas/test.yaml#");
    assert_eq!(text_of(&d, "message"), "'foo' is a required property");
}

#[test]
fn test_json_unmatched_diagnostic() {
    let d =
        unmatched_diagnostic("test.dtb", "/soc/device@0", &["test,device".to_string()]).to_value();
    assert_eq!(text_of(&d, "type"), "unmatched");
    assert_eq!(text_of(&d, "level"), "warning");
    assert_eq!(text_of(&d, "file"), "test.dtb");
    assert_eq!(text_of(&d, "node"), "/soc/device@0");
    assert_eq!(to_json_text(member(&d, "compatible")), r#"["test,device"]"#);
    assert_eq!(
        text_of(&d, "message"),
        "failed to match any schema with compatible: ['test,device']"
    );
    assert_eq!(
        diagnostic_text(&d),
        "test.dtb: /soc/device@0: failed to match any schema with compatible: ['test,device']"
    );

    // A root node ("/") keeps "/" as its nodename.
    let d = unmatched_diagnostic("test.dtb", "/", &["test,board".to_string()]).to_value();
    assert_eq!(text_of(&d, "nodename"), "/");
}

#[test]
fn test_format_error_rewrites_indented_paths() {
    let text = "/abs/test.dtb:1:1: outer problem\n\t/abs/test.dtb:2:1: inner problem\n";
    let rewritten = replace_filename_prefix(text, "/abs/test.dtb", "test.dtb");

    assert!(!rewritten.contains("/abs/test.dtb"));
    assert!(rewritten.contains("test.dtb:1:1"));
    assert!(rewritten.contains("\ttest.dtb:2:1"));
}

#[test]
fn replace_prefix_exact_text() {
    let text = "/abs/a.dtb: x\n  /abs/a.dtb: y\nother /abs/a.dtb: z\n/abs/a.dtbx: w";
    assert_eq!(
        replace_filename_prefix(text, "/abs/a.dtb", "a.dtb"),
        "a.dtb: x\n  a.dtb: y\nother /abs/a.dtb: z\n/abs/a.dtbx: w"
    );
}

#[test]
fn replace_prefix_round_trip() {
    let text = "/abs/a.dtb: x\n\t/abs/a.dtb:2: y\nplain line\n";
    let there = replace_filename_prefix(text, "/abs/a.dtb", "$dtb");
    assert_eq!(there, "$dtb: x\n\t$dtb:2: y\nplain line\n");
    let back = replace_filename_prefix(&there, "$dtb", "/abs/a.dtb");
    assert_eq!(back, text);
}

#[test]
fn replace_prefix_with_itself_changes_nothing() {
    let text = "a.dtb: x\n a.dtb: y\r\nz";
    assert_eq!(replace_filename_prefix(text, "a.dtb", "a.dtb"), text);
}

#[test]
fn unmatched_message_lists_compatibles() {
    let m = unmatched_message(&["a,b".to_string(), "c'd".to_string()]);
    assert_eq!(m, r"failed to match any schema with compatible: ['a,b', 'c\'d']");
}

#[test]
fn py_list_repr_quotes_like_python() {
    assert_eq!(py_list_repr(&[]), "[]");
    assert_eq!(py_list_repr(&["x".to_string()]), "['x']");
    assert_eq!(py_list_repr(&["a\\b".to_string()]), "['a\\\\b']");
}

#[test]
fn decode_diagnostic_text() {
    let d = decode_diagnostic("board.dtb", "bad magic");
    assert!(matches!(d, Diagnostic::Decode { level: DiagnosticLevel::Error, .. }));
    assert_eq!(d.text(), "bad magic");
    let v = d.to_value();
    assert_eq!(text_of(&v, "type"), "decode");
    assert_eq!(text_of(&v, "file"), "board.dtb");
}

#[test]
fn format_error_at_lines() {
    let error = sample_error();
    let text = format_error_at("/abs/test.dtb", &error, Some("device@0"), Some("test,device"));
    assert!(text.starts_with("/abs/test.dtb: "));
    let shown = format_error_display_at("/abs/test.dtb", "test.dtb", &error, Some("device@0"), Some("test,device"));
    assert!(shown.starts_with("test.dtb: "));
    assert!(!shown.contains("/abs/test.dtb"));
}

#[test]
fn set_formatted_keeps_existing_text() {
    let error = sample_error();
    let mut d = error_diagnostic("test.dtb", &error, None, None, None, None);
    assert_eq!(d.text(), "'foo' is a required property");
    d.set_formatted_if_missing("first");
    assert_eq!(d.text(), "first");
    d.set_formatted_if_missing("second");
    assert_eq!(d.text(), "first");
}

#[test]
fn abs_path_is_rooted() {
    assert_eq!(abs_path(""), "");
    let a = abs_path("test.dtb");
    assert!(a.starts_with('/'));
    assert!(a.ends_with("/test.dtb"));
    assert_eq!(abs_path("/abs/test.dtb"), "/abs/test.dtb");
}

#[test]
fn record_text_matches_diagnostic_text() {
    let err = sample_error();
    let mut v = error_diagnostic("test.dtb", &err, Some("device@0"), Some("/soc/device@0"), None, None);
    assert_eq!(diagnostic_text(&v.to_value()), v.text());
    v.set_formatted_if_missing("line one");
    assert_eq!(diagnostic_text(&v.to_value()), v.text());
    let u = unmatched_diagnostic("test.dtb", "/soc/device@0", &["a,b".to_string()]);
    assert_eq!(diagnostic_text(&u.to_value()), u.text());
    let d = decode_diagnostic("test.dtb", "bad header");
    assert_eq!(diagnostic_text(&d.to_value()), d.text());
    assert_eq!(d.text(), "bad header");
}

#[test]
fn abs_path_normalizes_rooted_names() {
    assert_eq!(abs_path("/a/./b"), "/a/b");
}
