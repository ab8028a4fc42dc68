use dtschema::example::{
    example_dts, example_template, interrupt_cells, interrupt_template, splitlines_keepends,
    EXAMPLE_HEADER, EXAMPLE_START,
};
use dtschema::json::Value;

fn examples(items: &[&str]) -> Value {
    Value::Object(vec![(
        "examples".to_string(),
        Value::Array(items.iter().map(|s| Value::Str(s.to_string())).collect()),
    )])
}

#[test]
fn splitlines_keep_terminators() {
    assert_eq!(splitlines_keepends("a\nb\r\nc\rd"), vec!["a\n", "b\r\n", "c\r", "d"]);
    assert_eq!(splitlines_keepends("x\n"), vec!["x\n"]);
    assert!(splitlines_keepends("").is_empty());
    assert_eq!(splitlines_keepends("\n\n"), vec!["\n", "\n"]);
}

#[test]
fn splitlines_put_back_together() {
    let text = "one\r\ntwo\n\rthree";
    assert_eq!(splitlines_keepends(text).concat(), text);
}

#[test]
fn interrupt_template_text() {
    assert_eq!(
        interrupt_template(1, 2),
        "\n        interrupt-parent = <&fake_intc1>;\n        fake_intc1: fake-interrupt-controller {\n            interrupt-controller;\n            #interrupt-cells = < 2 >;\n        };\n"
    );
}

#[test]
fn example_template_text() {
    assert_eq!(
        example_template(3, "IRQ", "EX"),
        "\n    example-3 {\n        #address-cells = <1>;\n        #size-cells = <1>;\n\n        IRQ\n\n        EX\n    };\n};\n"
    );
}

#[test]
fn interrupt_cells_counts_words() {
    assert_eq!(interrupt_cells("node { interrupts = <1 2>; };"), 2);
    assert_eq!(interrupt_cells("\tinterrupts = <GIC_SPI 3 IRQ_TYPE_LEVEL_HIGH>;"), 3);
    assert_eq!(interrupt_cells(" interrupts = <(1 | 2) 3>;"), 1);
    assert_eq!(interrupt_cells("no interrupts here"), 0);
}

#[test]
fn example_document_wraps_examples() {
    let ex = "node {\n  interrupts = <1 2>;\n};";
    let out = example_dts(&examples(&[ex, "/ { x; };"])).unwrap();
    let joined = splitlines_keepends(ex).join("        ");
    let expected = format!(
        "{}{}{}{}",
        EXAMPLE_HEADER,
        EXAMPLE_START,
        example_template(0, &interrupt_template(0, 2), &joined),
        "/ { x; };"
    );
    assert_eq!(out, expected);
}

#[test]
fn example_document_without_examples() {
    let out = example_dts(&Value::Object(vec![("a".to_string(), Value::Int(1))])).unwrap();
    assert_eq!(out, format!("{}{}\n}};", EXAMPLE_HEADER, EXAMPLE_START));
    assert!(example_dts(&Value::Str("x".to_string())).is_none());
    let out = example_dts(&Value::Object(vec![("examples".to_string(), Value::Int(1))])).unwrap();
    assert_eq!(out, EXAMPLE_HEADER);
}
