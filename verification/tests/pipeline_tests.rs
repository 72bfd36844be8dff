use chord_processor::{
    degrees_to_string, encode_ast, lower, process_ast, process_chord_progression, AstNode,
    CstNode,
};

fn cst_leaf(kind: &str, text: &str) -> CstNode {
    CstNode {
        kind: kind.to_string(),
        text: text.to_string(),
        children: Vec::new(),
    }
}

#[test]
fn test_process_chord_progression() {
    let json = r#"{"type":"progression","children":[{"type":"note","text":"C"},{"type":"note","text":"F"},{"type":"note","text":"G"},{"type":"note","text":"C"}]}"#;
    let result = process_chord_progression(json);
    assert_eq!(result, "[1,4,5,1]");
}

#[test]
fn embeddable_call_returns_error_object() {
    let result = process_chord_progression("{\"children\":[]}");
    assert!(result.starts_with("{\"error\":\""));
    assert!(result.ends_with("\"}"));
}

#[test]
fn embeddable_call_empty_progression() {
    let result = process_chord_progression("{\"type\":\"progression\",\"children\":[]}");
    assert_eq!(result, "[]");
}

#[test]
fn embeddable_call_drops_invalid_notes() {
    let json = r#"{"type":"progression","children":[{"type":"note","text":"C"},{"type":"note","text":"X"},{"type":"note","text":"G"}]}"#;
    assert_eq!(process_chord_progression(json), "[1,5]");
}

#[test]
fn embeddable_call_bare_note() {
    assert_eq!(process_chord_progression("{\"type\":\"note\",\"text\":\"E\"}"), "[3]");
}

#[test]
fn cli_pipeline_scenario() {
    // The concrete tree the external grammar reports for "C-F-G-C":
    // separator children carry no semantic value and are skipped.
    let cst = CstNode {
        kind: "progression".to_string(),
        text: "C-F-G-C".to_string(),
        children: vec![
            cst_leaf("note", "C"),
            cst_leaf("sep", "-"),
            cst_leaf("note", "F"),
            cst_leaf("sep", "-"),
            cst_leaf("note", "G"),
            cst_leaf("sep", "-"),
            cst_leaf("note", "C"),
        ],
    };
    let ast = lower(&cst).unwrap();
    let degrees = process_ast(&ast);
    assert_eq!(degrees, vec![1, 4, 5, 1]);
    assert_eq!(degrees_to_string(&degrees), "1,4,5,1");
}

#[test]
fn lower_bare_note() {
    let ast = lower(&cst_leaf("note", "G")).unwrap();
    assert_eq!(process_ast(&ast), vec![5]);
}

#[test]
fn lower_unknown_root_gives_placeholder() {
    assert!(lower(&cst_leaf("comment", "hi")).is_none());
}

#[test]
fn degrees_to_string_empty() {
    assert_eq!(degrees_to_string(&Vec::new()), "");
}

#[test]
fn encoder_output_is_valid_json_for_serde() {
    let ast = AstNode::Progression {
        children: vec![
            AstNode::Note { text: "C".to_string() },
            AstNode::Note { text: "a\"b\\c\n\u{1}".to_string() },
        ],
    };
    let enc = encode_ast(&ast);
    let value: serde_json::Value = serde_json::from_str(&enc).unwrap();
    assert_eq!(value.get("type").and_then(|v| v.as_str()), Some("progression"));
    let children = value.get("children").and_then(|v| v.as_array()).unwrap();
    assert_eq!(children.len(), 2);
    assert_eq!(children[1].get("text").and_then(|v| v.as_str()), Some("a\"b\\c\n\u{1}"));
    assert_eq!(children[0].get("type").and_then(|v| v.as_str()), Some("note"));
}

#[test]
fn embeddable_call_accepts_reordered_fields() {
    assert_eq!(process_chord_progression("{\"text\":\"C\",\"type\":\"note\"}"), "[1]");
}

#[test]
fn embeddable_call_is_deterministic_on_errors() {
    let first = process_chord_progression("{\"children\":[]}");
    let second = process_chord_progression("{\"children\":[]}");
    assert_eq!(first, second);
    assert_eq!(first, "{\"error\":\"malformed interchange value\"}");
}

#[test]
fn decoder_accepts_serde_rendering() {
    // serde_json renders object keys in sorted order with no whitespace;
    // the decoder takes that spelling too.
    let mut note = serde_json::Map::new();
    note.insert(
        "type".to_string(),
        serde_json::Value::String("note".to_string()),
    );
    note.insert(
        "text".to_string(),
        serde_json::Value::String("B".to_string()),
    );
    let text = serde_json::to_string(&serde_json::Value::Object(note)).unwrap();
    assert_eq!(process_chord_progression(&text), "[7]");
}
