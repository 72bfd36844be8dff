use chord_processor::ast::ast_eq;
use chord_processor::{decode_ast, encode_ast, AstNode};

fn note(text: &str) -> AstNode {
    AstNode::Note { text: text.to_string() }
}

#[test]
fn encode_note_canonical() {
    assert_eq!(encode_ast(&note("C")), "{\"type\":\"note\",\"text\":\"C\"}");
}

#[test]
fn encode_progression_canonical() {
    let ast = AstNode::Progression {
        children: vec![note("C"), note("F"), note("G"), note("C")],
    };
    let expected = "{\"type\":\"progression\",\"children\":[{\"type\":\"note\",\"text\":\"C\"},{\"type\":\"note\",\"text\":\"F\"},{\"type\":\"note\",\"text\":\"G\"},{\"type\":\"note\",\"text\":\"C\"}]}";
    assert_eq!(encode_ast(&ast), expected);
}

#[test]
fn encode_empty_progression() {
    let ast = AstNode::Progression { children: Vec::new() };
    assert_eq!(encode_ast(&ast), "{\"type\":\"progression\",\"children\":[]}");
}

#[test]
fn encode_escapes_specials() {
    let ast = note("a\"b\\c\nd\u{1}e\tf");
    assert_eq!(
        encode_ast(&ast),
        "{\"type\":\"note\",\"text\":\"a\\\"b\\\\c\\nd\\u0001e\\tf\"}"
    );
}

#[test]
fn decode_note() {
    let got = decode_ast("{\"type\":\"note\",\"text\":\"G\"}").unwrap();
    assert!(ast_eq(&got, &note("G")));
}

#[test]
fn decode_progression() {
    let got = decode_ast(
        "{\"type\":\"progression\",\"children\":[{\"type\":\"note\",\"text\":\"C\"},{\"type\":\"note\",\"text\":\"F\"}]}",
    )
    .unwrap();
    let want = AstNode::Progression { children: vec![note("C"), note("F")] };
    assert!(ast_eq(&got, &want));
}

#[test]
fn round_trip_note() {
    let ast = note("B");
    let back = decode_ast(&encode_ast(&ast)).unwrap();
    assert!(ast_eq(&ast, &back));
}

#[test]
fn round_trip_progression() {
    let ast = AstNode::Progression {
        children: vec![note("C"), note("X"), note(""), note("G")],
    };
    let back = decode_ast(&encode_ast(&ast)).unwrap();
    assert!(ast_eq(&ast, &back));
}

#[test]
fn round_trip_nested_progression() {
    let ast = AstNode::Progression {
        children: vec![
            note("A"),
            AstNode::Progression { children: vec![note("D"), note("E")] },
            AstNode::Progression { children: Vec::new() },
        ],
    };
    let back = decode_ast(&encode_ast(&ast)).unwrap();
    assert!(ast_eq(&ast, &back));
}

#[test]
fn round_trip_awkward_text() {
    let ast = note("q\"\\\n\r\t\u{0}\u{1f}\u{7f} \u{e9}\u{1F600}");
    let back = decode_ast(&encode_ast(&ast)).unwrap();
    assert!(ast_eq(&ast, &back));
}

#[test]
fn decode_rejects_missing_type() {
    assert!(decode_ast("{\"children\":[]}").is_err());
}

#[test]
fn decode_rejects_wrong_tag() {
    assert!(decode_ast("{\"type\":\"chord\",\"text\":\"C\"}").is_err());
}

#[test]
fn decode_rejects_trailing_characters() {
    assert!(decode_ast("{\"type\":\"note\",\"text\":\"C\"}x").is_err());
    let err = decode_ast("{\"type\":\"note\",\"text\":\"C\"}]").unwrap_err();
    assert!(!err.msg.is_empty());
}

#[test]
fn decode_accepts_surrounding_whitespace() {
    let got = decode_ast(" \t{\"type\":\"note\",\"text\":\"C\"}\n ").unwrap();
    assert!(ast_eq(&got, &note("C")));
}

#[test]
fn decode_accepts_reordered_fields() {
    let got = decode_ast("{\"text\":\"C\",\"type\":\"note\"}").unwrap();
    assert!(ast_eq(&got, &note("C")));
    let got = decode_ast(
        "{\"children\":[{\"text\":\"F\",\"type\":\"note\"}],\"type\":\"progression\"}",
    )
    .unwrap();
    let want = AstNode::Progression { children: vec![note("F")] };
    assert!(ast_eq(&got, &want));
}

#[test]
fn decode_accepts_interior_whitespace() {
    let got = decode_ast(
        "{ \"type\" : \"progression\" ,\n  \"children\" : [ {\"type\":\"note\",\"text\":\"C\"} ,\t{\"type\":\"note\",\"text\":\"G\"} ] }",
    )
    .unwrap();
    let want = AstNode::Progression { children: vec![note("C"), note("G")] };
    assert!(ast_eq(&got, &want));
}

#[test]
fn decode_surrogate_pair_escape() {
    let got = decode_ast("{\"type\":\"note\",\"text\":\"\\ud83d\\ude00\"}").unwrap();
    assert!(ast_eq(&got, &note("\u{1F600}")));
}

#[test]
fn decode_rejects_unpaired_high_surrogate() {
    assert!(decode_ast("{\"type\":\"note\",\"text\":\"\\ud83dx\"}").is_err());
}

#[test]
fn decode_error_message_is_deterministic() {
    let e1 = decode_ast("{\"children\":[]}").unwrap_err();
    let e2 = decode_ast("{\"children\":[]}").unwrap_err();
    assert_eq!(e1.msg, e2.msg);
    assert_eq!(e1.msg, "malformed interchange value");
    let e3 = decode_ast("{\"type\":\"note\",\"text\":\"C\"}!").unwrap_err();
    assert_eq!(e3.msg, "trailing characters after the interchange value");
}

#[test]
fn decode_rejects_unterminated_string() {
    assert!(decode_ast("{\"type\":\"note\",\"text\":\"C").is_err());
}

#[test]
fn decode_rejects_bad_escape() {
    assert!(decode_ast("{\"type\":\"note\",\"text\":\"\\x\"}").is_err());
}

#[test]
fn decode_rejects_raw_control_character() {
    assert!(decode_ast("{\"type\":\"note\",\"text\":\"a\nb\"}").is_err());
}

#[test]
fn decode_hex_escape() {
    let got = decode_ast("{\"type\":\"note\",\"text\":\"\\u0041\\u00e9\"}").unwrap();
    assert!(ast_eq(&got, &note("A\u{e9}")));
}

#[test]
fn decode_rejects_lone_surrogate_escape() {
    assert!(decode_ast("{\"type\":\"note\",\"text\":\"\\ud800\"}").is_err());
}

#[test]
fn decode_short_escapes() {
    let got = decode_ast("{\"type\":\"note\",\"text\":\"\\\"\\\\\\/\\b\\f\\n\\r\\t\"}").unwrap();
    assert!(ast_eq(&got, &note("\"\\/\u{8}\u{c}\n\r\t")));
}

#[test]
fn ast_eq_distinguishes_trees() {
    assert!(!ast_eq(&note("C"), &note("D")));
    assert!(!ast_eq(&note("C"), &AstNode::Progression { children: vec![note("C")] }));
    assert!(ast_eq(
        &AstNode::Progression { children: vec![note("C")] },
        &AstNode::Progression { children: vec![note("C")] },
    ));
    assert!(!ast_eq(
        &AstNode::Progression { children: vec![note("C"), note("D")] },
        &AstNode::Progression { children: vec![note("D"), note("C")] },
    ));
}
