use chord_processor::{note_to_degree, process_ast, AstNode};

#[test]
fn test_note_to_degree() {
    assert_eq!(note_to_degree("C"), Some(1));
    assert_eq!(note_to_degree("D"), Some(2));
    assert_eq!(note_to_degree("E"), Some(3));
    assert_eq!(note_to_degree("F"), Some(4));
    assert_eq!(note_to_degree("G"), Some(5));
    assert_eq!(note_to_degree("A"), Some(6));
    assert_eq!(note_to_degree("B"), Some(7));
    assert_eq!(note_to_degree("X"), None);
    assert_eq!(note_to_degree(""), None);
}

#[test]
fn test_process_ast() {
    let ast = AstNode::Progression {
        children: vec![
            AstNode::Note { text: "C".to_string() },
            AstNode::Note { text: "F".to_string() },
            AstNode::Note { text: "G".to_string() },
            AstNode::Note { text: "C".to_string() },
        ],
    };
    assert_eq!(process_ast(&ast), vec![1, 4, 5, 1]);
}

#[test]
fn unrecognized_strings_have_no_degree() {
    assert_eq!(note_to_degree("H"), None);
    assert_eq!(note_to_degree("c"), None);
    assert_eq!(note_to_degree("CC"), None);
    assert_eq!(note_to_degree(" C"), None);
    assert_eq!(note_to_degree("C "), None);
    assert_eq!(note_to_degree("Do"), None);
}

#[test]
fn resolve_drops_invalid_note() {
    let ast = AstNode::Progression {
        children: vec![
            AstNode::Note { text: "C".to_string() },
            AstNode::Note { text: "X".to_string() },
            AstNode::Note { text: "G".to_string() },
        ],
    };
    assert_eq!(process_ast(&ast), vec![1, 5]);
}

#[test]
fn resolve_preserves_order_without_dedup() {
    let ast = AstNode::Progression {
        children: vec![
            AstNode::Note { text: "G".to_string() },
            AstNode::Note { text: "C".to_string() },
            AstNode::Note { text: "C".to_string() },
            AstNode::Note { text: "A".to_string() },
        ],
    };
    assert_eq!(process_ast(&ast), vec![5, 1, 1, 6]);
    let mixed = AstNode::Progression {
        children: vec![
            AstNode::Note { text: "X".to_string() },
            AstNode::Note { text: "B".to_string() },
            AstNode::Note { text: String::new() },
            AstNode::Note { text: "E".to_string() },
        ],
    };
    assert_eq!(process_ast(&mixed), vec![7, 3]);
}

#[test]
fn resolve_bare_note() {
    assert_eq!(process_ast(&AstNode::Note { text: "D".to_string() }), vec![2]);
    assert_eq!(process_ast(&AstNode::Note { text: "H".to_string() }), Vec::<u8>::new());
}

#[test]
fn resolve_ignores_non_note_children() {
    let ast = AstNode::Progression {
        children: vec![
            AstNode::Note { text: "C".to_string() },
            AstNode::Progression {
                children: vec![AstNode::Note { text: "E".to_string() }],
            },
            AstNode::Note { text: "G".to_string() },
        ],
    };
    assert_eq!(process_ast(&ast), vec![1, 5]);
}

#[test]
fn resolve_twice_same_result() {
    let ast = AstNode::Progression {
        children: vec![
            AstNode::Note { text: "A".to_string() },
            AstNode::Note { text: "X".to_string() },
            AstNode::Note { text: "F".to_string() },
        ],
    };
    let first = process_ast(&ast);
    let second = process_ast(&ast);
    assert_eq!(first, second);
    assert_eq!(first, vec![6, 4]);
}

#[test]
fn resolve_empty_progression() {
    let ast = AstNode::Progression { children: Vec::new() };
    assert_eq!(process_ast(&ast), Vec::<u8>::new());
}
