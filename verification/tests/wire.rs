use ir_pipeline::ast::AstNode;
use ir_pipeline::wire::{decode_ast, encode_ast};

fn ast(kind: &str, name: &str, children: Vec<AstNode>) -> AstNode {
    AstNode { node_type: kind.to_string(), name: name.to_string(), children }
}

fn ast_eq(a: &AstNode, b: &AstNode) -> bool {
    a.node_type == b.node_type && a.name == b.name && a.children.len() == b.children.len()
        && a.children.iter().zip(b.children.iter()).all(|(x, y)| ast_eq(x, y))
}

#[test]
fn round_trip_small_tree() {
    let tree = ast(
        "TranslationUnit",
        "",
        vec![
            ast("FunctionDecl", "main", vec![ast("CompoundStmt", "", vec![])]),
            ast("StructDecl", "Point", vec![]),
        ],
    );
    let bytes = encode_ast(&tree);
    let back = decode_ast(&bytes).expect("decoding an encoded tree");
    assert!(ast_eq(&tree, &back));
}

#[test]
fn round_trip_keeps_non_ascii_text() {
    let tree = ast("VarDecl", "π_count", vec![ast("StringLiteral", "héllo\u{1F600}", vec![])]);
    let bytes = encode_ast(&tree);
    let back = decode_ast(&bytes).expect("decoding an encoded tree");
    assert!(ast_eq(&tree, &back));
    assert_eq!(back.children[0].name, "héllo\u{1F600}");
}

#[test]
fn round_trip_long_string_needs_two_byte_varint() {
    let long = "x".repeat(300);
    let tree = ast(&long, &long, vec![]);
    let bytes = encode_ast(&tree);
    let back = decode_ast(&bytes).expect("decoding an encoded tree");
    assert!(ast_eq(&tree, &back));
}

#[test]
fn encoding_of_one_field_node_is_exact() {
    // node_type "A": key 10, length 1, byte 65; envelope: key 10, length 3.
    let tree = ast("A", "", vec![]);
    assert_eq!(encode_ast(&tree), vec![10u8, 3, 10, 1, 65]);
}

#[test]
fn encoding_of_empty_tree_is_empty_envelope() {
    let tree = ast("", "", vec![]);
    assert_eq!(encode_ast(&tree), vec![10u8, 0]);
}

#[test]
fn encoding_nests_children_with_their_length() {
    // root: name "r" (key 18); one child with node_type "c" (key 10 inside
    // a key-26 field of length 3).
    let tree = ast("", "r", vec![ast("c", "", vec![])]);
    assert_eq!(
        encode_ast(&tree),
        vec![10u8, 8, 18, 1, 114, 26, 3, 10, 1, 99]
    );
}

#[test]
fn decoding_handwritten_bytes() {
    let bytes: Vec<u8> = vec![10, 8, 18, 1, 114, 26, 3, 10, 1, 99];
    let tree = decode_ast(&bytes).expect("well-formed bytes");
    assert_eq!(tree.node_type, "");
    assert_eq!(tree.name, "r");
    assert_eq!(tree.children.len(), 1);
    assert_eq!(tree.children[0].node_type, "c");
}

#[test]
fn decoding_rejects_malformed_inputs() {
    // Empty input: no root field.
    assert!(decode_ast(&[]).is_none());
    // Wrong envelope key.
    assert!(decode_ast(&[18, 0]).is_none());
    // Envelope length beyond the input.
    assert!(decode_ast(&[10, 5, 10, 1, 65]).is_none());
    // Trailing garbage after the root field.
    assert!(decode_ast(&[10, 3, 10, 1, 65, 0]).is_none());
    // Unknown field key inside the node.
    assert!(decode_ast(&[10, 2, 34, 0]).is_none());
    // Invalid UTF-8 in a string field.
    assert!(decode_ast(&[10, 3, 10, 1, 0xFF]).is_none());
    // Truncated varint.
    assert!(decode_ast(&[10, 1, 10]).is_none());
}

#[test]
fn long_field_encoding_matches_prost() {
    let long = "y".repeat(300);
    let tree = ast(&long, "", vec![]);
    let bytes = encode_ast(&tree);
    // The node holds one string field with tag 1 and a two-byte length.
    let mut node: Vec<u8> = Vec::new();
    prost::encoding::string::encode(1, &long, &mut node);
    // The envelope holds the node as one message field with tag 1.
    let mut expected: Vec<u8> = vec![10];
    prost::encoding::encode_varint(node.len() as u64, &mut expected);
    expected.extend_from_slice(&node);
    assert_eq!(bytes, expected);
}

#[test]
fn string_field_matches_prost() {
    let text = "naïve".to_string();
    let mut expected: Vec<u8> = Vec::new();
    prost::encoding::string::encode(1, &text, &mut expected);
    let tree = ast("naïve", "", vec![]);
    let bytes = encode_ast(&tree);
    // Skip the envelope key and its one-byte length.
    assert_eq!(&bytes[2..], &expected[..]);
}
