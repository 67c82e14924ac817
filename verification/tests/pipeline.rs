use ir_pipeline::ast::AstNode;
use ir_pipeline::ir::{ast_to_ir, optimize_ir, IRNode};
use ir_pipeline::resolve::track_dependencies;
use ir_pipeline::segment::split_ir;

fn ast(kind: &str, name: &str, children: Vec<AstNode>) -> AstNode {
    AstNode { node_type: kind.to_string(), name: name.to_string(), children }
}

fn ir_eq(a: &IRNode, b: &IRNode) -> bool {
    let mut da: Vec<String> = a.dependencies.clone();
    let mut db: Vec<String> = b.dependencies.clone();
    da.sort();
    db.sort();
    a.node_type == b.node_type && a.name == b.name && a.control_flow == b.control_flow && da == db
        && a.children.len() == b.children.len()
        && a.children.iter().zip(b.children.iter()).all(|(x, y)| ir_eq(x, y))
}

fn deps_sorted(n: &IRNode) -> Vec<String> {
    let mut d = n.dependencies.clone();
    d.sort();
    d
}

#[test]
fn new_node_is_bare() {
    let n = IRNode::new("VarDecl", "x");
    assert_eq!(n.node_type, "VarDecl");
    assert_eq!(n.name, "x");
    assert!(n.children.is_empty());
    assert!(n.control_flow.is_none());
    assert!(n.dependencies.is_empty());
}

#[test]
fn build_copies_shape_kind_and_name() {
    let tree = ast(
        "FunctionDecl",
        "main",
        vec![
            ast("VarDecl", "x", vec![]),
            ast("IfStmt", "", vec![ast("VarDecl", "y", vec![])]),
        ],
    );
    let ir = ast_to_ir(&tree);
    assert_eq!(ir.node_type, "FunctionDecl");
    assert_eq!(ir.name, "main");
    assert_eq!(ir.children.len(), 2);
    assert_eq!(ir.children[0].node_type, "VarDecl");
    assert_eq!(ir.children[0].name, "x");
    assert_eq!(ir.children[1].node_type, "IfStmt");
    assert_eq!(ir.children[1].children.len(), 1);
    assert_eq!(ir.children[1].children[0].name, "y");
}

#[test]
fn build_records_child_names_as_dependencies() {
    let tree = ast(
        "FunctionDecl",
        "f",
        vec![
            ast("VarDecl", "a", vec![]),
            ast("VarDecl", "b", vec![]),
            ast("CallExpr", "a", vec![]),
        ],
    );
    let ir = ast_to_ir(&tree);
    assert_eq!(deps_sorted(&ir), vec!["a".to_string(), "b".to_string()]);
    assert!(ir.children[0].dependencies.is_empty());
}

#[test]
fn branch_tag_exactly_on_conditional_and_loop_kinds() {
    let tree = ast(
        "TranslationUnit",
        "",
        vec![
            ast("IfStmt", "", vec![]),
            ast("WhileStmt", "", vec![]),
            ast("CompoundStmt", "", vec![]),
            ast("ForStmt", "", vec![]),
        ],
    );
    let ir = ast_to_ir(&tree);
    assert!(ir.control_flow.is_none());
    assert_eq!(ir.children[0].control_flow.as_deref(), Some("Branch"));
    assert_eq!(ir.children[1].control_flow.as_deref(), Some("Branch"));
    assert!(ir.children[2].control_flow.is_none());
    assert!(ir.children[3].control_flow.is_none());
}

#[test]
fn optimize_discards_grouping_child_and_its_subtree() {
    let tree = ast(
        "IfStmt",
        "",
        vec![ast("CompoundStmt", "blk", vec![ast("FunctionDecl", "foo", vec![])])],
    );
    let mut ir = ast_to_ir(&tree);
    optimize_ir(&mut ir);
    assert!(ir.children.is_empty());
    // "foo" went down with the block: no segment discovers it any more.
    let segments = split_ir(&ir, 0);
    assert!(segments.is_empty());
}

#[test]
fn optimize_keeps_other_children_in_order() {
    let tree = ast(
        "FunctionDecl",
        "f",
        vec![
            ast("VarDecl", "a", vec![]),
            ast("CompoundStmt", "", vec![]),
            ast("ReturnStmt", "", vec![]),
        ],
    );
    let mut ir = ast_to_ir(&tree);
    optimize_ir(&mut ir);
    assert_eq!(ir.children.len(), 2);
    assert_eq!(ir.children[0].node_type, "VarDecl");
    assert_eq!(ir.children[1].node_type, "ReturnStmt");
}

#[test]
fn optimize_is_idempotent() {
    let tree = ast(
        "TranslationUnit",
        "",
        vec![
            ast(
                "FunctionDecl",
                "f",
                vec![
                    ast("CompoundStmt", "", vec![ast("VarDecl", "x", vec![])]),
                    ast("IfStmt", "", vec![ast("CompoundStmt", "", vec![])]),
                ],
            ),
            ast("CompoundStmt", "", vec![]),
        ],
    );
    let mut once = ast_to_ir(&tree);
    optimize_ir(&mut once);
    let mut twice = once.deep_copy();
    optimize_ir(&mut twice);
    assert!(ir_eq(&once, &twice));
}

fn no_group_below(n: &IRNode) -> bool {
    n.children
        .iter()
        .all(|c| c.node_type != "CompoundStmt" && no_group_below(c))
}

#[test]
fn optimize_leaves_no_grouping_kind_below_the_root() {
    let tree = ast(
        "TranslationUnit",
        "",
        vec![ast(
            "FunctionDecl",
            "f",
            vec![
                ast("CompoundStmt", "", vec![ast("CompoundStmt", "", vec![])]),
                ast("WhileStmt", "", vec![ast("CompoundStmt", "", vec![])]),
            ],
        )],
    );
    let mut ir = ast_to_ir(&tree);
    optimize_ir(&mut ir);
    assert!(no_group_below(&ir));
}

#[test]
fn split_without_declarations_is_empty() {
    let tree = ast(
        "TranslationUnit",
        "",
        vec![ast("IfStmt", "", vec![ast("VarDecl", "x", vec![])])],
    );
    let ir = ast_to_ir(&tree);
    let segments = split_ir(&ir, 0);
    assert!(segments.is_empty());
}

#[test]
fn split_single_declaration_yields_that_subtree() {
    let tree = ast("FunctionDecl", "f", vec![ast("VarDecl", "x", vec![])]);
    let ir = ast_to_ir(&tree);
    let segments = split_ir(&ir, 0);
    assert_eq!(segments.len(), 1);
    assert!(ir_eq(&segments[0], &ir));
}

#[test]
fn split_discovers_nested_declarations_in_preorder() {
    let tree = ast(
        "TranslationUnit",
        "",
        vec![
            ast("FunctionDecl", "f", vec![ast("StructDecl", "S", vec![])]),
            ast("StructDecl", "T", vec![]),
        ],
    );
    let ir = ast_to_ir(&tree);
    let segments = split_ir(&ir, 0);
    let names: Vec<&str> = segments.iter().map(|s| s.name.as_str()).collect();
    assert_eq!(names, vec!["f", "S", "T"]);
}

#[test]
fn split_yields_independent_copies() {
    let tree = ast("FunctionDecl", "f", vec![ast("VarDecl", "x", vec![])]);
    let ir = ast_to_ir(&tree);
    let mut segments = split_ir(&ir, 0);
    segments[0].children.clear();
    segments[0].name = "changed".to_string();
    assert_eq!(ir.name, "f");
    assert_eq!(ir.children.len(), 1);
}

#[test]
fn resolve_expands_one_hop_only() {
    let mut a = IRNode::new("FunctionDecl", "A");
    a.dependencies.push("B".to_string());
    let mut b = IRNode::new("FunctionDecl", "B");
    b.dependencies.push("C".to_string());
    let mut segments = vec![a, b];
    track_dependencies(&mut segments);
    assert_eq!(deps_sorted(&segments[0]), vec!["B".to_string(), "C".to_string()]);
    assert_eq!(deps_sorted(&segments[1]), vec!["C".to_string()]);
}

#[test]
fn resolve_never_removes_names() {
    let mut a = IRNode::new("FunctionDecl", "A");
    a.dependencies.push("B".to_string());
    a.dependencies.push("Z".to_string());
    let mut b = IRNode::new("StructDecl", "B");
    b.dependencies.push("A".to_string());
    let before_a = deps_sorted(&a);
    let before_b = deps_sorted(&b);
    let mut segments = vec![a, b];
    track_dependencies(&mut segments);
    for name in before_a {
        assert!(segments[0].dependencies.contains(&name));
    }
    for name in before_b {
        assert!(segments[1].dependencies.contains(&name));
    }
}

#[test]
fn resolve_ignores_names_that_are_no_segment_root() {
    let mut a = IRNode::new("FunctionDecl", "A");
    a.dependencies.push("nowhere".to_string());
    let mut segments = vec![a];
    track_dependencies(&mut segments);
    assert_eq!(deps_sorted(&segments[0]), vec!["nowhere".to_string()]);
}

#[test]
fn pipeline_end_to_end() {
    let tree = ast(
        "TranslationUnit",
        "",
        vec![
            ast(
                "FunctionDecl",
                "main",
                vec![
                    ast("CallExpr", "helper", vec![]),
                    ast("CompoundStmt", "", vec![ast("VarDecl", "hidden", vec![])]),
                ],
            ),
            ast(
                "FunctionDecl",
                "helper",
                vec![ast("CallExpr", "lib_fn", vec![])],
            ),
        ],
    );
    let mut ir = ast_to_ir(&tree);
    optimize_ir(&mut ir);
    let mut segments = split_ir(&ir, 0);
    track_dependencies(&mut segments);
    assert_eq!(segments.len(), 2);
    assert_eq!(segments[0].name, "main");
    // The grouping child carried the empty name, recorded at build time.
    assert_eq!(
        deps_sorted(&segments[0]),
        vec!["".to_string(), "helper".to_string(), "lib_fn".to_string()]
    );
    assert_eq!(deps_sorted(&segments[1]), vec!["lib_fn".to_string()]);
}
