use medley::ast::{Ast, AstBuilder, AstMetadata, AstNode};
use medley::ebnf::Span;

#[test]
fn test_ast_builder_simple() {
    let mut builder = AstBuilder::new();
    builder.add_terminal("test".to_string(), Span::new(0, 4));

    let ast = builder.build(4).unwrap();
    assert_eq!(ast.metadata.token_count, 1);
    assert!(ast.metadata.success);
}

#[test]
fn test_ast_builder_sequence() {
    let mut builder = AstBuilder::new();
    builder.push_sequence(Span::new(0, 10));
    builder.add_terminal("a".to_string(), Span::new(0, 1));
    builder.add_terminal("b".to_string(), Span::new(1, 2));
    builder.pop_sequence();

    let ast = builder.build(2).unwrap();
    assert_eq!(ast.metadata.token_count, 2);
    assert!(matches!(ast.root, AstNode::Sequence { .. }));
}

#[test]
fn builder_test_ast_collect_terminals() {
    let mut builder = AstBuilder::new();
    builder.push_sequence(Span::new(0, 10));
    builder.add_terminal("a".to_string(), Span::new(0, 1));
    builder.add_terminal("b".to_string(), Span::new(1, 2));
    builder.pop_sequence();

    let ast = builder.build(2).unwrap();
    let terminals = ast.collect_terminals();
    assert_eq!(terminals, vec!["a", "b"]);
}

#[test]
fn test_ast_node_terminal() {
    let span = Span::new(0, 5);
    let node = AstNode::Terminal { value: "hello".to_string(), span };
    assert_eq!(node.span(), span);
}

#[test]
fn test_ast_depth() {
    let mut builder = AstBuilder::new();
    builder.push_sequence(Span::new(0, 10));
    builder.add_terminal("a".to_string(), Span::new(0, 1));
    builder.push_sequence(Span::new(1, 10));
    builder.add_terminal("b".to_string(), Span::new(1, 2));
    builder.pop_sequence();
    builder.pop_sequence();

    let ast = builder.build(2).unwrap();
    assert!(ast.depth() > 1);
}

#[test]
fn single_node_levels_are_unwrapped() {
    let mut builder = AstBuilder::new();
    builder.push_alternation(Span::new(0, 1));
    builder.add_terminal("x".to_string(), Span::new(0, 1));
    let closed = builder.pop_alternation().unwrap();
    assert!(matches!(closed, AstNode::Terminal { .. }));
    let ast = builder.build(1).unwrap();
    assert!(matches!(ast.root, AstNode::Terminal { .. }));
    assert_eq!(ast.depth(), 1);
}

#[test]
fn repetition_is_never_unwrapped() {
    let mut builder = AstBuilder::new();
    builder.push_repetition(Span::new(0, 1));
    builder.add_terminal("x".to_string(), Span::new(0, 1));
    let closed = builder.pop_repetition().unwrap();
    assert!(matches!(closed, AstNode::Repetition { .. }));
}

#[test]
fn rule_wraps_its_nodes() {
    let mut builder = AstBuilder::new();
    builder.push_rule("pair".to_string());
    builder.add_terminal("a".to_string(), Span::new(0, 1));
    builder.add_terminal("b".to_string(), Span::new(1, 2));
    let closed = builder.pop_rule(Span::new(0, 2)).unwrap();
    assert_eq!(closed.to_string_debug(), "Rule(pair: Sequence(Terminal(a), Terminal(b)))");
    let ast = builder.build(2).unwrap();
    assert_eq!(ast.depth(), 3);
    assert_eq!(ast.collect_terminals(), vec!["a", "b"]);
}

#[test]
fn pop_without_open_context_does_nothing() {
    let mut builder = AstBuilder::new();
    assert!(builder.pop_sequence().is_none());
    assert!(builder.pop_rule(Span::new(0, 0)).is_none());
    builder.add_terminal("x".to_string(), Span::new(0, 1));
    assert!(builder.build(1).is_ok());
}

#[test]
fn build_rejects_open_levels_and_empty_trees() {
    let mut builder = AstBuilder::new();
    builder.push_sequence(Span::new(0, 1));
    assert_eq!(builder.build(1).unwrap_err(), "Invalid builder state: stack has 2 levels, expected 1");
    let empty = AstBuilder::new();
    assert_eq!(empty.build(0).unwrap_err(), "No nodes in AST");
}

#[test]
fn several_top_nodes_become_a_sequence_over_the_input() {
    let mut builder = AstBuilder::default();
    builder.add_terminal("a".to_string(), Span::new(0, 1));
    builder.add_terminal("b".to_string(), Span::new(1, 2));
    let ast = builder.build(7).unwrap();
    assert_eq!(ast.span(), Span::new(0, 7));
    assert_eq!(ast.metadata.input_length, 7);
}

#[test]
fn metadata_defaults_to_nothing() {
    let m = AstMetadata::default();
    assert_eq!(m.input_length, 0);
    assert_eq!(m.token_count, 0);
    assert!(!m.success);
    let ast = Ast { root: AstNode::Sequence { nodes: vec![], span: Span::new(0, 0) }, metadata: m };
    assert_eq!(ast.depth(), 1);
    assert!(ast.collect_terminals().is_empty());
}

#[test]
fn pops_without_a_span_leave_the_builder_as_it_was() {
    let mut builder = AstBuilder::new();
    builder.push_rule("r".to_string());
    builder.add_terminal("x".to_string(), Span::new(0, 1));
    assert!(builder.pop_sequence().is_none());
    let closed = builder.pop_rule(Span::new(0, 1)).unwrap();
    assert_eq!(closed.to_string_debug(), "Rule(r: Terminal(x))");
    let copy = closed.clone();
    assert_eq!(copy, closed);
}
