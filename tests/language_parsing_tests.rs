use medley::ast::{parse_str, AstNode};
use medley::ebnf::{CharClass, Grammar, ParseEvent, Prod, RepeatQuant, Rule, Span, TerminalKind};

#[test]
fn test_simple_terminal_ast() {
    let g = grammar(vec![rule("start", lit("hello"))]);
    let ast = parse_str(&g, "hello").expect("parse failed");
    assert!(ast.metadata.success);
    assert_eq!(ast.metadata.input_length, 5);
}

#[test]
fn test_multiple_terminals_sequence_ast() {
    let g = grammar(vec![rule("start", seq(vec![lit("a"), lit("b"), lit("c")]))]);
    let ast = parse_str(&g, "abc").expect("parse failed");
    assert!(ast.metadata.success);
    assert_eq!(ast.metadata.token_count, 3);
    match &ast.root {
        AstNode::Sequence { nodes, .. } => {
            assert_eq!(nodes.len(), 3);
        }
        _ => panic!("Expected sequence"),
    }
}

#[test]
fn language_parsing_tests_test_ast_collect_terminals() {
    let g = grammar(vec![rule("start", seq(vec![lit("x"), lit("y"), lit("z")]))]);
    let ast = parse_str(&g, "xyz").expect("parse failed");
    let terminals = ast.collect_terminals();
    assert_eq!(terminals, vec!["x", "y", "z"]);
}

#[test]
fn test_ast_with_alternation() {
    let g = grammar(vec![rule("start", alt(vec![lit("if"), lit("else")]))]);
    let ast1 = parse_str(&g, "if").expect("parse if failed");
    assert!(ast1.metadata.success);
    let ast2 = parse_str(&g, "else").expect("parse else failed");
    assert!(ast2.metadata.success);
}

#[test]
fn test_ast_empty_alternation_choice() {
    let g = grammar(vec![rule("start", alt(vec![lit("a"), lit("b"), lit("c")]))]);
    for input in &["a", "b", "c"] {
        let ast = parse_str(&g, input).expect(&format!("parse {} failed", input));
        assert!(ast.metadata.success);
    }
}

#[test]
fn test_ast_alternation_with_different_lengths() {
    let g = grammar(vec![rule("start", alt(vec![lit("a"), lit("ab"), lit("abc")]))]);
    for input in &["a", "ab", "abc"] {
        let ast = parse_str(&g, input).expect(&format!("parse {} failed", input));
        assert!(ast.metadata.success);
    }
}

#[test]
fn test_ast_metadata_tracking() {
    let g = grammar(vec![rule("start", seq(vec![lit("a"), lit("b")]))]);
    let ast = parse_str(&g, "ab").expect("parse failed");
    assert_eq!(ast.metadata.input_length, 2);
    assert!(ast.metadata.success);
    assert!(ast.metadata.token_count > 0);
}

#[test]
fn test_ast_span_information() {
    let g = grammar(vec![rule("start", seq(vec![lit("hello"), lit("world")]))]);
    let ast = parse_str(&g, "helloworld").expect("parse failed");
    let span = ast.span();
    assert!(span.start < span.end);
}

#[test]
fn test_ast_parse_error_handling() {
    let g = grammar(vec![rule("start", lit("expected"))]);
    let result = parse_str(&g, "wrong");
    assert!(result.is_err(), "Expected parse error for mismatched input");
}

#[test]
fn test_ast_single_terminal() {
    let g = grammar(vec![rule("start", lit("x"))]);
    let ast = parse_str(&g, "x").expect("parse failed");
    assert!(ast.metadata.success);
    match &ast.root {
        AstNode::Terminal { value, .. } => {
            assert_eq!(value, "x");
        }
        _ => panic!("Expected terminal node"),
    }
}

#[test]
fn test_ast_node_debug_string() {
    let node = AstNode::Terminal { value: "test".to_string(), span: medley::ebnf::Span::new(0, 4) };
    let debug_str = node.to_string_debug();
    assert!(debug_str.contains("test"));
}

#[test]
fn test_ast_builder_state_validation() {
    let g = grammar(vec![rule("start", lit("x"))]);
    let ast = parse_str(&g, "x").expect("build should succeed");
    assert!(ast.metadata.success);
}

#[test]
fn test_ast_node_span_terminal() {
    let span = medley::ebnf::Span::new(0, 5);
    let node = AstNode::Terminal { value: "hello".to_string(), span };
    assert_eq!(node.span(), span);
}

#[test]
fn test_ast_node_span_sequence() {
    let span = medley::ebnf::Span::new(0, 10);
    let node = AstNode::Sequence { nodes: vec![], span };
    assert_eq!(node.span(), span);
}

#[test]
fn test_ast_collect_terminals_nested() {
    let inner = AstNode::Terminal { value: "inner".to_string(), span: Span::new(0, 5) };
    let seq = AstNode::Sequence { nodes: vec![inner], span: Span::new(0, 5) };
    let ast = medley::ast::Ast { root: seq, metadata: Default::default() };
    let terminals = ast.collect_terminals();
    assert_eq!(terminals.len(), 1);
    assert_eq!(terminals[0], "inner");
}

#[test]
fn test_ast_depth_simple_terminal() {
    let node = AstNode::Terminal { value: "test".to_string(), span: Span::new(0, 4) };
    let ast = medley::ast::Ast { root: node, metadata: Default::default() };
    assert_eq!(ast.depth(), 1);
}

#[test]
fn test_ast_depth_nested_sequence() {
    let inner_term = AstNode::Terminal { value: "x".to_string(), span: Span::new(0, 1) };
    let seq = AstNode::Sequence { nodes: vec![inner_term], span: Span::new(0, 1) };
    let ast = medley::ast::Ast { root: seq, metadata: Default::default() };
    assert!(ast.depth() > 1);
}

#[test]
fn test_ast_metadata_success() {
    let node = AstNode::Terminal { value: "test".to_string(), span: Span::new(0, 4) };
    let mut metadata = medley::ast::AstMetadata::default();
    metadata.success = true;
    metadata.token_count = 1;
    let ast = medley::ast::Ast { root: node, metadata };
    assert!(ast.metadata.success);
    assert_eq!(ast.metadata.token_count, 1);
}

#[test]
fn test_alternation_first_alternative() {
    let g = grammar(vec![rule("start", alt(vec![lit("foo"), lit("bar"), lit("baz")]))]);
    let ast = parse_str(&g, "foo").expect("parse foo failed");
    assert!(ast.metadata.success);
    assert_eq!(ast.metadata.token_count, 1);
}

#[test]
fn test_alternation_middle_alternative() {
    let g = grammar(vec![rule("start", alt(vec![lit("foo"), lit("bar"), lit("baz")]))]);
    let ast = parse_str(&g, "bar").expect("parse bar failed");
    assert!(ast.metadata.success);
    assert_eq!(ast.metadata.token_count, 1);
}

#[test]
fn test_alternation_last_alternative() {
    let g = grammar(vec![rule("start", alt(vec![lit("foo"), lit("bar"), lit("baz")]))]);
    let ast = parse_str(&g, "baz").expect("parse baz failed");
    assert!(ast.metadata.success);
    assert_eq!(ast.metadata.token_count, 1);
}

#[test]
fn test_alternation_with_sequences() {
    let g = grammar(vec![rule(
        "start",
        alt(vec![seq(vec![lit("hello"), lit("world")]), seq(vec![lit("goodbye"), lit("world")])]),
    )]);
    let ast1 = parse_str(&g, "helloworld").expect("parse helloworld failed");
    assert!(ast1.metadata.success);
    assert_eq!(ast1.metadata.token_count, 2);
    let ast2 = parse_str(&g, "goodbyeworld").expect("parse goodbyeworld failed");
    assert!(ast2.metadata.success);
    assert_eq!(ast2.metadata.token_count, 2);
}

#[test]
fn test_nested_alternations() {
    let g = grammar(vec![rule("start", seq(vec![group(alt(vec![lit("a"), lit("b")])), lit("c")]))]);
    let ast1 = parse_str(&g, "ac").expect("parse ac failed");
    assert!(ast1.metadata.success);
    let ast2 = parse_str(&g, "bc").expect("parse bc failed");
    assert!(ast2.metadata.success);
}

#[test]
fn test_alternation_backtracking() {
    let g = grammar(vec![rule("start", alt(vec![lit("ab"), lit("a")]))]);
    let ast1 = parse_str(&g, "ab").expect("parse ab failed");
    assert!(ast1.metadata.success);
    let ast2 = parse_str(&g, "a").expect("parse a failed");
    assert!(ast2.metadata.success);
}

#[test]
fn test_repetition_with_alternation() {
    let ab = || group(alt(vec![lit("a"), lit("b")]));
    let g = grammar(vec![rule("start", seq(vec![ab(), rep(ab(), 0, None)]))]);
    let ast1 = parse_str(&g, "aaa").expect("parse aaa failed");
    assert!(ast1.metadata.success);
    assert_eq!(ast1.metadata.token_count, 3);
    let ast2 = parse_str(&g, "aba").expect("parse aba failed");
    assert!(ast2.metadata.success);
    assert_eq!(ast2.metadata.token_count, 3);
    let ast3 = parse_str(&g, "bbb").expect("parse bbb failed");
    assert!(ast3.metadata.success);
    assert_eq!(ast3.metadata.token_count, 3);
}

#[test]
fn test_optional_alternation() {
    let g = grammar(vec![rule("start", rep(group(alt(vec![lit("a"), lit("b")])), 0, Some(1)))]);
    let ast1 = parse_str(&g, "a").expect("parse a failed");
    assert!(ast1.metadata.success);
    let ast2 = parse_str(&g, "b").expect("parse b failed");
    assert!(ast2.metadata.success);
}

#[test]
fn test_alternation_no_match() {
    let g = grammar(vec![rule("start", alt(vec![lit("foo"), lit("bar"), lit("baz")]))]);
    let result = parse_str(&g, "qux");
    assert!(result.is_err(), "Should fail for non-matching input");
}

#[test]
fn test_event_queue_cleared_on_alternation_backtrack() {
    let g = grammar(vec![rule("start", alt(vec![seq(vec![lit("hello"), lit("world")]), lit("goodbye")]))]);
    let result = parse_str(&g, "goodbye");
    assert!(result.is_ok(), "Should successfully parse goodbye after backtracking");
}

#[test]
fn test_triple_alternation_with_common_prefix() {
    let g = grammar(vec![rule("start", alt(vec![lit("test"), lit("team"), lit("tea")]))]);
    let ast1 = parse_str(&g, "test").expect("parse test failed");
    assert!(ast1.metadata.success);
    let ast2 = parse_str(&g, "team").expect("parse team failed");
    assert!(ast2.metadata.success);
    let ast3 = parse_str(&g, "tea").expect("parse tea failed");
    assert!(ast3.metadata.success);
}

#[test]
fn test_alternation_preserves_span_information() {
    let g = grammar(vec![rule("start", alt(vec![lit("a"), lit("bb"), lit("ccc")]))]);
    let ast = parse_str(&g, "bb").expect("parse bb failed");
    let span = ast.span();
    assert_eq!(span.start, 0);
    assert_eq!(span.end, 2);
}

#[test]
fn parse_error_message_names_position() {
    let g = grammar(vec![rule("start", seq(vec![lit("ab"), lit("cd")]))]);
    let err = parse_str(&g, "abxx").unwrap_err();
    assert_eq!(err, "Parse error at position 2: failed to match: terminal did not match");
}

#[allow(dead_code)]
fn lit(s: &str) -> Prod {
    Prod::Terminal { kind: TerminalKind::Str(s.to_string()), span: None }
}

#[allow(dead_code)]
fn ch(c: char) -> Prod {
    Prod::Terminal { kind: TerminalKind::Char(c), span: None }
}

#[allow(dead_code)]
fn rf(name: &str) -> Prod {
    Prod::Ref { name: name.to_string(), span: None }
}

#[allow(dead_code)]
fn seq(items: Vec<Prod>) -> Prod {
    Prod::Sequence(items)
}

#[allow(dead_code)]
fn alt(items: Vec<Prod>) -> Prod {
    Prod::Alt(items)
}

#[allow(dead_code)]
fn group(p: Prod) -> Prod {
    Prod::Group(Box::new(p))
}

#[allow(dead_code)]
fn rep(p: Prod, min: usize, max: Option<usize>) -> Prod {
    Prod::Repeat { item: Box::new(p), quant: RepeatQuant { min, max } }
}

#[allow(dead_code)]
fn range(lo: char, hi: char, negated: bool) -> Prod {
    Prod::Class(CharClass { negated, chars: vec![], ranges: vec![(lo, hi)], span: None })
}

#[allow(dead_code)]
fn rule(name: &str, production: Prod) -> Rule {
    Rule { name: name.to_string(), production, span: None }
}

#[allow(dead_code)]
fn grammar(rules: Vec<Rule>) -> Grammar {
    Grammar { rules }
}

#[allow(dead_code)]
fn has_error(events: &[ParseEvent]) -> bool {
    events.iter().any(|e| matches!(e, ParseEvent::Error(_)))
}

#[allow(dead_code)]
fn token_count(events: &[ParseEvent]) -> usize {
    events.iter().filter(|e| matches!(e, ParseEvent::Token { .. })).count()
}
