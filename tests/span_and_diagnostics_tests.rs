use medley::ebnf::Span;
use medley::ebnf::{parse_str, CharClass, Grammar, ParseError, ParseEvent, Parser, Prod, RepeatQuant, Rule, TerminalKind};

#[test]
fn test_line_column_tracking_single_line() {
    let g = grammar(vec![rule("start", seq(vec![lit("hello"), lit("world")]))]);
    let events = parse_str(&g, "helloworld");
    for event in &events {
        if let ParseEvent::Token { span, .. } = event {
            assert_eq!(span.line, Some(1), "Expected line 1 for single-line input");
        }
    }
}

#[test]
fn test_line_column_tracking_multiline() {
    let g = grammar(vec![rule("start", seq(vec![lit("a"), lit("b"), lit("c")]))]);
    let events = parse_str(&g, "abc");
    assert!(events.len() >= 5);
    match &events[1] {
        ParseEvent::Token { span, .. } => {
            assert_eq!(span.line, Some(1), "First token should be on line 1");
            assert_eq!(span.column, Some(1), "First token should be on column 1");
        }
        _ => panic!("Expected first token"),
    }
    match &events[2] {
        ParseEvent::Token { span, .. } => {
            assert_eq!(span.line, Some(1), "Second token should be on line 1");
            assert_eq!(span.column, Some(2), "Second token should be on column 2");
        }
        _ => panic!("Expected second token"),
    }
    match &events[3] {
        ParseEvent::Token { span, .. } => {
            assert_eq!(span.line, Some(1), "Third token should be on line 1");
            assert_eq!(span.column, Some(3), "Third token should be on column 3");
        }
        _ => panic!("Expected third token"),
    }
}

#[test]
fn test_span_with_position_constructor() {
    let span = Span::with_position(0, 5, 1, 1);
    assert_eq!(span.start, 0);
    assert_eq!(span.end, 5);
    assert_eq!(span.line, Some(1));
    assert_eq!(span.column, Some(1));
}

#[test]
fn test_span_new_constructor() {
    let span = Span::new(0, 5);
    assert_eq!(span.start, 0);
    assert_eq!(span.end, 5);
    assert_eq!(span.line, None);
    assert_eq!(span.column, None);
}

#[test]
fn test_parse_error_with_context() {
    let error = ParseError::new("expected terminal", 10)
        .with_rule_context("expression")
        .with_hint("try adding whitespace");
    assert_eq!(error.message, "expected terminal");
    assert_eq!(error.position, 10);
    assert_eq!(error.rule_context, Some("expression".to_string()));
    assert_eq!(error.hint, Some("try adding whitespace".to_string()));
}

#[test]
fn test_parse_error_with_span() {
    let span = Span::with_position(5, 10, 1, 6);
    let error = ParseError::new("invalid syntax", 5).with_span(span);
    assert_eq!(error.span.unwrap().start, 5);
    assert_eq!(error.span.unwrap().line, Some(1));
}

#[test]
fn test_error_event_includes_rule_context() {
    let g = grammar(vec![rule("start", lit("exact_match"))]);
    let events = parse_str(&g, "wrong");
    let error_found = events.iter().any(|e| {
        if let ParseEvent::Error(err) = e {
            err.rule_context.is_some() && err.message.contains("failed to match")
        } else {
            false
        }
    });
    assert!(error_found, "Expected error with rule context");
}

#[test]
fn test_line_column_tracker_new() {
    let input = "hello\nworld\ntest";
    let g = grammar(vec![rule("start", lit("hello"))]);
    let mut parser = Parser::from_str(&g, input);
    while let Some(_) = parser.next_event() {}

    let (line, col) = parser.line_column(0);
    assert_eq!(line, 1);
    assert_eq!(col, 1);
    let (line, col) = parser.line_column(6);
    assert_eq!(line, 2);
    assert_eq!(col, 1);
    let (line, col) = parser.line_column(12);
    assert_eq!(line, 3);
    assert_eq!(col, 1);
}

#[test]
fn test_line_column_tracker_mid_line() {
    let input = "hello world";
    let g = grammar(vec![rule("start", lit("hello"))]);
    let mut parser = Parser::from_str(&g, input);
    while let Some(_) = parser.next_event() {}

    let (line, col) = parser.line_column(3);
    assert_eq!(line, 1);
    assert_eq!(col, 4);
    let (line, col) = parser.line_column(8);
    assert_eq!(line, 1);
    assert_eq!(col, 9);
}

#[test]
fn test_span_with_position_from_tracker() {
    let input = "a\nb\nc";
    let g = grammar(vec![rule("start", lit("a"))]);
    let mut parser = Parser::from_str(&g, input);
    while let Some(_) = parser.next_event() {}

    let span = parser.span_from_range(0, 1);
    assert_eq!(span.start, 0);
    assert_eq!(span.end, 1);
    assert_eq!(span.line, Some(1));
    assert_eq!(span.column, Some(1));
    let span = parser.span_from_range(2, 3);
    assert_eq!(span.line, Some(2));
    assert_eq!(span.column, Some(1));
}

#[test]
fn test_multiple_errors_in_sequence() {
    let g = grammar(vec![rule("start", seq(vec![lit("a"), lit("b"), lit("c")]))]);
    let events = parse_str(&g, "abc");
    let error_count = events.iter().filter(|e| matches!(e, ParseEvent::Error(_))).count();
    assert_eq!(error_count, 0);
}

#[test]
fn test_error_with_position_tracking() {
    let g = grammar(vec![rule("start", lit("hello"))]);
    let input = "bye bye";
    let events = parse_str(&g, input);
    let error_event = events.iter().find(|e| matches!(e, ParseEvent::Error(_)));
    assert!(error_event.is_some(), "Expected error event");
    if let Some(ParseEvent::Error(err)) = error_event {
        assert!(err.message.contains("failed to match"));
        assert!(err.position < input.len());
    }
}

#[test]
fn test_token_span_accuracy_with_multiline() {
    let g = grammar(vec![rule("start", seq(vec![lit("x"), lit("y"), lit("z")]))]);
    let events = parse_str(&g, "xyz");
    match &events[1] {
        ParseEvent::Token { span, .. } => {
            assert_eq!(span.line, Some(1));
            assert_eq!(span.column, Some(1));
        }
        _ => panic!("Expected first token"),
    }
    match &events[2] {
        ParseEvent::Token { span, .. } => {
            assert_eq!(span.line, Some(1));
            assert_eq!(span.column, Some(2));
        }
        _ => panic!("Expected second token"),
    }
    match &events[3] {
        ParseEvent::Token { span, .. } => {
            assert_eq!(span.line, Some(1));
            assert_eq!(span.column, Some(3));
        }
        _ => panic!("Expected third token"),
    }
}

#[test]
fn test_column_tracking_within_line() {
    let g = grammar(vec![rule("start", seq(vec![lit("hello"), lit(" "), lit("world")]))]);
    let events = parse_str(&g, "hello world");
    match &events[1] {
        ParseEvent::Token { span, .. } => {
            assert_eq!(span.column, Some(1), "First token should start at column 1");
        }
        _ => panic!("Expected first token"),
    }
    match &events[2] {
        ParseEvent::Token { span, .. } => {
            assert_eq!(span.column, Some(6), "Space should be at column 6");
        }
        _ => panic!("Expected space token"),
    }
    match &events[3] {
        ParseEvent::Token { span, .. } => {
            assert_eq!(span.column, Some(7), "Third token should start at column 7");
        }
        _ => panic!("Expected third token"),
    }
}

#[test]
fn tokens_on_later_lines_carry_their_line() {
    let g = grammar(vec![rule("start", seq(vec![lit("ab"), ch('\n'), lit("cd")]))]);
    let events = parse_str(&g, "ab\ncd");
    match &events[3] {
        ParseEvent::Token { span, .. } => {
            assert_eq!((span.start, span.end), (3, 5));
            assert_eq!(span.line, Some(2));
            assert_eq!(span.column, Some(1));
        }
        _ => panic!("Expected third token"),
    }
}

#[test]
fn multibyte_characters_take_their_byte_width() {
    let g = grammar(vec![rule("start", seq(vec![ch('é'), lit("ß!")]))]);
    let events = parse_str(&g, "éß!");
    match (&events[1], &events[2]) {
        (ParseEvent::Token { span: a, .. }, ParseEvent::Token { span: b, .. }) => {
            assert_eq!((a.start, a.end), (0, 2));
            assert_eq!((b.start, b.end), (2, 5));
        }
        _ => panic!("Expected two tokens"),
    }
}

#[allow(dead_code)]
fn lit(s: &str) -> Prod {
    Prod::Terminal { kind: TerminalKind::Str(s.to_string()), span: None }
}

#[allow(dead_code)]
fn ch(c: char) -> Prod {
    Prod::Terminal { kind: TerminalKind::Char(c), span: None }
}

#[allow(dead_code)]
fn rf(name: &str) -> Prod {
    Prod::Ref { name: name.to_string(), span: None }
}

#[allow(dead_code)]
fn seq(items: Vec<Prod>) -> Prod {
    Prod::Sequence(items)
}

#[allow(dead_code)]
fn alt(items: Vec<Prod>) -> Prod {
    Prod::Alt(items)
}

#[allow(dead_code)]
fn group(p: Prod) -> Prod {
    Prod::Group(Box::new(p))
}

#[allow(dead_code)]
fn rep(p: Prod, min: usize, max: Option<usize>) -> Prod {
    Prod::Repeat { item: Box::new(p), quant: RepeatQuant { min, max } }
}

#[allow(dead_code)]
fn range(lo: char, hi: char, negated: bool) -> Prod {
    Prod::Class(CharClass { negated, chars: vec![], ranges: vec![(lo, hi)], span: None })
}

#[allow(dead_code)]
fn rule(name: &str, production: Prod) -> Rule {
    Rule { name: name.to_string(), production, span: None }
}

#[allow(dead_code)]
fn grammar(rules: Vec<Rule>) -> Grammar {
    Grammar { rules }
}

#[allow(dead_code)]
fn has_error(events: &[ParseEvent]) -> bool {
    events.iter().any(|e| matches!(e, ParseEvent::Error(_)))
}

#[allow(dead_code)]
fn token_count(events: &[ParseEvent]) -> usize {
    events.iter().filter(|e| matches!(e, ParseEvent::Token { .. })).count()
}
