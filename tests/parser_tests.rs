use medley::ebnf::{CharClass, Grammar, ParseEvent, Parser, Prod, RepeatQuant, Rule, TerminalKind, TokenKind};

fn all_events(parser: &mut Parser) -> Vec<ParseEvent> {
    let mut events = Vec::new();
    while let Some(ev) = parser.next_event() {
        events.push(ev);
    }
    events
}

#[test]
fn parses_simple_sequence() {
    let g = grammar(vec![rule("start", seq(vec![lit("a"), lit("b")]))]);

    let mut parser = Parser::from_str(&g, "ab");
    let events = all_events(&mut parser);

    assert_eq!(events.len(), 4);
    match &events[0] { ParseEvent::Start { rule } => assert_eq!(*rule, "start"), _ => panic!("expected Start") }
    match &events[1] {
        ParseEvent::Token { kind: TokenKind::Str(s), .. } => assert_eq!(*s, "a"),
        _ => panic!("expected first token"),
    }
    match &events[2] {
        ParseEvent::Token { kind: TokenKind::Str(s), .. } => assert_eq!(*s, "b"),
        _ => panic!("expected second token"),
    }
    match &events[3] { ParseEvent::End { rule } => assert_eq!(*rule, "start"), _ => panic!("expected End") }
}

#[test]
fn handles_alternation() {
    let g = grammar(vec![rule("start", alt(vec![lit("x"), lit("y")]))]);

    let mut parser = Parser::from_str(&g, "y");
    let events = all_events(&mut parser);
    // Events of the failed first alternative are held back and dropped: the second matches.
    assert!(!has_error(&events));
    assert!(matches!(&events[0], ParseEvent::Start { rule } if rule == "start"));
    assert!(events.iter().any(|e| matches!(e, ParseEvent::Token { kind: TokenKind::Str(s), .. } if s == "y")));
}

#[test]
fn repeat_enforces_minimum() {
    let g = grammar(vec![rule("start", rep(lit("a"), 1, None))]);

    let mut parser = Parser::from_str(&g, "");
    let events = all_events(&mut parser);
    assert!(events.iter().any(|e| matches!(e, ParseEvent::Error(_))));

    let mut parser_ok = Parser::from_str(&g, "aaa");
    let events_ok = all_events(&mut parser_ok);
    let count = events_ok
        .iter()
        .filter(|e| matches!(e, ParseEvent::Token { kind: TokenKind::Str(s), .. } if *s == "a"))
        .count();
    assert_eq!(count, 3);
}

#[test]
fn reports_error_context() {
    let g = grammar(vec![rule("start", lit("hello"))]);

    let mut parser = Parser::from_str(&g, "bye");
    let events = all_events(&mut parser);
    let err = events.iter().find_map(|e| match e {
        ParseEvent::Error(e) => Some(e),
        _ => None,
    });

    let err = err.expect("expected error event");
    assert!(err.message.contains("failed to match"));
    assert_eq!(err.rule_context.as_deref(), Some("start"));
}

#[allow(dead_code)]
fn lit(s: &str) -> Prod {
    Prod::Terminal { kind: TerminalKind::Str(s.to_string()), span: None }
}

#[allow(dead_code)]
fn ch(c: char) -> Prod {
    Prod::Terminal { kind: TerminalKind::Char(c), span: None }
}

#[allow(dead_code)]
fn rf(name: &str) -> Prod {
    Prod::Ref { name: name.to_string(), span: None }
}

#[allow(dead_code)]
fn seq(items: Vec<Prod>) -> Prod {
    Prod::Sequence(items)
}

#[allow(dead_code)]
fn alt(items: Vec<Prod>) -> Prod {
    Prod::Alt(items)
}

#[allow(dead_code)]
fn group(p: Prod) -> Prod {
    Prod::Group(Box::new(p))
}

#[allow(dead_code)]
fn rep(p: Prod, min: usize, max: Option<usize>) -> Prod {
    Prod::Repeat { item: Box::new(p), quant: RepeatQuant { min, max } }
}

#[allow(dead_code)]
fn range(lo: char, hi: char, negated: bool) -> Prod {
    Prod::Class(CharClass { negated, chars: vec![], ranges: vec![(lo, hi)], span: None })
}

#[allow(dead_code)]
fn rule(name: &str, production: Prod) -> Rule {
    Rule { name: name.to_string(), production, span: None }
}

#[allow(dead_code)]
fn grammar(rules: Vec<Rule>) -> Grammar {
    Grammar { rules }
}

#[allow(dead_code)]
fn has_error(events: &[ParseEvent]) -> bool {
    events.iter().any(|e| matches!(e, ParseEvent::Error(_)))
}

#[allow(dead_code)]
fn token_count(events: &[ParseEvent]) -> usize {
    events.iter().filter(|e| matches!(e, ParseEvent::Token { .. })).count()
}
