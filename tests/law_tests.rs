use medley::ast::build_from_events;
use medley::ebnf::{parse_str, CharClass, Grammar, ParseEvent, Parser, Prod, RepeatQuant, Rule, TerminalKind, TokenKind};

fn payload(kind: &TokenKind) -> String {
    match kind {
        TokenKind::Char(c) | TokenKind::Class(c) => c.to_string(),
        TokenKind::Str(s) => s.clone(),
    }
}

fn expr_grammar() -> Grammar {
    // expr = term ('+' term)*; term = 'x' | '(' expr ')'
    grammar(vec![
        rule("expr", seq(vec![rf("term"), rep(group(seq(vec![ch('+'), rf("term")])), 0, None)])),
        rule("term", alt(vec![ch('x'), seq(vec![ch('('), rf("expr"), ch(')')])])),
    ])
}

#[test]
fn starts_and_ends_nest() {
    let events = parse_str(&expr_grammar(), "x+(x+x)");
    assert!(!has_error(&events));
    let mut open: Vec<String> = Vec::new();
    for e in &events {
        match e {
            ParseEvent::Start { rule } => open.push(rule.clone()),
            ParseEvent::End { rule } => assert_eq!(open.pop().as_ref(), Some(rule)),
            _ => {}
        }
    }
    assert!(open.is_empty());
}

#[test]
fn token_spans_are_forward_and_inside_input() {
    let input = "x+(x+x)";
    let events = parse_str(&expr_grammar(), input);
    let mut last_end = 0;
    for e in &events {
        if let ParseEvent::Token { kind, span } = e {
            assert!(span.start < span.end);
            assert_eq!(span.start, last_end);
            assert_eq!(span.end - span.start, payload(kind).len());
            assert!(span.end <= input.len());
            last_end = span.end;
        }
    }
    assert_eq!(last_end, input.len());
}

#[test]
fn line_and_column_laws() {
    let g = grammar(vec![rule("start", lit("a"))]);
    let mut parser = Parser::from_str(&g, "ab\n\ncd\ne");
    while parser.next_event().is_some() {}
    let mut previous = (1, 1);
    for pos in 0..9 {
        let (line, col) = parser.line_column(pos);
        assert!(line >= 1 && col >= 1);
        if [0, 3, 4, 7].contains(&pos) {
            assert_eq!(col, 1);
            if pos > 0 {
                assert!(line > previous.0);
            }
        }
        previous = (line, col);
    }
    assert_eq!(parser.line_column(5), (3, 2));
}

#[test]
fn failed_alternative_returns_to_its_start() {
    // The first alternative consumes "ab" before failing; the second starts again at 0.
    let g = grammar(vec![rule("start", alt(vec![seq(vec![lit("ab"), lit("x")]), lit("abc")]))]);
    let mut parser = Parser::from_str(&g, "abc");
    let mut events = Vec::new();
    while let Some(e) = parser.next_event() {
        events.push(e);
    }
    assert!(!has_error(&events));
    assert_eq!(token_count(&events), 1);
    assert_eq!(parser.current_position(), 3);
}

#[test]
fn tree_terminals_spell_the_tokens() {
    let input = "x+(x+x)";
    let events = parse_str(&expr_grammar(), input);
    let ast = build_from_events(&events, input.len()).unwrap();
    let joined: String = ast.collect_terminals().concat();
    let tokens: String = events
        .iter()
        .filter_map(|e| match e {
            ParseEvent::Token { kind, .. } => Some(payload(kind)),
            _ => None,
        })
        .collect();
    assert_eq!(joined, tokens);
    assert_eq!(joined, input);
}

#[test]
fn round_trip_through_the_tree() {
    let input = "(x+x)+x";
    let ast = medley::ast::parse_str(&expr_grammar(), input).unwrap();
    assert_eq!(ast.collect_terminals().concat(), input);
    assert_eq!(ast.metadata.token_count, 7);
}

#[test]
fn empty_input_with_optional_start_has_no_tokens() {
    let g = grammar(vec![rule("start", rep(lit("a"), 0, None))]);
    let events = parse_str(&g, "");
    assert!(!has_error(&events));
    assert_eq!(token_count(&events), 0);
    assert_eq!(events.len(), 2);
}

#[test]
fn one_or_more_on_empty_input_fails_on_the_minimum() {
    let g = grammar(vec![rule("start", rep(lit("a"), 1, None))]);
    let events = parse_str(&g, "");
    assert_eq!(events.len(), 2);
    assert!(matches!(&events[0], ParseEvent::Start { rule } if rule == "start"));
    match &events[1] {
        ParseEvent::Error(e) => {
            assert!(e.message.contains("repeat") || e.message.contains("minimum"), "{}", e.message);
            assert_eq!(e.position, 0);
        }
        other => panic!("expected an error, got {:?}", other),
    }
}

#[test]
fn sequence_scenario_gives_exact_events() {
    let g = grammar(vec![rule("start", seq(vec![lit("a"), lit("b")]))]);
    let events = parse_str(&g, "ab");
    assert_eq!(events.len(), 4);
    match (&events[1], &events[2]) {
        (
            ParseEvent::Token { kind: TokenKind::Str(a), span: sa },
            ParseEvent::Token { kind: TokenKind::Str(b), span: sb },
        ) => {
            assert_eq!((a.as_str(), sa.start, sa.end), ("a", 0, 1));
            assert_eq!((b.as_str(), sb.start, sb.end), ("b", 1, 2));
        }
        _ => panic!("expected two tokens"),
    }
    assert!(matches!(&events[3], ParseEvent::End { rule } if rule == "start"));
}

#[test]
fn sliding_does_not_change_events() {
    let g = grammar(vec![rule("start", rep(range('a', 'z', false), 1, None))]);
    let data = "q".repeat(200_000);
    let whole = parse_str(&g, &data);
    let mut parser = Parser::new(&g);
    let mut streamed = Vec::new();
    let mut pos = 0;
    loop {
        match parser.pull() {
            medley::ebnf::Pull::Event(e) => streamed.push(e),
            medley::ebnf::Pull::Done => break,
            medley::ebnf::Pull::NeedInput => {
                if pos < data.len() {
                    let end = (pos + 1000).min(data.len());
                    parser.feed(&data.as_bytes()[pos..end]);
                    pos = end;
                } else {
                    parser.finish_input();
                }
            }
        }
    }
    assert_eq!(whole, streamed);
}

#[test]
fn undefined_rule_fails_at_parse_time() {
    let g = grammar(vec![rule("start", rf("nothing"))]);
    let events = parse_str(&g, "x");
    match events.last() {
        Some(ParseEvent::Error(e)) => assert!(e.message.contains("undefined rule 'nothing'")),
        other => panic!("expected an error, got {:?}", other),
    }
}

#[test]
fn empty_grammar_fails_at_once() {
    let g = grammar(vec![]);
    let events = parse_str(&g, "x");
    assert_eq!(events.len(), 1);
    assert!(has_error(&events));
}

#[test]
fn bounded_repetition_stops_at_its_maximum() {
    let g = grammar(vec![rule("start", rep(ch('a'), 0, Some(2)))]);
    let mut parser = Parser::from_str(&g, "aaaa");
    let mut events = Vec::new();
    while let Some(e) = parser.next_event() {
        events.push(e);
    }
    assert_eq!(token_count(&events), 2);
    assert_eq!(parser.current_position(), 2);
}

#[allow(dead_code)]
fn lit(s: &str) -> Prod {
    Prod::Terminal { kind: TerminalKind::Str(s.to_string()), span: None }
}

#[allow(dead_code)]
fn ch(c: char) -> Prod {
    Prod::Terminal { kind: TerminalKind::Char(c), span: None }
}

#[allow(dead_code)]
fn rf(name: &str) -> Prod {
    Prod::Ref { name: name.to_string(), span: None }
}

#[allow(dead_code)]
fn seq(items: Vec<Prod>) -> Prod {
    Prod::Sequence(items)
}

#[allow(dead_code)]
fn alt(items: Vec<Prod>) -> Prod {
    Prod::Alt(items)
}

#[allow(dead_code)]
fn group(p: Prod) -> Prod {
    Prod::Group(Box::new(p))
}

#[allow(dead_code)]
fn rep(p: Prod, min: usize, max: Option<usize>) -> Prod {
    Prod::Repeat { item: Box::new(p), quant: RepeatQuant { min, max } }
}

#[allow(dead_code)]
fn range(lo: char, hi: char, negated: bool) -> Prod {
    Prod::Class(CharClass { negated, chars: vec![], ranges: vec![(lo, hi)], span: None })
}

#[allow(dead_code)]
fn rule(name: &str, production: Prod) -> Rule {
    Rule { name: name.to_string(), production, span: None }
}

#[allow(dead_code)]
fn grammar(rules: Vec<Rule>) -> Grammar {
    Grammar { rules }
}

#[allow(dead_code)]
fn has_error(events: &[ParseEvent]) -> bool {
    events.iter().any(|e| matches!(e, ParseEvent::Error(_)))
}

#[allow(dead_code)]
fn token_count(events: &[ParseEvent]) -> usize {
    events.iter().filter(|e| matches!(e, ParseEvent::Token { .. })).count()
}

#[test]
fn input_is_refused_once_complete() {
    let g = grammar(vec![rule("start", lit("ab"))]);
    let mut parser = Parser::new(&g);
    assert!(parser.feed(b"a"));
    parser.finish_input();
    assert!(!parser.feed(b"b"));
    assert!(!parser.feed_str("b"));
    let mut events = Vec::new();
    while let Some(e) = parser.next_event() {
        events.push(e);
    }
    assert!(has_error(&events));
    assert!(matches!(events.last(), Some(ParseEvent::Error(_))));
    assert!(parser.next_event().is_none());
}

#[test]
fn nothing_follows_an_error() {
    let g = grammar(vec![rule("start", seq(vec![lit("a"), lit("b")]))]);
    let events = parse_str(&g, "ax");
    let first_error = events.iter().position(|e| matches!(e, ParseEvent::Error(_))).unwrap();
    assert_eq!(first_error, events.len() - 1);
}

#[test]
fn empty_repetition_body_stops_the_repetition() {
    let g = grammar(vec![rule("start", rep(seq(vec![]), 0, None))]);
    let events = parse_str(&g, "abc");
    assert!(!has_error(&events));
    assert_eq!(events.len(), 2);
}
