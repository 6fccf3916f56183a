use medley::ebnf::{CharClass, Grammar, ParseEvent, Parser, Prod, Pull, RepeatQuant, Rule, TerminalKind};

/// Parses `data` handed over in pieces of `chunk` bytes, as a reader would.
fn parse_chunks(g: &Grammar, data: &[u8], chunk: usize) -> (Vec<ParseEvent>, usize) {
    let mut parser = Parser::new(g);
    let mut pos = 0;
    let mut events = Vec::new();
    loop {
        match parser.pull() {
            Pull::Event(e) => events.push(e),
            Pull::Done => break,
            Pull::NeedInput => {
                if pos < data.len() {
                    let end = (pos + chunk).min(data.len());
                    assert!(parser.feed(&data[pos..end]));
                    pos = end;
                } else {
                    parser.finish_input();
                }
            }
        }
    }
    (events, parser.current_position())
}

fn parse(g: &Grammar, data: &[u8]) -> Vec<ParseEvent> {
    parse_chunks(g, data, 8192).0
}

fn digits() -> Grammar {
    grammar(vec![
        rule("start", seq(vec![rf("digit"), rep(rf("digit"), 0, None)])),
        rule("digit", range('0', '9', false)),
    ])
}

#[test]
fn test_parse_from_bufreader() {
    let g = grammar(vec![rule("start", lit("hello"))]);
    let events = parse(&g, b"hello");
    assert!(events.iter().any(|e| matches!(e, ParseEvent::Token { .. })));
}

#[test]
fn test_parse_repeated_rule_reference() {
    let events = parse(&digits(), b"123");
    assert_eq!(token_count(&events), 3, "Should parse all three digits");
}

#[test]
fn test_parse_multiline_input() {
    let g = grammar(vec![
        rule("start", seq(vec![rf("line"), rep(rf("line"), 0, None)])),
        rule("line", seq(vec![rf("word"), rf("ws")])),
        rule("word", seq(vec![rf("letter"), rep(rf("letter"), 0, None)])),
        rule("letter", range('a', 'z', false)),
        rule("ws", rep(ch(' '), 0, None)),
    ]);
    let events = parse(&g, b"hello world test ");
    assert!(token_count(&events) > 0, "Should parse words and whitespace");
    assert_eq!(token_count(&events), 17);
    assert!(!has_error(&events));
}

#[test]
fn test_parse_empty_input() {
    let g = grammar(vec![rule("start", rep(range('0', '9', false), 0, None))]);
    let events = parse(&g, b"");
    let has_start_end = events.iter().any(|e| matches!(e, ParseEvent::Start { .. }));
    assert!(has_start_end || events.is_empty(), "Should produce Start/End or be empty");
    assert_eq!(events.len(), 2);
    assert_eq!(token_count(&events), 0);
}

#[test]
fn test_parse_utf8_input() {
    let g = grammar(vec![rule("start", lit("hello"))]);
    let events = parse(&g, "hello".as_bytes());
    assert!(events.iter().any(|e| matches!(e, ParseEvent::Token { .. })));
}

#[test]
fn test_alternation_with_backtracking() {
    let g = grammar(vec![rule("start", alt(vec![lit("abc"), lit("ab"), lit("a")]))]);
    let events = parse(&g, b"abc");
    assert!(!has_error(&events), "Should parse 'abc' without backtracking");
}

#[test]
fn test_repetition_boundary() {
    // The parser does not demand the end of input; a caller wanting the whole input matched
    // compares the final position with its length, which reveals the trailing characters.
    let (events, end) = parse_chunks(&digits(), b"123abc", 8192);
    assert!(!has_error(&events));
    assert_eq!(token_count(&events), 3);
    assert!(end < 6, "Should report an error when trailing characters follow digits");
}

#[test]
fn test_nested_groups() {
    let ab = || group(alt(vec![ch('a'), ch('b')]));
    let g = grammar(vec![rule("start", seq(vec![ch('('), ab(), rep(ab(), 0, None), ch(')')]))]);
    let events = parse(&g, b"(aba)");
    assert!(!events.iter().any(|e| matches!(e, ParseEvent::Error(_))));
}

#[test]
fn test_optional_at_end() {
    let g = grammar(vec![rule("start", seq(vec![lit("test"), rep(lit("!"), 0, Some(1))]))]);
    let events1 = parse(&g, b"test");
    let has_tokens1 = events1.iter().any(|e| matches!(e, ParseEvent::Token { .. }));
    let events2 = parse(&g, b"test!");
    let has_tokens2 = events2.iter().any(|e| matches!(e, ParseEvent::Token { .. }));
    assert!(has_tokens1 || has_tokens2, "At least one case should produce tokens");
    assert_eq!(token_count(&events1), 1);
    assert_eq!(token_count(&events2), 2);
}

#[test]
fn test_character_class_negation() {
    let g = grammar(vec![
        rule("start", seq(vec![rf("letter"), rep(rf("letter"), 0, None)])),
        rule("letter", range('a', 'z', false)),
    ]);
    let events = parse(&g, b"abc");
    assert_eq!(token_count(&events), 3);
}

#[test]
fn invalid_utf8_is_replaced() {
    let g = grammar(vec![rule("start", seq(vec![ch('a'), ch('\u{FFFD}'), ch('b')]))]);
    let events = parse(&g, &[b'a', 0xff, b'b']);
    assert!(!has_error(&events));
    assert_eq!(token_count(&events), 3);
}

#[test]
fn tokens_split_across_chunks_are_matched() {
    let g = grammar(vec![rule("start", rep(lit("abc"), 1, None))]);
    let (events, end) = parse_chunks(&g, b"abcabcabc", 2);
    assert!(!has_error(&events));
    assert_eq!(token_count(&events), 3);
    assert_eq!(end, 9);
}

#[allow(dead_code)]
fn lit(s: &str) -> Prod {
    Prod::Terminal { kind: TerminalKind::Str(s.to_string()), span: None }
}

#[allow(dead_code)]
fn ch(c: char) -> Prod {
    Prod::Terminal { kind: TerminalKind::Char(c), span: None }
}

#[allow(dead_code)]
fn rf(name: &str) -> Prod {
    Prod::Ref { name: name.to_string(), span: None }
}

#[allow(dead_code)]
fn seq(items: Vec<Prod>) -> Prod {
    Prod::Sequence(items)
}

#[allow(dead_code)]
fn alt(items: Vec<Prod>) -> Prod {
    Prod::Alt(items)
}

#[allow(dead_code)]
fn group(p: Prod) -> Prod {
    Prod::Group(Box::new(p))
}

#[allow(dead_code)]
fn rep(p: Prod, min: usize, max: Option<usize>) -> Prod {
    Prod::Repeat { item: Box::new(p), quant: RepeatQuant { min, max } }
}

#[allow(dead_code)]
fn range(lo: char, hi: char, negated: bool) -> Prod {
    Prod::Class(CharClass { negated, chars: vec![], ranges: vec![(lo, hi)], span: None })
}

#[allow(dead_code)]
fn rule(name: &str, production: Prod) -> Rule {
    Rule { name: name.to_string(), production, span: None }
}

#[allow(dead_code)]
fn grammar(rules: Vec<Rule>) -> Grammar {
    Grammar { rules }
}

#[allow(dead_code)]
fn has_error(events: &[ParseEvent]) -> bool {
    events.iter().any(|e| matches!(e, ParseEvent::Error(_)))
}

#[allow(dead_code)]
fn token_count(events: &[ParseEvent]) -> usize {
    events.iter().filter(|e| matches!(e, ParseEvent::Token { .. })).count()
}
