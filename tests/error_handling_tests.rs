use medley::ebnf::{parse_str, CharClass, Grammar, ParseEvent, Prod, RepeatQuant, Rule, TerminalKind};

#[test]
fn test_unexpected_character_in_terminal() {
    let g = grammar(vec![rule("start", lit("hello"))]);
    let events = parse_str(&g, "hallo");
    assert!(has_error(&events), "Should error on unexpected character");
}

#[test]
fn test_incomplete_repetition() {
    let g = grammar(vec![rule("start", rep(range('0', '9', false), 1, None))]);
    let events = parse_str(&g, "");
    assert!(has_error(&events), "Should error when one-or-more gets zero matches");
}

#[test]
fn test_character_class_mismatch() {
    let g = grammar(vec![rule("start", rep(range('a', 'z', false), 1, None))]);
    let events = parse_str(&g, "123");
    assert!(has_error(&events), "Should error when character class doesn't match");
}

#[test]
fn test_all_alternation_branches_fail() {
    let g = grammar(vec![rule("start", alt(vec![lit("cat"), lit("dog"), lit("bird")]))]);
    let events = parse_str(&g, "fish");
    assert!(token_count(&events) == 0, "Should not produce token events when all alternation branches fail");
    assert!(has_error(&events));
}

#[test]
fn test_incomplete_sequence() {
    let g = grammar(vec![rule("start", seq(vec![lit("hello"), lit(" "), lit("world")]))]);
    let events = parse_str(&g, "hello ");
    assert!(has_error(&events), "Should error when sequence is incomplete");
}

#[test]
fn test_extra_input_after_match() {
    let g = grammar(vec![rule("start", lit("test"))]);
    let events = parse_str(&g, "testing");
    assert_eq!(token_count(&events), 1, "String literal emits single token event");
}

#[test]
fn test_nested_repetition_error() {
    let g = grammar(vec![rule("start", rep(group(rep(range('0', '9', false), 1, None)), 1, None))]);
    let events = parse_str(&g, "abc");
    assert!(has_error(&events), "Should error in nested repetition with no matches");
}

#[test]
fn test_terminal_at_eof() {
    let g = grammar(vec![rule("start", lit("test"))]);
    let events = parse_str(&g, "tes");
    assert!(has_error(&events), "Should error when EOF reached during terminal");
}

#[test]
fn test_character_class_at_eof() {
    let g = grammar(vec![rule("start", rep(range('0', '9', false), 1, None))]);
    let events = parse_str(&g, "123");
    // The repetition stops at the end of input having matched three digits.
    assert!(!has_error(&events));
    assert_eq!(token_count(&events), 3);
}

#[test]
fn test_optional_with_error() {
    let g = grammar(vec![rule("start", seq(vec![lit("test"), rep(lit("!"), 0, Some(1))]))]);
    let events = parse_str(&g, "test@");
    // The optional "!" is skipped; "@" is left unconsumed.
    assert!(!has_error(&events));
    assert_eq!(token_count(&events), 1);
}

#[test]
fn test_empty_character_class_match() {
    let g = grammar(vec![rule("start", rep(range('a', 'z', false), 0, None))]);
    let events = parse_str(&g, "");
    assert!(!has_error(&events));
    assert_eq!(token_count(&events), 0);
}

#[test]
fn test_negated_class_match() {
    let g = grammar(vec![rule("start", rep(range('0', '9', true), 1, None))]);
    let events = parse_str(&g, "123");
    assert!(has_error(&events), "Negated class should fail when input matches excluded range");
}

#[test]
fn test_error_span_information() {
    let g = grammar(vec![rule("start", lit("hello"))]);
    let events = parse_str(&g, "help");
    let error_event = events.iter().find(|e| matches!(e, ParseEvent::Error(_)));
    assert!(error_event.is_some(), "Should have error event");
    if let Some(ParseEvent::Error(err)) = error_event {
        assert!(!err.message.is_empty(), "Error message should not be empty");
    }
}

#[test]
fn test_deep_nesting_error() {
    let inner = seq(vec![ch('('), lit("x"), ch(')')]);
    let middle = seq(vec![ch('('), group(inner), ch(')')]);
    let g = grammar(vec![rule("start", seq(vec![ch('('), group(middle), ch(')')]))]);
    let events = parse_str(&g, "(((y)))");
    assert!(has_error(&events), "Should error in deeply nested structure");
}

#[test]
fn test_repetition_with_partial_match() {
    let g = grammar(vec![rule("start", rep(group(lit("ab")), 1, None))]);
    let events = parse_str(&g, "aba");
    assert_eq!(token_count(&events), 1, "String literal emits single token");
}

#[allow(dead_code)]
fn lit(s: &str) -> Prod {
    Prod::Terminal { kind: TerminalKind::Str(s.to_string()), span: None }
}

#[allow(dead_code)]
fn ch(c: char) -> Prod {
    Prod::Terminal { kind: TerminalKind::Char(c), span: None }
}

#[allow(dead_code)]
fn rf(name: &str) -> Prod {
    Prod::Ref { name: name.to_string(), span: None }
}

#[allow(dead_code)]
fn seq(items: Vec<Prod>) -> Prod {
    Prod::Sequence(items)
}

#[allow(dead_code)]
fn alt(items: Vec<Prod>) -> Prod {
    Prod::Alt(items)
}

#[allow(dead_code)]
fn group(p: Prod) -> Prod {
    Prod::Group(Box::new(p))
}

#[allow(dead_code)]
fn rep(p: Prod, min: usize, max: Option<usize>) -> Prod {
    Prod::Repeat { item: Box::new(p), quant: RepeatQuant { min, max } }
}

#[allow(dead_code)]
fn range(lo: char, hi: char, negated: bool) -> Prod {
    Prod::Class(CharClass { negated, chars: vec![], ranges: vec![(lo, hi)], span: None })
}

#[allow(dead_code)]
fn rule(name: &str, production: Prod) -> Rule {
    Rule { name: name.to_string(), production, span: None }
}

#[allow(dead_code)]
fn grammar(rules: Vec<Rule>) -> Grammar {
    Grammar { rules }
}

#[allow(dead_code)]
fn has_error(events: &[ParseEvent]) -> bool {
    events.iter().any(|e| matches!(e, ParseEvent::Error(_)))
}

#[allow(dead_code)]
fn token_count(events: &[ParseEvent]) -> usize {
    events.iter().filter(|e| matches!(e, ParseEvent::Token { .. })).count()
}
