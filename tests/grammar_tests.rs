use medley::ebnf::{CharClass, Grammar, ParseEvent, Prod, RepeatQuant, Rule, TerminalKind};

#[test]
fn grammar_valid_simple_grammar_has_no_errors_and_infers_start() {
    let g = grammar(vec![
        rule(
            "digit",
            Prod::Class(CharClass { negated: false, chars: vec![], ranges: vec![('0', '9')], span: None }),
        ),
        rule("number", rep(rf("digit"), 1, None)),
    ]);
    let errors = g.validate();
    assert!(errors.is_empty(), "expected no errors, got: {:?}", errors);
    assert!(g.get_rule("digit").is_some());
}

#[test]
fn grammar_undefined_rule_reference_is_reported() {
    let g = grammar(vec![rule("start", rf("missing"))]);
    let errors = g.validate();
    assert!(errors.iter().any(|e| e.contains("undefined rule 'missing'")), "errors: {:?}", errors);
}

#[test]
fn direct_left_recursion_is_detected() {
    // expr = expr '+' term | term
    let g = grammar(vec![
        rule("expr", alt(vec![seq(vec![rf("expr"), ch('+'), rf("term")]), rf("term")])),
        rule("term", ch('x')),
    ]);
    let errors = g.validate();
    assert!(errors.iter().any(|e| e.contains("left recursion") && e.contains("expr")), "errors: {:?}", errors);
}

#[test]
fn indirect_left_recursion_is_detected() {
    let g = grammar(vec![rule("a", rf("b")), rule("b", rf("a"))]);
    let errors = g.validate();
    assert!(errors.iter().any(|e| e.contains("left recursion")), "errors: {:?}", errors);
}

#[test]
fn right_recursion_is_not_flagged() {
    // expr = term '+' expr | term
    let g = grammar(vec![
        rule("expr", alt(vec![seq(vec![rf("term"), ch('+'), rf("expr")]), rf("term")])),
        rule("term", ch('x')),
    ]);
    let errors = g.validate();
    assert!(!errors.iter().any(|e| e.contains("left recursion")), "errors: {:?}", errors);
}

#[test]
fn pure_reference_cycle_is_detected() {
    let g = grammar(vec![rule("a", rf("b")), rule("b", rf("a"))]);
    let errors = g.validate();
    assert!(errors.iter().any(|e| e.contains("cyclic dependency")), "errors: {:?}", errors);
}

#[test]
fn indirect_pure_cycle_is_detected() {
    let g = grammar(vec![rule("a", rf("b")), rule("b", rf("c")), rule("c", rf("a"))]);
    let errors = g.validate();
    assert!(errors.iter().any(|e| e.contains("cyclic dependency")), "errors: {:?}", errors);
}

#[test]
fn cycle_with_terminals_is_not_flagged() {
    // a = 'x' a 'y' | 'z'
    let g = grammar(vec![rule("a", alt(vec![seq(vec![ch('x'), rf("a"), ch('y')]), ch('z')]))]);
    let errors = g.validate();
    assert!(!errors.iter().any(|e| e.contains("cyclic dependency")), "errors: {:?}", errors);
}

#[test]
fn no_cycle_with_proper_termination() {
    // a = b | 'x'; b = c | 'y'; c = 'z'
    let g = grammar(vec![
        rule("a", alt(vec![rf("b"), ch('x')])),
        rule("b", alt(vec![rf("c"), ch('y')])),
        rule("c", ch('z')),
    ]);
    let errors = g.validate();
    assert!(!errors.iter().any(|e| e.contains("cyclic dependency")), "errors: {:?}", errors);
}

#[test]
fn ir_valid_simple_grammar_has_no_errors_and_infers_start() {
    let g = grammar(vec![
        rule(
            "digit",
            Prod::Class(CharClass { negated: false, chars: vec![], ranges: vec![('0', '9')], span: None }),
        ),
        rule("number", rep(rf("digit"), 1, None)),
    ]);
    let errors = g.validate();
    assert!(errors.is_empty(), "expected no errors, got: {:?}", errors);
    assert!(g.get_rule("digit").is_some());
    assert_eq!(g.start_rule().map(|r| r.name.as_str()), Some("digit"));
}

#[test]
fn ir_undefined_rule_reference_is_reported() {
    let g = grammar(vec![rule("start", rf("missing"))]);
    let errors = g.validate();
    assert!(errors.iter().any(|e| e.contains("undefined rule 'missing'")), "errors: {:?}", errors);
}

#[test]
fn left_recursion_message_names_the_path() {
    let g = grammar(vec![
        rule("expr", alt(vec![seq(vec![rf("expr"), ch('+'), rf("term")]), rf("term")])),
        rule("term", ch('x')),
    ]);
    let errors = g.validate();
    assert_eq!(errors, vec!["left recursion detected: expr -> expr".to_string()]);
}

#[test]
fn pure_cycle_reports_both_analyses_in_order() {
    let g = grammar(vec![rule("a", rf("b")), rule("b", rf("a"))]);
    let errors = g.validate();
    assert_eq!(
        errors,
        vec![
            "left recursion detected: a -> b -> a".to_string(),
            "left recursion detected: b -> a -> b".to_string(),
            "cyclic dependency detected: a -> b -> a".to_string(),
            "cyclic dependency detected: b -> a -> b".to_string(),
        ]
    );
}

#[test]
fn empty_grammar_is_reported_alone() {
    let g = grammar(vec![]);
    assert_eq!(g.validate(), vec!["grammar has no rules".to_string()]);
}

#[test]
fn validation_is_idempotent() {
    let g = grammar(vec![rule("a", rf("b")), rule("b", rf("a")), rule("c", rf("nowhere"))]);
    let first = g.validate();
    let second = g.validate();
    assert_eq!(first, second);
    assert_eq!(first[0], "undefined rule 'nowhere'");
}

#[test]
fn optional_leading_item_is_not_followed() {
    // a = 'x'? a  -- the analysis does not follow a leading item that may be empty
    let g = grammar(vec![rule("a", seq(vec![rep(ch('x'), 0, Some(1)), rf("a")]))]);
    let errors = g.validate();
    assert!(!errors.iter().any(|e| e.contains("left recursion")), "errors: {:?}", errors);
}

#[test]
fn get_rule_finds_the_first_of_duplicates() {
    let g = grammar(vec![rule("a", ch('x')), rule("a", ch('y'))]);
    match &g.get_rule("a").unwrap().production {
        Prod::Terminal { kind: TerminalKind::Char(c), .. } => assert_eq!(*c, 'x'),
        _ => panic!("expected the first rule"),
    }
    assert!(g.get_rule("b").is_none());
}

#[test]
fn class_membership_follows_negation() {
    let class = CharClass { negated: false, chars: vec!['_'], ranges: vec![('a', 'z')], span: None };
    assert!(class.matches('q'));
    assert!(class.matches('_'));
    assert!(!class.matches('Q'));
    let negated = CharClass { negated: true, chars: vec!['_'], ranges: vec![('a', 'z')], span: None };
    assert!(!negated.matches('q'));
    assert!(negated.matches('Q'));
}

#[allow(dead_code)]
fn lit(s: &str) -> Prod {
    Prod::Terminal { kind: TerminalKind::Str(s.to_string()), span: None }
}

#[allow(dead_code)]
fn ch(c: char) -> Prod {
    Prod::Terminal { kind: TerminalKind::Char(c), span: None }
}

#[allow(dead_code)]
fn rf(name: &str) -> Prod {
    Prod::Ref { name: name.to_string(), span: None }
}

#[allow(dead_code)]
fn seq(items: Vec<Prod>) -> Prod {
    Prod::Sequence(items)
}

#[allow(dead_code)]
fn alt(items: Vec<Prod>) -> Prod {
    Prod::Alt(items)
}

#[allow(dead_code)]
fn group(p: Prod) -> Prod {
    Prod::Group(Box::new(p))
}

#[allow(dead_code)]
fn rep(p: Prod, min: usize, max: Option<usize>) -> Prod {
    Prod::Repeat { item: Box::new(p), quant: RepeatQuant { min, max } }
}

#[allow(dead_code)]
fn range(lo: char, hi: char, negated: bool) -> Prod {
    Prod::Class(CharClass { negated, chars: vec![], ranges: vec![(lo, hi)], span: None })
}

#[allow(dead_code)]
fn rule(name: &str, production: Prod) -> Rule {
    Rule { name: name.to_string(), production, span: None }
}

#[allow(dead_code)]
fn grammar(rules: Vec<Rule>) -> Grammar {
    Grammar { rules }
}

#[allow(dead_code)]
fn has_error(events: &[ParseEvent]) -> bool {
    events.iter().any(|e| matches!(e, ParseEvent::Error(_)))
}

#[allow(dead_code)]
fn token_count(events: &[ParseEvent]) -> usize {
    events.iter().filter(|e| matches!(e, ParseEvent::Token { .. })).count()
}
