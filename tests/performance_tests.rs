use medley::ebnf::{CharClass, Grammar, ParseEvent, Parser, Prod, Pull, RepeatQuant, Rule, TerminalKind};

#[test]
fn large_stream_bounded_chunking() {
    let g = grammar(vec![
        rule("start", seq(vec![rf("digit"), rep(rf("digit"), 0, None)])),
        rule("digit", range('0', '9', false)),
    ]);
    let data = "1".repeat(2 * 1024 * 1024); // 2MB
    let bytes = data.as_bytes();
    let mut parser = Parser::new(&g);
    let mut pos = 0;
    let mut tokens = 0;
    let mut peak = 0;
    loop {
        match parser.pull() {
            Pull::Event(ParseEvent::Token { .. }) => tokens += 1,
            Pull::Event(ParseEvent::Error(e)) => panic!("unexpected error: {:?}", e),
            Pull::Event(_) => {}
            Pull::Done => break,
            Pull::NeedInput => {
                if pos < bytes.len() {
                    let end = (pos + 128).min(bytes.len());
                    assert!(parser.feed(&bytes[pos..end]));
                    pos = end;
                } else {
                    parser.finish_input();
                }
            }
        }
        peak = peak.max(parser.buffer_len());
    }
    assert_eq!(tokens, data.len());
    assert!(peak <= 2 * medley::ebnf::parser::MAX_BUFFER_SIZE, "peak buffer {}", peak);
}

#[test]
fn class_stream_in_small_chunks() {
    let g = grammar(vec![rule("start", rep(range('a', 'z', false), 1, None))]);
    let data = "a".repeat(2 * 1024 * 1024);
    let bytes = data.as_bytes();
    let mut parser = Parser::new(&g);
    let mut pos = 0;
    let mut tokens = 0;
    let mut errors = 0;
    let mut peak = 0;
    loop {
        match parser.pull() {
            Pull::Event(ParseEvent::Token { .. }) => tokens += 1,
            Pull::Event(ParseEvent::Error(_)) => errors += 1,
            Pull::Event(_) => {}
            Pull::Done => break,
            Pull::NeedInput => {
                if pos < bytes.len() {
                    let end = (pos + 128).min(bytes.len());
                    assert!(parser.feed(&bytes[pos..end]));
                    pos = end;
                } else {
                    parser.finish_input();
                }
            }
        }
        peak = peak.max(parser.buffer_len());
    }
    assert_eq!(tokens, 2_097_152);
    assert_eq!(errors, 0);
    assert!(peak <= 2 * medley::ebnf::parser::MAX_BUFFER_SIZE, "peak buffer {}", peak);
}

#[allow(dead_code)]
fn lit(s: &str) -> Prod {
    Prod::Terminal { kind: TerminalKind::Str(s.to_string()), span: None }
}

#[allow(dead_code)]
fn ch(c: char) -> Prod {
    Prod::Terminal { kind: TerminalKind::Char(c), span: None }
}

#[allow(dead_code)]
fn rf(name: &str) -> Prod {
    Prod::Ref { name: name.to_string(), span: None }
}

#[allow(dead_code)]
fn seq(items: Vec<Prod>) -> Prod {
    Prod::Sequence(items)
}

#[allow(dead_code)]
fn alt(items: Vec<Prod>) -> Prod {
    Prod::Alt(items)
}

#[allow(dead_code)]
fn group(p: Prod) -> Prod {
    Prod::Group(Box::new(p))
}

#[allow(dead_code)]
fn rep(p: Prod, min: usize, max: Option<usize>) -> Prod {
    Prod::Repeat { item: Box::new(p), quant: RepeatQuant { min, max } }
}

#[allow(dead_code)]
fn range(lo: char, hi: char, negated: bool) -> Prod {
    Prod::Class(CharClass { negated, chars: vec![], ranges: vec![(lo, hi)], span: None })
}

#[allow(dead_code)]
fn rule(name: &str, production: Prod) -> Rule {
    Rule { name: name.to_string(), production, span: None }
}

#[allow(dead_code)]
fn grammar(rules: Vec<Rule>) -> Grammar {
    Grammar { rules }
}

#[allow(dead_code)]
fn has_error(events: &[ParseEvent]) -> bool {
    events.iter().any(|e| matches!(e, ParseEvent::Error(_)))
}

#[allow(dead_code)]
fn token_count(events: &[ParseEvent]) -> usize {
    events.iter().filter(|e| matches!(e, ParseEvent::Token { .. })).count()
}
