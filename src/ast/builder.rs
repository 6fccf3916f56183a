//! Building a syntax tree from parse events.

use vstd::prelude::*;

use super::node::{alike, terminals, Ast, AstMetadata, AstNode};
use crate::ebnf::grammar::Grammar;
use crate::ebnf::parser::{parse_events, payload, tokens_text, views, ParseError, ParseEvent, TokenKind};
use crate::ebnf::span::Span;
use crate::ebnf::text::{decimal, push_char, push_decimal, push_str, utf8_len};

verus! {

/// How a closed level becomes a node: unwrapped when it holds exactly one node (sequences and
/// alternations), else wrapped with the level's span.
pub enum LevelKind {
    Sequence,
    Alternation,
    Repetition,
}

/// `n` is what closing a level of `kind` holding `nodes` with `span` gives.
pub open spec fn closes_to(kind: LevelKind, nodes: Seq<AstNode>, span: Span, n: AstNode) -> bool {
    match kind {
        LevelKind::Sequence => if nodes.len() == 1 {
            n == nodes[0]
        } else {
            n matches AstNode::Sequence { nodes: v, span: s } && v@ == nodes && s == span
        },
        LevelKind::Alternation => if nodes.len() == 1 {
            n == nodes[0]
        } else {
            n matches AstNode::Alternation { nodes: v, span: s } && v@ == nodes && s == span
        },
        LevelKind::Repetition => n matches AstNode::Repetition { nodes: v, span: s } && v@
            == nodes && s == span,
    }
}

/// Builds a tree level by level: each open context collects the nodes made inside it.
pub struct AstBuilder {
    stack: Vec<Vec<AstNode>>,
    current_span_stack: Vec<Span>,
    rule_stack: Vec<String>,
    metadata: AstMetadata,
}

impl AstBuilder {
    /// The open levels, outermost first, with the nodes each has collected.
    pub closed spec fn levels(&self) -> Seq<Seq<AstNode>> {
        self.stack@.map_values(|v: Vec<AstNode>| v@)
    }

    /// Spans of the open sequence, alternation and repetition contexts.
    pub closed spec fn spans(&self) -> Seq<Span> {
        self.current_span_stack@
    }

    /// Names of the open rule contexts.
    pub closed spec fn rule_names(&self) -> Seq<Seq<char>> {
        self.rule_stack@.map_values(|s: String| s@)
    }

    /// Number of terminals added.
    pub closed spec fn token_count(&self) -> nat {
        self.metadata.token_count as nat
    }

    /// A builder with one empty level.
    pub fn new() -> (r: AstBuilder)
        ensures
            r.levels() == seq![Seq::<AstNode>::empty()],
            r.spans() == Seq::<Span>::empty(),
            r.rule_names() == Seq::<Seq<char>>::empty(),
            r.token_count() == 0,
    {
        let mut stack: Vec<Vec<AstNode>> = Vec::new();
        stack.push(Vec::new());
        let r = AstBuilder {
            stack,
            current_span_stack: Vec::new(),
            rule_stack: Vec::new(),
            metadata: AstMetadata::default(),
        };
        assert(r.levels() =~= seq![Seq::<AstNode>::empty()]);
        assert(r.rule_names() =~= Seq::<Seq<char>>::empty());
        r
    }

    /// Adds a terminal to the innermost level.
    pub fn add_terminal(&mut self, value: String, span: Span)
        requires
            old(self).levels().len() > 0,
            old(self).token_count() < usize::MAX,
        ensures
            final(self).levels().len() == old(self).levels().len(),
            final(self).levels().drop_last() == old(self).levels().drop_last(),
            final(self).levels().last().len() == old(self).levels().last().len() + 1,
            final(self).levels().last().drop_last() == old(self).levels().last(),
            final(self).levels().last() == old(self).levels().last().push(
                final(self).levels().last().last(),
            ),
            final(self).levels().last().last() matches AstNode::Terminal { value: v, span: s }
                && v == value && s == span,
            final(self).spans() == old(self).spans(),
            final(self).rule_names() == old(self).rule_names(),
            final(self).token_count() == old(self).token_count() + 1,
    {
        let node = AstNode::Terminal { value, span };
        let mut top = self.stack.pop().unwrap();
        let ghost below = self.stack@;
        top.push(node);
        self.stack.push(top);
        self.metadata.token_count = self.metadata.token_count + 1;
        proof {
            assert(self.levels().drop_last() =~= old(self).levels().drop_last());
            assert(self.levels().last().drop_last() =~= old(self).levels().last());
            assert(self.levels().last() =~= old(self).levels().last().push(self.levels().last().last()));
        }
    }

    /// Opens a level with `span`.
    fn open_level(&mut self, span: Span)
        ensures
            final(self).levels() == old(self).levels().push(Seq::empty()),
            final(self).spans() == old(self).spans().push(span),
            final(self).rule_names() == old(self).rule_names(),
            final(self).token_count() == old(self).token_count(),
    {
        self.stack.push(Vec::new());
        self.current_span_stack.push(span);
        assert(self.levels() =~= old(self).levels().push(Seq::empty()));
    }

    /// Opens a sequence context.
    pub fn push_sequence(&mut self, span: Span)
        ensures
            final(self).levels() == old(self).levels().push(Seq::empty()),
            final(self).spans() == old(self).spans().push(span),
            final(self).rule_names() == old(self).rule_names(),
            final(self).token_count() == old(self).token_count(),
    {
        self.open_level(span);
    }

    /// Opens an alternation context.
    pub fn push_alternation(&mut self, span: Span)
        ensures
            final(self).levels() == old(self).levels().push(Seq::empty()),
            final(self).spans() == old(self).spans().push(span),
            final(self).rule_names() == old(self).rule_names(),
            final(self).token_count() == old(self).token_count(),
    {
        self.open_level(span);
    }

    /// Opens a repetition context.
    pub fn push_repetition(&mut self, span: Span)
        ensures
            final(self).levels() == old(self).levels().push(Seq::empty()),
            final(self).spans() == old(self).spans().push(span),
            final(self).rule_names() == old(self).rule_names(),
            final(self).token_count() == old(self).token_count(),
    {
        self.open_level(span);
    }

    /// The effect of closing the innermost level as `kind`, from `old` to `self`, returning
    /// `r`: with no level around it or no span left nothing happens;
    /// else the node it closes to is added to the level around it, and `r` is a copy of it.
    pub open spec fn closed_level(&self, old: &AstBuilder, kind: LevelKind, r: Option<AstNode>) -> bool {
        let n = old.levels().len();
        &&& self.rule_names() == old.rule_names()
        &&& self.token_count() == old.token_count()
        &&& (n <= 1 ==> r is None && self.levels() == old.levels() && self.spans() == old.spans())
        &&& (n > 1 && old.spans().len() == 0 ==> r is None && self.levels() == old.levels()
            && self.spans() == old.spans())
        &&& (n > 1 && old.spans().len() > 0 ==> {
            &&& self.spans() == old.spans().drop_last()
            &&& self.levels().len() == n - 1
            &&& self.levels().take(n - 2) == old.levels().take(n - 2)
            &&& self.levels().last() == old.levels()[n - 2].push(self.levels().last().last())
            &&& closes_to(kind, old.levels().last(), old.spans().last(), self.levels().last().last())
            &&& r matches Some(c) && alike(c, self.levels().last().last())
        })
    }

    /// Closes the innermost level as `kind`; adds the node to the level around it and returns
    /// a copy. With no level around it or no span left nothing happens.
    fn close_level(&mut self, kind: LevelKind) -> (r: Option<AstNode>)
        ensures
            final(self).closed_level(old(self), kind, r),
    {
        if self.stack.len() <= 1 {
            return None;
        }
        if self.current_span_stack.len() == 0 {
            return None;
        }
        let mut nodes = self.stack.pop().unwrap();
        let span = self.current_span_stack.pop().unwrap();
        let ghost content = nodes@;
        let node = match kind {
            LevelKind::Sequence => if nodes.len() == 1 {
                nodes.pop().unwrap()
            } else {
                AstNode::Sequence { nodes, span }
            },
            LevelKind::Alternation => if nodes.len() == 1 {
                nodes.pop().unwrap()
            } else {
                AstNode::Alternation { nodes, span }
            },
            LevelKind::Repetition => AstNode::Repetition { nodes, span },
        };
        let copy = node.deep_copy();
        let mut parent = self.stack.pop().unwrap();
        parent.push(node);
        self.stack.push(parent);
        proof {
            let n = old(self).levels().len();
            assert(self.levels().take(n - 2) =~= old(self).levels().take(n - 2));
            assert(self.levels().last().drop_last() =~= old(self).levels()[n - 2]);
            assert(self.levels().last() =~= old(self).levels()[n - 2].push(self.levels().last().last()));
        }
        Some(copy)
    }

    /// Closes the innermost sequence context.
    pub fn pop_sequence(&mut self) -> (r: Option<AstNode>)
        ensures
            final(self).closed_level(old(self), LevelKind::Sequence, r),
    {
        self.close_level(LevelKind::Sequence)
    }

    /// Closes the innermost alternation context.
    pub fn pop_alternation(&mut self) -> (r: Option<AstNode>)
        ensures
            final(self).closed_level(old(self), LevelKind::Alternation, r),
    {
        self.close_level(LevelKind::Alternation)
    }

    /// Closes the innermost repetition context.
    pub fn pop_repetition(&mut self) -> (r: Option<AstNode>)
        ensures
            final(self).closed_level(old(self), LevelKind::Repetition, r),
    {
        self.close_level(LevelKind::Repetition)
    }
}

impl AstBuilder {
    /// Opens a rule context.
    pub fn push_rule(&mut self, name: String)
        ensures
            final(self).levels() == old(self).levels().push(Seq::empty()),
            final(self).spans() == old(self).spans(),
            final(self).rule_names() == old(self).rule_names().push(name@),
            final(self).token_count() == old(self).token_count(),
    {
        let ghost n = name@;
        self.rule_stack.push(name);
        self.stack.push(Vec::new());
        assert(self.levels() =~= old(self).levels().push(Seq::empty()));
        assert(self.rule_names() =~= old(self).rule_names().push(n));
    }

    /// Closes the innermost rule context: its nodes, as one node (a sequence with `span`
    /// unless there is exactly one), become the child of a rule node with `span`, added to the
    /// level around it. Returns a copy of the rule node. With no rule open or no level around
    /// it nothing happens.
    pub fn pop_rule(&mut self, span: Span) -> (r: Option<AstNode>)
        ensures
            final(self).spans() == old(self).spans(),
            final(self).token_count() == old(self).token_count(),
            old(self).rule_names().len() == 0 ==> r is None && final(self).levels() == old(
                self).levels() && final(self).rule_names() == old(self).rule_names(),
            old(self).rule_names().len() > 0 && old(self).levels().len() > 1 ==> final(
                self).rule_names() == old(self).rule_names().drop_last(),
            old(self).rule_names().len() > 0 && old(self).levels().len() <= 1 ==> r is None
                && final(self).levels() == old(self).levels() && final(self).rule_names() == old(
                self).rule_names(),
            old(self).rule_names().len() > 0 && old(self).levels().len() > 1 ==> {
                let n = old(self).levels().len();
                &&& final(self).levels().len() == n - 1
                &&& final(self).levels().take(n - 2) == old(self).levels().take(n - 2)
                &&& final(self).levels().last() == old(self).levels()[n - 2].push(
                    final(self).levels().last().last(),
                )
                &&& final(self).levels().last().last() matches AstNode::Rule {
                    name: nm,
                    node: inner,
                    span: s,
                } && nm@ == old(self).rule_names().last() && s == span && closes_to(
                    LevelKind::Sequence,
                    old(self).levels().last(),
                    span,
                    *inner,
                )
                &&& r matches Some(c) && alike(c, final(self).levels().last().last())
            },
    {
        if self.rule_stack.len() == 0 || self.stack.len() <= 1 {
            return None;
        }
        let name = self.rule_stack.pop().unwrap();
        proof {
            assert(self.rule_names() =~= old(self).rule_names().drop_last());
        }
        let mut nodes = self.stack.pop().unwrap();
        let inner = if nodes.len() == 1 {
            nodes.pop().unwrap()
        } else {
            AstNode::Sequence { nodes, span }
        };
        let node = AstNode::Rule { name, node: Box::new(inner), span };
        let copy = node.deep_copy();
        let mut parent = self.stack.pop().unwrap();
        parent.push(node);
        self.stack.push(parent);
        proof {
            let n = old(self).levels().len();
            assert(self.levels().take(n - 2) =~= old(self).levels().take(n - 2));
            assert(self.levels().last().drop_last() =~= old(self).levels()[n - 2]);
            assert(self.levels().last() =~= old(self).levels()[n - 2].push(self.levels().last().last()));
        }
        Some(copy)
    }

    /// The finished tree: exactly one level must be left, holding at least one node; the root
    /// is that node, or a sequence over the whole input of the nodes there.
    pub fn build(self, input_length: usize) -> (r: Result<Ast, String>)
        ensures
            self.levels().len() != 1 ==> (r matches Err(e) && e@
                == "Invalid builder state: stack has "@ + decimal(self.levels().len())
                + " levels, expected 1"@),
            self.levels().len() == 1 && self.levels()[0].len() == 0 ==> (r matches Err(e) && e@
                == "No nodes in AST"@),
            self.levels().len() == 1 && self.levels()[0].len() > 0 ==> (r matches Ok(ast)
                && closes_to(
                LevelKind::Sequence,
                self.levels()[0],
                Span { start: 0, end: input_length, line: None, column: None },
                ast.root,
            ) && ast.metadata.input_length == input_length && ast.metadata.token_count
                == self.token_count() && ast.metadata.success),
    {
        let mut this = self;
        if this.stack.len() != 1 {
            let mut e = "Invalid builder state: stack has ".to_owned();
            push_decimal(&mut e, this.stack.len());
            push_str(&mut e, " levels, expected 1");
            return Err(e);
        }
        let mut nodes = this.stack.pop().unwrap();
        if nodes.len() == 0 {
            return Err("No nodes in AST".to_owned());
        }
        let root = if nodes.len() == 1 {
            nodes.pop().unwrap()
        } else {
            AstNode::Sequence { nodes, span: Span::new(0, input_length) }
        };
        let metadata = AstMetadata {
            input_length,
            token_count: this.metadata.token_count,
            success: true,
        };
        Ok(Ast { root, metadata })
    }
}

impl Default for AstBuilder {
    fn default() -> (r: AstBuilder)
        ensures
            r.levels() == seq![Seq::<AstNode>::empty()],
            r.spans() == Seq::<Span>::empty(),
            r.rule_names() == Seq::<Seq<char>>::empty(),
            r.token_count() == 0,
    {
        AstBuilder::new()
    }
}

/// The texts of the tokens among `events`, one entry per token.
pub open spec fn token_values(events: Seq<ParseEvent>) -> Seq<Seq<char>>
    decreases events.len(),
{
    if events.len() == 0 {
        Seq::empty()
    } else {
        token_values(events.drop_last()) + match events.last() {
            ParseEvent::Token { kind, .. } => seq![payload(kind)],
            _ => Seq::empty(),
        }
    }
}

/// The spans of the tokens among `events`, one entry per token.
pub open spec fn token_spans(events: Seq<ParseEvent>) -> Seq<Span>
    decreases events.len(),
{
    if events.len() == 0 {
        Seq::empty()
    } else {
        token_spans(events.drop_last()) + match events.last() {
            ParseEvent::Token { span, .. } => seq![span],
            _ => Seq::empty(),
        }
    }
}

/// `root` is the tree of tokens with texts `values` and spans `spans`: the single terminal, or
/// a sequence over the whole input of one terminal per token.
pub open spec fn token_tree(root: AstNode, values: Seq<Seq<char>>, spans: Seq<Span>, input_length: usize) -> bool {
    if values.len() == 1 {
        is_terminal_with(root, values[0]) && super::node::node_span(root) == spans[0]
    } else {
        &&& root is Sequence
        &&& root->Sequence_span == (Span { start: 0, end: input_length, line: None, column: None })
        &&& root->Sequence_nodes@.len() == values.len()
        &&& forall|j: int|
            0 <= j < values.len() ==> is_terminal_with(#[trigger] root->Sequence_nodes@[j], values[j])
                && super::node::node_span(root->Sequence_nodes@[j]) == spans[j]
    }
}

/// Texts one after the other.
pub open spec fn flatten(texts: Seq<Seq<char>>) -> Seq<char>
    decreases texts.len(),
{
    if texts.len() == 0 {
        Seq::empty()
    } else {
        flatten(texts.drop_last()) + texts.last()
    }
}

/// The first error among `events`.
pub open spec fn first_error(events: Seq<ParseEvent>) -> Option<ParseError>
    decreases events.len(),
{
    if events.len() == 0 {
        None
    } else {
        match first_error(events.drop_last()) {
            Some(e) => Some(e),
            None => match events.last() {
                ParseEvent::Error(e) => Some(e),
                _ => None,
            },
        }
    }
}

/// What building a tree from `events` gives: the first error is reported; with no error and
/// no token there is no tree; else the tree holds the tokens' texts in order.
pub open spec fn built_from(events: Seq<ParseEvent>, input_length: usize, r: Result<Ast, String>) -> bool {
    match first_error(events) {
        Some(err) => r matches Err(e) && e@ == error_message(err),
        None => if token_values(events).len() == 0 {
            r matches Err(e) && e@ == "No nodes in AST"@
        } else {
            r matches Ok(ast) && terminals(ast.root) == token_values(events) && token_tree(
                ast.root,
                token_values(events),
                token_spans(events),
                input_length,
            ) && ast.metadata.token_count == token_values(events).len()
                && ast.metadata.input_length == input_length && ast.metadata.success
        },
    }
}

/// The message for a parse error.
pub open spec fn error_message(e: ParseError) -> Seq<char> {
    "Parse error at position "@ + decimal(e.position as nat) + ": "@ + e.message@
}

/// Law: the token texts, one after the other, are the text of the tokens.
pub proof fn lemma_flatten_token_values(events: Seq<ParseEvent>)
    ensures
        flatten(token_values(events)) == tokens_text(events),
    decreases events.len(),
{
    if events.len() > 0 {
        lemma_flatten_token_values(events.drop_last());
        let before = token_values(events.drop_last());
        match events.last() {
            ParseEvent::Token { kind, .. } => {
                assert((before + seq![payload(kind)]).drop_last() =~= before);
            },
            _ => {
                assert(before + Seq::<Seq<char>>::empty() =~= before);
                assert(tokens_text(events.drop_last()) + Seq::<char>::empty() =~= tokens_text(
                    events.drop_last(),
                ));
            },
        }
    }
}

/// Law: the terminals of a tree built from events spell, joined, the tokens of the events.
pub proof fn lemma_tree_spells_tokens(ast: Ast, events: Seq<ParseEvent>)
    requires
        terminals(ast.root) == token_values(events),
    ensures
        flatten(terminals(ast.root)) == tokens_text(events),
{
    lemma_flatten_token_values(events);
}

/// Law: parsing input the grammar matches in full and building a tree from the events gives
/// back the input, terminal by terminal.
pub proof fn lemma_round_trip(p: &crate::ebnf::parser::Parser, ast: Ast)
    requires
        p.wf(),
        p.is_finished(),
        p.events() == p.emitted(),
        p.consumed() == p.text().len(),
        terminals(ast.root) == token_values(p.events()),
    ensures
        flatten(terminals(ast.root)) == p.text(),
{
    p.lemma_tokens_spell_input();
    lemma_flatten_token_values(p.events());
}

/// `n` is a terminal with text `v`.
pub open spec fn is_terminal_with(n: AstNode, v: Seq<char>) -> bool {
    n matches AstNode::Terminal { value, .. } && value@ == v
}

/// Terminal nodes list their own values.
proof fn lemma_terminal_list(nodes: Seq<AstNode>, values: Seq<Seq<char>>)
    requires
        nodes.len() == values.len(),
        forall|j: int|
            0 <= j < nodes.len() ==> is_terminal_with(#[trigger] nodes[j], values[j]),
    ensures
        super::node::list_terminals(nodes) == values,
    decreases nodes.len(),
{
    if nodes.len() > 0 {
        let n = nodes.len() - 1;
        assert forall|j: int| 0 <= j < n implies is_terminal_with(
            #[trigger] nodes.drop_last()[j],
            values.drop_last()[j],
        ) by {
            assert(is_terminal_with(nodes[j], values[j]));
        }
        lemma_terminal_list(nodes.drop_last(), values.drop_last());
        assert(is_terminal_with(nodes[n], values[n]));
        assert(nodes.last() == nodes[n]);
        assert(terminals(nodes[n]) =~= seq![values[n]]);
        assert(super::node::list_terminals(nodes) == super::node::list_terminals(nodes.drop_last())
            + terminals(nodes.last()));
        assert(values =~= values.drop_last() + seq![values.last()]);
    } else {
        assert(values =~= Seq::<Seq<char>>::empty());
    }
}

/// The text of a token as a string.
fn token_value(kind: &TokenKind) -> (r: String)
    ensures
        r@ == payload(*kind),
{
    match kind {
        TokenKind::Char(c) => {
            let mut s = String::new();
            push_char(&mut s, *c);
            assert(s@ =~= seq![*c]);
            s
        },
        TokenKind::Class(c) => {
            let mut s = String::new();
            push_char(&mut s, *c);
            assert(s@ =~= seq![*c]);
            s
        },
        TokenKind::Str(st) => st.clone(),
    }
}

/// A tree of the tokens among `events`, in order, under one sequence over the whole input
/// (or the single token alone); the first error among the events is reported instead.
pub fn build_from_events(events: &Vec<ParseEvent>, input_length: usize) -> (r: Result<Ast, String>)
    ensures
        built_from(events@, input_length, r),
{
    let mut builder = AstBuilder::new();
    let mut i: usize = 0;
    while i < events.len()
        invariant
            i <= events@.len(),
            first_error(events@.take(i as int)) is None,
            builder.levels().len() == 1,
            builder.spans().len() == 0,
            builder.rule_names().len() == 0,
            builder.token_count() == token_values(events@.take(i as int)).len(),
            builder.levels()[0].len() == token_values(events@.take(i as int)).len(),
            token_values(events@.take(i as int)).len() <= i,
            token_spans(events@.take(i as int)).len() == token_values(events@.take(i as int)).len(),
            forall|j: int|
                0 <= j < builder.levels()[0].len() ==> is_terminal_with(
                    #[trigger] builder.levels()[0][j],
                    token_values(events@.take(i as int))[j],
                ) && super::node::node_span(builder.levels()[0][j]) == token_spans(
                    events@.take(i as int),
                )[j],
        decreases events@.len() - i,
    {
        let ghost t = events@.take(i + 1);
        proof {
            assert(t.drop_last() =~= events@.take(i as int));
            assert(t.last() == events@[i as int]);
        }
        match &events[i] {
            ParseEvent::Token { kind, span } => {
                let value = token_value(kind);
                let ghost before = builder.levels();
                builder.add_terminal(value, *span);
                proof {
                    assert(builder.levels()[0] == builder.levels().last());
                    assert(before[0] == before.last());
                    assert(builder.levels()[0].len() == before[0].len() + 1);
                    assert(token_values(t).len() == token_values(events@.take(i as int)).len() + 1);
                    let vals = token_values(t);
                    let sps = token_spans(t);
                    assert(vals == token_values(events@.take(i as int)).push(payload(*kind)));
                    assert(sps == token_spans(events@.take(i as int)).push(*span));
                    assert forall|j: int| 0 <= j < builder.levels()[0].len() implies is_terminal_with(
                        #[trigger] builder.levels()[0][j],
                        vals[j],
                    ) && super::node::node_span(builder.levels()[0][j]) == sps[j] by {
                        if j < before[0].len() {
                            assert(builder.levels()[0][j] == builder.levels().last().drop_last()[j]);
                        }
                    }
                }
            },
            ParseEvent::Error(err) => {
                let mut e = "Parse error at position ".to_owned();
                push_decimal(&mut e, err.position);
                push_str(&mut e, ": ");
                push_str(&mut e, err.message.as_str());
                proof {
                    assert(first_error(t) == Some(*err));
                    lemma_first_error_prefix(events@, i + 1);
                }
                return Err(e);
            },
            _ => {
                proof {
                    assert(token_values(t) =~= token_values(events@.take(i as int)));
                    assert(token_spans(t) =~= token_spans(events@.take(i as int)));
                }
            },
        }
        i += 1;
    }
    proof {
        assert(events@.take(events@.len() as int) =~= events@);
    }
    let r = builder.build(input_length);
    proof {
        let vals = token_values(events@);
        if vals.len() > 0 {
            let lvl = builder.levels()[0];
            lemma_terminal_list(lvl, vals);
            if lvl.len() == 1 {
                assert(vals =~= seq![vals[0]]);
            } else {
                let root = r->Ok_0.root;
                assert(root->Sequence_nodes@ == lvl);
            }
        }
    }
    r
}

/// An error found in a prefix is the first error of the whole.
proof fn lemma_first_error_prefix(events: Seq<ParseEvent>, k: int)
    requires
        0 <= k <= events.len(),
        first_error(events.take(k)) is Some,
    ensures
        first_error(events) == first_error(events.take(k)),
    decreases events.len() - k,
{
    if k < events.len() {
        let t = events.take(k + 1);
        assert(t.drop_last() =~= events.take(k));
        lemma_first_error_prefix(events, k + 1);
    } else {
        assert(events.take(k) =~= events);
    }
}

/// Parses all of `input` and builds a tree of the tokens matched, or reports the first error.
pub fn parse_str(grammar: &Grammar, input: &str) -> (r: Result<Ast, String>)
    requires
        utf8_len(input@) <= usize::MAX,
    ensures
        exists|events: Seq<ParseEvent>|
            views(events) == parse_events(*grammar, input@) && built_from(
                events,
                utf8_len(input@) as usize,
                r,
            ) && tokens_text(events) == input@.take(tokens_text(events).len() as int),
        r matches Ok(ast) ==> flatten(terminals(ast.root)) == input@.take(
            flatten(terminals(ast.root)).len() as int,
        ) && ast.metadata.input_length == utf8_len(input@),
{
    let events = crate::ebnf::parser::parse_str(grammar, input);
    let n = input.len();
    let r = build_from_events(&events, n);
    proof {
        lemma_flatten_token_values(events@);
        assert(built_from(events@, utf8_len(input@) as usize, r));
    }
    r
}

} // verus!
