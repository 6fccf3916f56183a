//! Tree nodes and whole trees.

use vstd::prelude::*;

use crate::ebnf::span::Span;
use crate::ebnf::text::push_str;
use crate::ebnf::validate::texts;

verus! {

/// A node of the syntax tree.
#[derive(Debug, PartialEq)]
pub enum AstNode {
    /// A matched literal or character.
    Terminal { value: String, span: Span },
    /// Nodes one after the other.
    Sequence { nodes: Vec<AstNode>, span: Span },
    /// The alternative that matched.
    Alternation { nodes: Vec<AstNode>, span: Span },
    /// Repeated nodes.
    Repetition { nodes: Vec<AstNode>, span: Span },
    /// What a rule matched.
    Rule { name: String, node: Box<AstNode>, span: Span },
}

/// Facts about a whole tree.
#[derive(Debug, Clone, PartialEq)]
pub struct AstMetadata {
    /// Byte length of the input.
    pub input_length: usize,
    /// Number of terminals in the tree.
    pub token_count: usize,
    /// Whether the parse succeeded.
    pub success: bool,
}

impl Default for AstMetadata {
    fn default() -> (r: AstMetadata)
        ensures
            r.input_length == 0,
            r.token_count == 0,
            !r.success,
    {
        AstMetadata { input_length: 0, token_count: 0, success: false }
    }
}

/// A syntax tree with its metadata.
#[derive(Debug, Clone, PartialEq)]
pub struct Ast {
    pub root: AstNode,
    pub metadata: AstMetadata,
}

/// The span of a node.
pub open spec fn node_span(n: AstNode) -> Span {
    match n {
        AstNode::Terminal { span, .. } => span,
        AstNode::Sequence { span, .. } => span,
        AstNode::Alternation { span, .. } => span,
        AstNode::Repetition { span, .. } => span,
        AstNode::Rule { span, .. } => span,
    }
}

/// The values of the terminals under a node, left to right.
pub open spec fn terminals(n: AstNode) -> Seq<Seq<char>>
    decreases n,
{
    match n {
        AstNode::Terminal { value, .. } => seq![value@],
        AstNode::Sequence { nodes, .. } => list_terminals(nodes@),
        AstNode::Alternation { nodes, .. } => list_terminals(nodes@),
        AstNode::Repetition { nodes, .. } => list_terminals(nodes@),
        AstNode::Rule { node, .. } => terminals(*node),
    }
}

/// The values of the terminals under a list of nodes, left to right.
pub open spec fn list_terminals(nodes: Seq<AstNode>) -> Seq<Seq<char>>
    decreases nodes,
{
    if nodes.len() == 0 {
        Seq::empty()
    } else {
        list_terminals(nodes.drop_last()) + terminals(nodes.last())
    }
}

/// Number of nodes on the longest path from a node down to a leaf.
pub open spec fn depth(n: AstNode) -> nat
    decreases n,
{
    match n {
        AstNode::Terminal { .. } => 1,
        AstNode::Sequence { nodes, .. } => 1 + list_depth(nodes@),
        AstNode::Alternation { nodes, .. } => 1 + list_depth(nodes@),
        AstNode::Repetition { nodes, .. } => 1 + list_depth(nodes@),
        AstNode::Rule { node, .. } => 1 + depth(*node),
    }
}

/// The greatest depth among a list of nodes, 0 for none.
pub open spec fn list_depth(nodes: Seq<AstNode>) -> nat
    decreases nodes,
{
    if nodes.len() == 0 {
        0
    } else {
        let a = list_depth(nodes.drop_last());
        let b = depth(nodes.last());
        if a >= b {
            a
        } else {
            b
        }
    }
}

/// The text `to_string_debug` gives for a node.
pub open spec fn debug_text(n: AstNode) -> Seq<char>
    decreases n,
{
    match n {
        AstNode::Terminal { value, .. } => "Terminal("@ + value@ + ")"@,
        AstNode::Sequence { nodes, .. } => "Sequence("@ + list_debug(nodes@, ", "@) + ")"@,
        AstNode::Alternation { nodes, .. } => "Alternation("@ + list_debug(nodes@, "|"@) + ")"@,
        AstNode::Repetition { nodes, .. } => "Repetition("@ + list_debug(nodes@, ", "@) + ")"@,
        AstNode::Rule { name, node, .. } => "Rule("@ + name@ + ": "@ + debug_text(*node) + ")"@,
    }
}

/// The texts of a list of nodes, joined with `sep`.
pub open spec fn list_debug(nodes: Seq<AstNode>, sep: Seq<char>) -> Seq<char>
    decreases nodes,
{
    if nodes.len() == 0 {
        Seq::empty()
    } else if nodes.len() == 1 {
        debug_text(nodes[0])
    } else {
        list_debug(nodes.drop_last(), sep) + sep + debug_text(nodes.last())
    }
}

impl Clone for AstNode {
    fn clone(&self) -> (r: AstNode)
        ensures
            alike(r, *self),
    {
        self.deep_copy()
    }
}

impl AstNode {
    /// The node's span.
    pub fn span(&self) -> (r: Span)
        ensures
            r == node_span(*self),
    {
        match self {
            AstNode::Terminal { span, .. } => *span,
            AstNode::Sequence { span, .. } => *span,
            AstNode::Alternation { span, .. } => *span,
            AstNode::Repetition { span, .. } => *span,
            AstNode::Rule { span, .. } => *span,
        }
    }

    /// A copy of the node and everything under it.
    pub fn deep_copy(&self) -> (r: AstNode)
        ensures
            alike(r, *self),
        decreases self,
    {
        match self {
            AstNode::Terminal { value, span } => AstNode::Terminal {
                value: value.clone(),
                span: *span,
            },
            AstNode::Sequence { nodes, span } => AstNode::Sequence {
                nodes: copy_nodes(nodes),
                span: *span,
            },
            AstNode::Alternation { nodes, span } => AstNode::Alternation {
                nodes: copy_nodes(nodes),
                span: *span,
            },
            AstNode::Repetition { nodes, span } => AstNode::Repetition {
                nodes: copy_nodes(nodes),
                span: *span,
            },
            AstNode::Rule { name, node, span } => AstNode::Rule {
                name: name.clone(),
                node: Box::new(node.deep_copy()),
                span: *span,
            },
        }
    }

    /// The node written out for reading: its kind, then what is under it in parentheses.
    pub fn to_string_debug(&self) -> (r: String)
        ensures
            r@ == debug_text(*self),
        decreases self,
    {
        match self {
            AstNode::Terminal { value, .. } => {
                let mut r = "Terminal(".to_owned();
                push_str(&mut r, value.as_str());
                push_str(&mut r, ")");
                r
            },
            AstNode::Sequence { nodes, .. } => {
                let mut r = "Sequence(".to_owned();
                push_list_debug(&mut r, nodes, ", ");
                push_str(&mut r, ")");
                r
            },
            AstNode::Alternation { nodes, .. } => {
                let mut r = "Alternation(".to_owned();
                push_list_debug(&mut r, nodes, "|");
                push_str(&mut r, ")");
                r
            },
            AstNode::Repetition { nodes, .. } => {
                let mut r = "Repetition(".to_owned();
                push_list_debug(&mut r, nodes, ", ");
                push_str(&mut r, ")");
                r
            },
            AstNode::Rule { name, node, .. } => {
                let mut r = "Rule(".to_owned();
                push_str(&mut r, name.as_str());
                push_str(&mut r, ": ");
                let inner = node.to_string_debug();
                push_str(&mut r, inner.as_str());
                push_str(&mut r, ")");
                r
            },
        }
    }
}

/// The spans of a node and of everything under it, in depth-first order.
pub open spec fn all_spans(n: AstNode) -> Seq<Span>
    decreases n,
{
    match n {
        AstNode::Terminal { span, .. } => seq![span],
        AstNode::Sequence { nodes, span } => seq![span] + list_spans(nodes@),
        AstNode::Alternation { nodes, span } => seq![span] + list_spans(nodes@),
        AstNode::Repetition { nodes, span } => seq![span] + list_spans(nodes@),
        AstNode::Rule { node, span, .. } => seq![span] + all_spans(*node),
    }
}

/// The spans under a list of nodes, in depth-first order.
pub open spec fn list_spans(nodes: Seq<AstNode>) -> Seq<Span>
    decreases nodes,
{
    if nodes.len() == 0 {
        Seq::empty()
    } else {
        list_spans(nodes.drop_last()) + all_spans(nodes.last())
    }
}

/// Two nodes agree in kind, in every span, terminal and name, and in depth: `debug_text` gives
/// the kinds, names and values of the whole tree.
pub open spec fn alike(a: AstNode, b: AstNode) -> bool {
    &&& all_spans(a) == all_spans(b)
    &&& node_span(a) == node_span(b)
    &&& terminals(a) == terminals(b)
    &&& depth(a) == depth(b)
    &&& debug_text(a) == debug_text(b)
    &&& (a is Terminal <==> b is Terminal)
    &&& (a is Sequence <==> b is Sequence)
    &&& (a is Alternation <==> b is Alternation)
    &&& (a is Repetition <==> b is Repetition)
}

/// Lists of nodes alike one by one are alike as lists.
proof fn lemma_lists_alike(a: Seq<AstNode>, b: Seq<AstNode>, sep: Seq<char>)
    requires
        a.len() == b.len(),
        forall|i: int| 0 <= i < a.len() ==> alike(#[trigger] a[i], b[i]),
    ensures
        list_terminals(a) == list_terminals(b),
        list_depth(a) == list_depth(b),
        list_debug(a, sep) == list_debug(b, sep),
        list_spans(a) == list_spans(b),
    decreases a.len(),
{
    if a.len() > 0 {
        lemma_lists_alike(a.drop_last(), b.drop_last(), sep);
        assert(alike(a[a.len() - 1], b[b.len() - 1]));
    }
}

/// Copies of a list of nodes.
pub fn copy_nodes(nodes: &Vec<AstNode>) -> (r: Vec<AstNode>)
    ensures
        r@.len() == nodes@.len(),
        forall|i: int| 0 <= i < nodes@.len() ==> alike(#[trigger] r@[i], nodes@[i]),
        list_terminals(r@) == list_terminals(nodes@),
        list_depth(r@) == list_depth(nodes@),
        list_debug(r@, ", "@) == list_debug(nodes@, ", "@),
        list_debug(r@, "|"@) == list_debug(nodes@, "|"@),
        list_spans(r@) == list_spans(nodes@),
    decreases nodes,
{
    let mut r: Vec<AstNode> = Vec::new();
    let mut i: usize = 0;
    while i < nodes.len()
        invariant
            i <= nodes@.len(),
            r@.len() == i,
            forall|k: int| 0 <= k < i ==> alike(#[trigger] r@[k], nodes@[k]),
        decreases nodes@.len() - i,
    {
        proof {
            assert(decreases_to!(nodes => nodes@[i as int]));
        }
        r.push(nodes[i].deep_copy());
        i += 1;
    }
    proof {
        lemma_lists_alike(r@, nodes@, ", "@);
        lemma_lists_alike(r@, nodes@, "|"@);
    }
    r
}

/// Appends the texts of `nodes` joined with `sep`.
fn push_list_debug(out: &mut String, nodes: &Vec<AstNode>, sep: &str)
    ensures
        final(out)@ == old(out)@ + list_debug(nodes@, sep@),
    decreases nodes,
{
    let mut i: usize = 0;
    while i < nodes.len()
        invariant
            i <= nodes@.len(),
            out@ == old(out)@ + list_debug(nodes@.take(i as int), sep@),
        decreases nodes@.len() - i,
    {
        let ghost before = out@;
        if i > 0 {
            push_str(out, sep);
        }
        proof {
            assert(decreases_to!(nodes => nodes@[i as int]));
        }
        let text = nodes[i].to_string_debug();
        push_str(out, text.as_str());
        proof {
            let t = nodes@.take(i + 1);
            assert(t.drop_last() =~= nodes@.take(i as int));
            assert(t.last() == nodes@[i as int]);
            if i == 0 {
                assert(nodes@.take(0) =~= Seq::<AstNode>::empty());
                assert(t[0] == nodes@[0]);
            }
            assert(out@ =~= old(out)@ + list_debug(t, sep@));
        }
        i += 1;
    }
    proof {
        assert(nodes@.take(nodes@.len() as int) =~= nodes@);
        if nodes@.len() == 0 {
            assert(out@ =~= old(out)@ + list_debug(nodes@, sep@));
        }
    }
}

impl Ast {
    /// The span of the root.
    pub fn span(&self) -> (r: Span)
        ensures
            r == node_span(self.root),
    {
        self.root.span()
    }

    /// The values of all terminals, left to right.
    pub fn collect_terminals(&self) -> (r: Vec<String>)
        ensures
            texts(r@) == terminals(self.root),
    {
        let mut acc: Vec<String> = Vec::new();
        walk_terminals(&self.root, &mut acc);
        proof {
            assert(texts(Seq::<String>::empty()) + terminals(self.root) =~= terminals(self.root));
        }
        acc
    }

    /// Number of nodes on the longest path from the root down to a leaf.
    pub fn depth(&self) -> (r: usize)
        requires
            depth(self.root) <= usize::MAX,
        ensures
            r == depth(self.root),
    {
        node_depth(&self.root)
    }
}

/// Appends the values of the terminals under `node`.
fn walk_terminals(node: &AstNode, acc: &mut Vec<String>)
    ensures
        texts(final(acc)@) == texts(old(acc)@) + terminals(*node),
    decreases node,
{
    match node {
        AstNode::Terminal { value, .. } => {
            let ghost before = acc@;
            let copy = value.clone();
            acc.push(copy);
            proof {
                assert(texts(acc@) =~= texts(before) + seq![value@]);
            }
        },
        AstNode::Sequence { nodes, .. } => walk_list(nodes, acc),
        AstNode::Alternation { nodes, .. } => walk_list(nodes, acc),
        AstNode::Repetition { nodes, .. } => walk_list(nodes, acc),
        AstNode::Rule { node, .. } => walk_terminals(node, acc),
    }
}

fn walk_list(nodes: &Vec<AstNode>, acc: &mut Vec<String>)
    ensures
        texts(final(acc)@) == texts(old(acc)@) + list_terminals(nodes@),
    decreases nodes,
{
    let mut i: usize = 0;
    while i < nodes.len()
        invariant
            i <= nodes@.len(),
            texts(acc@) == texts(old(acc)@) + list_terminals(nodes@.take(i as int)),
        decreases nodes@.len() - i,
    {
        proof {
            assert(decreases_to!(nodes => nodes@[i as int]));
        }
        walk_terminals(&nodes[i], acc);
        proof {
            let t = nodes@.take(i + 1);
            assert(t.drop_last() =~= nodes@.take(i as int));
            assert(t.last() == nodes@[i as int]);
        }
        i += 1;
    }
    proof {
        assert(nodes@.take(nodes@.len() as int) =~= nodes@);
        assert(texts(old(acc)@) + Seq::<Seq<char>>::empty() =~= texts(old(acc)@));
    }
}

/// Depth of `node`.
fn node_depth(node: &AstNode) -> (r: usize)
    requires
        depth(*node) <= usize::MAX,
    ensures
        r == depth(*node),
    decreases node,
{
    match node {
        AstNode::Terminal { .. } => 1,
        AstNode::Sequence { nodes, .. } => 1 + list_depth_exec(nodes),
        AstNode::Alternation { nodes, .. } => 1 + list_depth_exec(nodes),
        AstNode::Repetition { nodes, .. } => 1 + list_depth_exec(nodes),
        AstNode::Rule { node, .. } => 1 + node_depth(node),
    }
}

fn list_depth_exec(nodes: &Vec<AstNode>) -> (r: usize)
    requires
        list_depth(nodes@) < usize::MAX,
    ensures
        r == list_depth(nodes@),
    decreases nodes,
{
    let mut best: usize = 0;
    let mut i: usize = 0;
    while i < nodes.len()
        invariant
            i <= nodes@.len(),
            best == list_depth(nodes@.take(i as int)),
            list_depth(nodes@) < usize::MAX,
        decreases nodes@.len() - i,
    {
        proof {
            assert(decreases_to!(nodes => nodes@[i as int]));
            lemma_list_depth_at_least(nodes@, i as int);
        }
        let d = node_depth(&nodes[i]);
        proof {
            let t = nodes@.take(i + 1);
            assert(t.drop_last() =~= nodes@.take(i as int));
            assert(t.last() == nodes@[i as int]);
        }
        if d > best {
            best = d;
        }
        i += 1;
    }
    proof {
        assert(nodes@.take(nodes@.len() as int) =~= nodes@);
    }
    best
}

/// Each node is at most as deep as the deepest in its list.
proof fn lemma_list_depth_at_least(nodes: Seq<AstNode>, i: int)
    requires
        0 <= i < nodes.len(),
    ensures
        depth(nodes[i]) <= list_depth(nodes),
        list_depth(nodes.take(i)) <= list_depth(nodes),
    decreases nodes.len(),
{
    let init = nodes.drop_last();
    if i < nodes.len() - 1 {
        lemma_list_depth_at_least(init, i);
        assert(init[i] == nodes[i]);
        assert(init.take(i) =~= nodes.take(i));
    } else {
        assert(nodes.take(i) =~= init);
    }
}

} // verus!
