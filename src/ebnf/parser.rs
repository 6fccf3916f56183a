//! The streaming pull parser.
//!
//! The parser evaluates a grammar with an explicit stack of frames, one step at a time. Input
//! is handed to it in pieces ([`Parser::feed`]); when a step needs more input than it holds, it
//! asks for it ([`Pull::NeedInput`]). Events produced inside a production that may still be
//! undone (an alternative, one round of a repetition) are held back until that is settled, so
//! every event handed out is final.

use vstd::prelude::*;

use std::collections::VecDeque;

use super::grammar::{CharClass, Grammar, Prod, RepeatQuant, TerminalKind};
use super::span::Span;
use super::text::{
    chars_of, decode_lossy, lemma_utf8_len_at_least, lemma_utf8_len_concat, lemma_utf8_len_prefix,
    push_str, utf8_len, width_of,
};
use super::tracker::{LineColumnTracker, lemma_line_column_small, lemma_utf8_len_push};

verus! {

broadcast use vstd::std_specs::vecdeque::group_vec_dequeue_axioms;

/// Size of the input window (in bytes) above which consumed input is dropped.
pub const MAX_BUFFER_SIZE: usize = 65536;

/// How far (in bytes) the cursor must be into the window before input is dropped.
pub const MIN_SLIDE_SIZE: usize = 32768;

/// Events beyond this count end the parse with an error.
pub const EVENT_LIMIT: usize = usize::MAX - 16;

/// What a token matched.
#[derive(Debug, Clone, PartialEq, Eq)]
pub enum TokenKind {
    /// A character terminal.
    Char(char),
    /// A string terminal.
    Str(String),
    /// A character accepted by a class.
    Class(char),
}

/// A parse error with what is known of where it happened.
#[derive(Debug, Clone, PartialEq)]
pub struct ParseError {
    pub message: String,
    /// Absolute byte offset of the cursor.
    pub position: usize,
    pub span: Option<Span>,
    /// The innermost rule that was being matched.
    pub rule_context: Option<String>,
    pub hint: Option<String>,
}

impl ParseError {
    /// An error with a message and a position only.
    pub fn new(message: &str, position: usize) -> (r: ParseError)
        ensures
            r.message@ == message@,
            r.position == position,
            r.span is None,
            r.rule_context is None,
            r.hint is None,
    {
        ParseError {
            message: message.to_owned(),
            position,
            span: None,
            rule_context: None,
            hint: None,
        }
    }

    /// The same error with a span.
    pub fn with_span(self, span: Span) -> (r: ParseError)
        ensures
            r == (ParseError { span: Some(span), ..self }),
    {
        ParseError { span: Some(span), ..self }
    }

    /// The same error naming the rule being matched.
    pub fn with_rule_context(self, rule: &str) -> (r: ParseError)
        ensures
            r.message == self.message,
            r.position == self.position,
            r.span == self.span,
            r.hint == self.hint,
            r.rule_context matches Some(c) && c@ == rule@,
    {
        ParseError { rule_context: Some(rule.to_owned()), ..self }
    }

    /// The same error with a hint for the reader.
    pub fn with_hint(self, hint: &str) -> (r: ParseError)
        ensures
            r.message == self.message,
            r.position == self.position,
            r.span == self.span,
            r.rule_context == self.rule_context,
            r.hint matches Some(h) && h@ == hint@,
    {
        ParseError { hint: Some(hint.to_owned()), ..self }
    }
}

/// An event of the parse.
#[derive(Debug, Clone, PartialEq)]
pub enum ParseEvent {
    /// A rule begins to match.
    Start { rule: String },
    /// A rule has matched.
    End { rule: String },
    /// A terminal or class matched the input in `span`.
    Token { kind: TokenKind, span: Span },
    /// The parse failed; no event follows.
    Error(ParseError),
}

/// What [`Parser::pull`] has to say.
#[derive(Debug)]
pub enum Pull {
    /// The next event.
    Event(ParseEvent),
    /// More input is needed: [`Parser::feed`] it, or [`Parser::finish_input`].
    NeedInput,
    /// No event will follow.
    Done,
}

/// The text a token matched.
pub open spec fn payload(kind: TokenKind) -> Seq<char> {
    match kind {
        TokenKind::Char(c) => seq![c],
        TokenKind::Str(s) => s@,
        TokenKind::Class(c) => seq![c],
    }
}

/// The text of the tokens among `events`, one after the other.
pub open spec fn tokens_text(events: Seq<ParseEvent>) -> Seq<char>
    decreases events.len(),
{
    if events.len() == 0 {
        Seq::empty()
    } else {
        tokens_text(events.drop_last()) + match events.last() {
            ParseEvent::Token { kind, .. } => payload(kind),
            _ => Seq::empty(),
        }
    }
}

/// Each token's span runs from the byte length of the tokens before it to the byte length of
/// the tokens up to and including it.
pub open spec fn spans_exact(events: Seq<ParseEvent>) -> bool {
    forall|i: int|
        0 <= i < events.len() ==> match #[trigger] events[i] {
            ParseEvent::Token { span, .. } => span.start == utf8_len(tokens_text(events.take(i)))
                && span.end == utf8_len(tokens_text(events.take(i + 1))),
            _ => true,
        }
}

/// The rules left open by `events`: a `Start` opens one, an `End` closes the innermost, which
/// must be the same rule. `None` where an `End` does not fit.
pub open spec fn open_rules(events: Seq<ParseEvent>) -> Option<Seq<Seq<char>>>
    decreases events.len(),
{
    if events.len() == 0 {
        Some(Seq::empty())
    } else {
        match open_rules(events.drop_last()) {
            None => None,
            Some(open) => match events.last() {
                ParseEvent::Start { rule } => Some(open.push(rule@)),
                ParseEvent::End { rule } => if open.len() > 0 && open.last() == rule@ {
                    Some(open.drop_last())
                } else {
                    None
                },
                _ => Some(open),
            },
        }
    }
}

/// Whether an error is among `events`.
pub open spec fn has_error(events: Seq<ParseEvent>) -> bool {
    exists|i: int| 0 <= i < events.len() && events[i] is Error
}

/// Where a rule reference stands: about to start, matching its production, or about to end.
#[derive(Debug, Clone, Copy, PartialEq, Eq, Structural)]
pub enum RefStage {
    Start,
    Parsing,
    End,
}

/// A point to come back to: character index, byte offset, and number of events produced.
#[derive(Debug, Clone, Copy)]
pub struct Mark {
    pub index: usize,
    pub offset: usize,
    pub events: usize,
}

/// Progress within one production: a sequence at item `idx`; an alternation about to try
/// alternative `idx` (0: not yet begun) with the mark where it began; a repetition after
/// `count` rounds, about to try one (`trying`) or having tried one from `mark`; a terminal,
/// class, or rule reference; a reference to a rule the grammar lacks.
#[derive(Debug, Clone, Copy)]
pub enum Frame<'a> {
    Sequence { items: &'a Vec<Prod>, idx: usize },
    Alt { alts: &'a Vec<Prod>, idx: usize, mark: Mark },
    Group { inner: &'a Prod },
    Repeat { item: &'a Prod, quant: &'a RepeatQuant, count: usize, mark: Mark, trying: bool },
    Terminal { kind: &'a TerminalKind },
    Class { class: &'a CharClass },
    Ref { rule: usize, stage: RefStage },
    Missing { name: &'a String },
}

enum Step {
    Continue,
    NeedInput,
}

/// The mark a frame holds, if any.
pub open spec fn frame_mark(f: Frame) -> Option<Mark> {
    match f {
        Frame::Alt { mark, .. } => Some(mark),
        Frame::Repeat { mark, .. } => Some(mark),
        _ => None,
    }
}

/// Names of the rules whose `Start` has been emitted and whose `End` has not, bottom first.
pub open spec fn open_refs(g: Grammar, frames: Seq<Frame>) -> Seq<Seq<char>>
    decreases frames.len(),
{
    if frames.len() == 0 {
        Seq::empty()
    } else {
        let below = open_refs(g, frames.drop_last());
        match frames.last() {
            Frame::Ref { rule, stage } => if stage != RefStage::Start {
                below.push(g.rules@[rule as int].name@)
            } else {
                below
            },
            _ => below,
        }
    }
}

/// What a token says, with its text as characters.
pub enum TokenView {
    Char(char),
    Str(Seq<char>),
    Class(char),
}

/// What an event says, with its texts as characters.
pub enum EventView {
    Start(Seq<char>),
    End(Seq<char>),
    Token(TokenView, Span),
    /// Message, position, span, rule context, hint.
    Error(Seq<char>, usize, Option<Span>, Option<Seq<char>>, Option<Seq<char>>),
}

/// What a token kind says.
pub open spec fn token_view(k: TokenKind) -> TokenView {
    match k {
        TokenKind::Char(c) => TokenView::Char(c),
        TokenKind::Str(s) => TokenView::Str(s@),
        TokenKind::Class(c) => TokenView::Class(c),
    }
}

/// The text of an optional string.
pub open spec fn opt_text(s: Option<String>) -> Option<Seq<char>> {
    match s {
        Some(t) => Some(t@),
        None => None,
    }
}

/// What an event says.
pub open spec fn event_view(e: ParseEvent) -> EventView {
    match e {
        ParseEvent::Start { rule } => EventView::Start(rule@),
        ParseEvent::End { rule } => EventView::End(rule@),
        ParseEvent::Token { kind, span } => EventView::Token(token_view(kind), span),
        ParseEvent::Error(err) => EventView::Error(
            err.message@,
            err.position,
            err.span,
            opt_text(err.rule_context),
            opt_text(err.hint),
        ),
    }
}

/// The views of a list of events.
pub open spec fn views(events: Seq<ParseEvent>) -> Seq<EventView> {
    events.map_values(|e: ParseEvent| event_view(e))
}

/// The state of the parsing machine over a whole text: its frames, its cursor (a character
/// index), the events produced and not undone, the steps it may still take, and whether it
/// has ended, and failed.
pub struct Machine<'a> {
    pub frames: Seq<Frame<'a>>,
    pub cursor: int,
    pub events: Seq<EventView>,
    pub budget: int,
    pub finished: bool,
    pub failed: bool,
}

/// Byte offset of character index `cursor`.
pub open spec fn offset_of(text: Seq<char>, cursor: int) -> int {
    utf8_len(text.take(cursor)) as int
}

/// The mark of the machine's position.
pub open spec fn mark_at(text: Seq<char>, m: Machine) -> Mark {
    Mark {
        index: m.cursor as usize,
        offset: offset_of(text, m.cursor) as usize,
        events: m.events.len() as usize,
    }
}

/// `f` is the frame that begins production `p` at the machine's position.
pub open spec fn is_fresh(g: Grammar, text: Seq<char>, m: Machine, p: Prod, f: Frame) -> bool {
    match p {
        Prod::Sequence(items) => f matches Frame::Sequence { items: v, idx } && *v == items && idx
            == 0,
        Prod::Alt(items) => f matches Frame::Alt { alts: v, idx, mark } && *v == items && idx == 0
            && mark == mark_at(text, m),
        Prod::Group(inner) => f matches Frame::Group { inner: v } && *v == *inner,
        Prod::Repeat { item, quant } => f matches Frame::Repeat {
            item: v,
            quant: q,
            count,
            mark,
            trying,
        } && *v == *item && *q == quant && count == 0 && mark == mark_at(text, m) && trying,
        Prod::Terminal { kind, .. } => f matches Frame::Terminal { kind: k } && *k == kind,
        Prod::Class(class) => f matches Frame::Class { class: k } && *k == class,
        Prod::Ref { name, .. } => match super::grammar::first_rule_index(g, name@) {
            Some(i) => f == Frame::Ref { rule: i as usize, stage: RefStage::Start },
            None => f matches Frame::Missing { name: n } && *n == name,
        },
    }
}

/// `m2` is `m` with a fresh frame for `p` on top.
pub open spec fn pushes_fresh(g: Grammar, text: Seq<char>, m: Machine, p: Prod, m2: Machine) -> bool {
    &&& m2.frames.len() == m.frames.len() + 1
    &&& m2.frames.drop_last() == m.frames
    &&& is_fresh(g, text, m, p, m2.frames.last())
    &&& m2 == Machine { frames: m2.frames, ..m }
}

/// The span of a token from byte `start` to `end`, with line and column where they fit.
pub open spec fn token_span_at(text: Seq<char>, start: int, end: int) -> Span {
    if start < u32::MAX {
        Span {
            start: start as usize,
            end: end as usize,
            line: Some(super::tracker::line_column_of(text, start).0 as u32),
            column: Some(super::tracker::line_column_of(text, start).1 as u32),
        }
    } else {
        Span { start: start as usize, end: end as usize, line: None, column: None }
    }
}

/// The machine after consuming `n` characters as a token.
pub open spec fn with_token(text: Seq<char>, m: Machine, n: int, t: TokenView) -> Machine {
    Machine {
        cursor: m.cursor + n,
        events: m.events.push(
            EventView::Token(
                t,
                token_span_at(text, offset_of(text, m.cursor), offset_of(text, m.cursor + n)),
            ),
        ),
        ..m
    }
}

/// The error event that ends a parse.
pub open spec fn error_view(why: Seq<char>, position: int, context: Option<Seq<char>>) -> EventView {
    EventView::Error("failed to match: "@ + why, position as usize, None, context, None)
}

/// The innermost rule being matched among `frames`, else the first rule.
pub open spec fn innermost(g: Grammar, frames: Seq<Frame>) -> Option<Seq<char>>
    decreases frames.len(),
{
    if frames.len() == 0 {
        if g.rules@.len() > 0 {
            Some(g.rules@[0].name@)
        } else {
            None
        }
    } else {
        match frames.last() {
            Frame::Ref { rule, stage } => if stage != RefStage::Start {
                Some(g.rules@[rule as int].name@)
            } else {
                innermost(g, frames.drop_last())
            },
            _ => innermost(g, frames.drop_last()),
        }
    }
}

/// The machine goes back to `mark` with the frames below a frame just taken off.
pub open spec fn back_to(m: Machine, mark: Mark) -> Machine {
    Machine {
        frames: m.frames.drop_last(),
        cursor: mark.index as int,
        events: if mark.events <= m.events.len() {
            m.events.take(mark.events as int)
        } else {
            m.events
        },
        ..m
    }
}

/// A failure unwinds the frames to the nearest alternation with an alternative left (which
/// then tries it from where it began) or repetition that has had enough rounds (which then
/// ends where its last round began), dropping the events produced since; with none, one error
/// event ends the parse.
pub open spec fn unwinds_to(
    g: Grammar,
    text: Seq<char>,
    m: Machine,
    why: Seq<char>,
    context: Option<Seq<char>>,
    position: int,
    m2: Machine,
) -> bool
    decreases m.frames.len(),
{
    if m.frames.len() == 0 {
        m2 == Machine {
            frames: Seq::empty(),
            events: m.events.push(error_view(why, position, context)),
            finished: true,
            failed: true,
            ..m
        }
    } else {
        let rest = Machine { frames: m.frames.drop_last(), ..m };
        match m.frames.last() {
            Frame::Alt { alts, idx, mark } => if 0 < idx < alts@.len() {
                let back = back_to(m, mark);
                pushes_fresh(
                    g,
                    text,
                    Machine { frames: back.frames.push(Frame::Alt { alts, idx: (idx + 1) as usize, mark }), ..back },
                    alts@[idx as int],
                    m2,
                )
            } else if idx > 0 {
                unwinds_to(g, text, rest, "no alternative matched"@, context, position, m2)
            } else {
                unwinds_to(g, text, rest, why, context, position, m2)
            },
            Frame::Repeat { quant, count, mark, trying, .. } => if !trying {
                if count >= quant.min {
                    m2 == back_to(m, mark)
                } else {
                    unwinds_to(
                        g,
                        text,
                        rest,
                        "repeat did not satisfy minimum occurrences"@,
                        context,
                        position,
                        m2,
                    )
                }
            } else {
                unwinds_to(g, text, rest, why, context, position, m2)
            },
            _ => unwinds_to(g, text, rest, why, context, position, m2),
        }
    }
}

/// A failure for reason `why` at the machine's position.
pub open spec fn fails_to(g: Grammar, text: Seq<char>, m: Machine, why: Seq<char>, m2: Machine) -> bool {
    unwinds_to(g, text, m, why, innermost(g, m.frames), offset_of(text, m.cursor), m2)
}

/// What frame `f`, just taken off `m`, does; `false` where it needs input the open text lacks.
pub open spec fn frame_step(
    g: Grammar,
    text: Seq<char>,
    closed: bool,
    m: Machine,
    f: Frame,
    m2: Machine,
) -> bool {
    match f {
        Frame::Ref { rule, stage } => match stage {
            RefStage::Start => {
                let m1 = Machine {
                    frames: m.frames.push(Frame::Ref { rule, stage: RefStage::Parsing }),
                    events: m.events.push(EventView::Start(g.rules@[rule as int].name@)),
                    ..m
                };
                pushes_fresh(g, text, m1, g.rules@[rule as int].production, m2)
            },
            RefStage::Parsing => m2 == Machine {
                frames: m.frames.push(Frame::Ref { rule, stage: RefStage::End }),
                ..m
            },
            RefStage::End => m2 == Machine {
                events: m.events.push(EventView::End(g.rules@[rule as int].name@)),
                ..m
            },
        },
        Frame::Sequence { items, idx } => if idx < items@.len() {
            pushes_fresh(
                g,
                text,
                Machine { frames: m.frames.push(Frame::Sequence { items, idx: (idx + 1) as usize }), ..m },
                items@[idx as int],
                m2,
            )
        } else {
            m2 == m
        },
        Frame::Group { inner } => pushes_fresh(g, text, m, *inner, m2),
        Frame::Alt { alts, idx, mark } => if idx == 0 {
            if alts@.len() == 0 {
                fails_to(g, text, m, "no alternative matched"@, m2)
            } else {
                pushes_fresh(
                    g,
                    text,
                    Machine {
                        frames: m.frames.push(Frame::Alt { alts, idx: 1, mark: mark_at(text, m) }),
                        ..m
                    },
                    alts@[0],
                    m2,
                )
            }
        } else {
            m2 == m
        },
        Frame::Repeat { item, quant, count, mark, trying } => if trying {
            if quant.max is Some && count >= quant.max->0 {
                m2 == m
            } else {
                pushes_fresh(
                    g,
                    text,
                    Machine {
                        frames: m.frames.push(
                            Frame::Repeat { item, quant, count, mark: mark_at(text, m), trying: false },
                        ),
                        ..m
                    },
                    *item,
                    m2,
                )
            }
        } else if m.cursor > mark.index {
            m2 == Machine {
                frames: m.frames.push(
                    Frame::Repeat {
                        item,
                        quant,
                        count: (count + 1) as usize,
                        mark: mark_at(text, m),
                        trying: true,
                    },
                ),
                ..m
            }
        } else if count >= quant.min {
            m2 == m
        } else {
            fails_to(g, text, m, "repeat did not satisfy minimum occurrences"@, m2)
        },
        Frame::Terminal { kind } => match *kind {
            TerminalKind::Char(c) => if m.cursor < text.len() {
                if text[m.cursor] == c {
                    m2 == with_token(text, m, 1, TokenView::Char(c))
                } else {
                    fails_to(g, text, m, "terminal did not match"@, m2)
                }
            } else if closed {
                fails_to(g, text, m, "terminal did not match"@, m2)
            } else {
                false
            },
            TerminalKind::Str(st) => if m.cursor + st@.len() <= text.len() {
                if text.subrange(m.cursor, m.cursor + st@.len()) == st@ {
                    m2 == with_token(text, m, st@.len() as int, TokenView::Str(st@))
                } else {
                    fails_to(g, text, m, "terminal did not match"@, m2)
                }
            } else if closed {
                fails_to(g, text, m, "terminal did not match"@, m2)
            } else {
                false
            },
        },
        Frame::Class { class } => if m.cursor < text.len() {
            if super::grammar::class_contains(*class, text[m.cursor]) {
                m2 == with_token(text, m, 1, TokenView::Class(text[m.cursor]))
            } else {
                fails_to(g, text, m, "character class did not match"@, m2)
            }
        } else if closed {
            fails_to(g, text, m, "character class did not match"@, m2)
        } else {
            false
        },
        Frame::Missing { name } => fails_to(g, text, m, "undefined rule '"@ + name@ + "'"@, m2),
    }
}

/// Frame `f` needs input beyond what the text holds.
pub open spec fn lacks_input(text: Seq<char>, m: Machine, f: Frame) -> bool {
    match f {
        Frame::Terminal { kind } => match *kind {
            TerminalKind::Char(_) => m.cursor >= text.len(),
            TerminalKind::Str(st) => m.cursor + st@.len() > text.len(),
        },
        Frame::Class { .. } => m.cursor >= text.len(),
        _ => false,
    }
}

/// The least of `cursor` and the indices of the marks among `frames`.
pub open spec fn least_mark(frames: Seq<Frame>, cursor: int) -> int
    decreases frames.len(),
{
    if frames.len() == 0 {
        cursor
    } else {
        let rest = least_mark(frames.drop_last(), cursor);
        match frame_mark(frames.last()) {
            Some(mk) => if (mk.index as int) < rest {
                mk.index as int
            } else {
                rest
            },
            None => rest,
        }
    }
}

/// A value at most the cursor and every mark, and equal to one of them, is their least.
proof fn lemma_least_mark(frames: Seq<Frame>, cursor: int, k: int)
    requires
        k <= cursor,
        forall|i: int|
            0 <= i < frames.len() && (#[trigger] frame_mark(frames[i])) is Some ==> k
                <= frame_mark(frames[i])->0.index,
        k == cursor || exists|i: int|
            0 <= i < frames.len() && (#[trigger] frame_mark(frames[i])) is Some && frame_mark(
                frames[i],
            )->0.index == k,
    ensures
        k == least_mark(frames, cursor),
    decreases frames.len(),
{
    if frames.len() > 0 {
        let d = frames.drop_last();
        let last = frames.len() - 1;
        assert(frames.last() == frames[last]);
        assert forall|i: int| 0 <= i < d.len() && (#[trigger] frame_mark(d[i])) is Some implies k
            <= frame_mark(d[i])->0.index by {
            assert(d[i] == frames[i]);
        }
        if k == cursor || exists|i: int|
            0 <= i < d.len() && (#[trigger] frame_mark(d[i])) is Some && frame_mark(d[i])->0.index
                == k {
            lemma_least_mark(d, cursor, k);
        } else {
            let i = choose|i: int|
                0 <= i < frames.len() && (#[trigger] frame_mark(frames[i])) is Some && frame_mark(
                    frames[i],
                )->0.index == k;
            if i < last {
                assert(d[i] == frames[i]);
            }
            lemma_least_mark_le(d, cursor, k);
        }
    }
}

/// The least of the cursor and the marks is at least any lower bound of them.
proof fn lemma_least_mark_le(frames: Seq<Frame>, cursor: int, k: int)
    requires
        k <= cursor,
        forall|i: int|
            0 <= i < frames.len() && (#[trigger] frame_mark(frames[i])) is Some ==> k
                <= frame_mark(frames[i])->0.index,
    ensures
        k <= least_mark(frames, cursor),
    decreases frames.len(),
{
    if frames.len() > 0 {
        let d = frames.drop_last();
        let last = frames.len() - 1;
        assert(frames.last() == frames[last]);
        assert forall|i: int| 0 <= i < d.len() && (#[trigger] frame_mark(d[i])) is Some implies k
            <= frame_mark(d[i])->0.index by {
            assert(d[i] == frames[i]);
        }
        lemma_least_mark_le(d, cursor, k);
    }
}

/// The machine cannot take its next step before more input comes.
pub open spec fn needs_input(text: Seq<char>, m: Machine) -> bool {
    &&& !m.finished
    &&& m.events.len() < EVENT_LIMIT
    &&& m.budget > 0
    &&& m.frames.len() > 0
    &&& lacks_input(text, Machine { frames: m.frames.drop_last(), ..m }, m.frames.last())
}

/// The machine at the start of the first rule, or, with no rules, ended by an error.
pub open spec fn init_machine<'a>(g: Grammar) -> Machine<'a> {
    if g.rules@.len() > 0 {
        Machine {
            frames: seq![Frame::Ref { rule: 0, stage: RefStage::Start }],
            cursor: 0,
            events: Seq::empty(),
            budget: usize::MAX as int,
            finished: false,
            failed: false,
        }
    } else {
        Machine {
            frames: Seq::empty(),
            cursor: 0,
            events: seq![EventView::Error("grammar has no rules"@, 0, None, None, None)],
            budget: usize::MAX as int,
            finished: true,
            failed: true,
        }
    }
}

/// `m2` is where `n` steps of the machine over the complete `text` lead from `m`.
pub open spec fn runs(g: Grammar, text: Seq<char>, m: Machine, n: nat, m2: Machine) -> bool
    decreases n,
{
    if n == 0 {
        m2 == m
    } else {
        exists|mid: Machine| runs(g, text, m, (n - 1) as nat, mid) && step_to(g, text, true, mid, m2)
    }
}

/// `events` are those of a run of the machine over the complete `text` that has ended.
pub open spec fn parse_run(g: Grammar, text: Seq<char>, events: Seq<EventView>) -> bool {
    exists|n: nat, m: Machine|
        runs(g, text, init_machine(g), n, m) && m.finished && m.events == events
}

/// The machine ended at once with an error.
pub open spec fn aborted(text: Seq<char>, m: Machine, why: Seq<char>) -> Machine {
    Machine {
        frames: Seq::empty(),
        events: m.events.push(
            EventView::Error("failed to match: "@ + why, offset_of(text, m.cursor) as usize, None, None, None),
        ),
        finished: true,
        failed: true,
        ..m
    }
}

/// One step of the machine over `text` (complete if `closed`): too many events or steps end
/// it with an error; with no frame left it has ended; else its top frame does its work.
pub open spec fn step_to(g: Grammar, text: Seq<char>, closed: bool, m: Machine, m2: Machine) -> bool {
    if m.finished {
        false
    } else if m.events.len() >= EVENT_LIMIT {
        m2 == aborted(text, m, "event limit reached"@)
    } else if m.budget == 0 {
        m2 == aborted(text, m, "step limit reached"@)
    } else if m.frames.len() == 0 {
        m2 == Machine { finished: true, budget: m.budget - 1, ..m }
    } else {
        &&& m2.budget == m.budget - 1
        &&& frame_step(
            g,
            text,
            closed,
            Machine { frames: m.frames.drop_last(), ..m },
            m.frames.last(),
            Machine { budget: m.budget, ..m2 },
        )
    }
}

/// The streaming parser over a grammar.
pub struct Parser<'a> {
    grammar: &'a Grammar,
    /// The window of input still needed.
    buffer: Vec<char>,
    /// Cursor, as an index into the window.
    pos: usize,
    /// Cursor, as an absolute byte offset.
    offset: usize,
    frames: Vec<Frame<'a>>,
    /// Events produced and not yet handed out.
    pending: VecDeque<ParseEvent>,
    /// Number of events handed out.
    delivered: usize,
    tracker: LineColumnTracker,
    finished: bool,
    failed: bool,
    closed: bool,
    /// Number of characters dropped from the front of the window.
    base: usize,
    /// Byte offset of the front of the window.
    base_offset: usize,
    /// Steps the parser may still take.
    budget: usize,
    /// Steps taken.
    steps: Ghost<nat>,
    /// The events handed out.
    history: Ghost<Seq<ParseEvent>>,
}

impl<'a> Parser<'a> {
    /// The parser as a machine over the input taken in so far.
    pub closed spec fn machine(&self) -> Machine<'a> {
        Machine {
            frames: self.frames@,
            cursor: self.base + self.pos,
            events: views(self.emitted()),
            budget: self.budget as int,
            finished: self.finished,
            failed: self.failed,
        }
    }

    /// All input taken in so far.
    pub closed spec fn text(&self) -> Seq<char> {
        self.tracker.text()
    }

    /// The events handed out so far.
    pub closed spec fn events(&self) -> Seq<ParseEvent> {
        self.history@
    }

    /// The events produced so far and not undone: those handed out, then those held back.
    pub closed spec fn emitted(&self) -> Seq<ParseEvent> {
        self.history@ + self.pending@
    }

    /// The grammar being parsed.
    pub closed spec fn grammar(&self) -> Grammar {
        *self.grammar
    }

    /// Absolute byte offset of the cursor.
    pub closed spec fn cursor(&self) -> int {
        self.offset as int
    }

    /// Number of characters before the cursor.
    pub closed spec fn consumed(&self) -> int {
        self.base + self.pos
    }

    /// No step is left to take.
    pub closed spec fn is_finished(&self) -> bool {
        self.finished
    }

    /// The parse has failed.
    pub closed spec fn is_failed(&self) -> bool {
        self.failed
    }

    /// The input is complete.
    pub closed spec fn input_closed(&self) -> bool {
        self.closed
    }

    spec fn mark_ok(&self, m: Mark, below: Seq<Frame>) -> bool {
        &&& self.base <= m.index <= self.base + self.pos
        &&& m.offset == utf8_len(self.text().take(m.index as int))
        &&& self.delivered <= m.events <= self.emitted().len()
        &&& tokens_text(self.emitted().take(m.events as int)) == self.text().take(m.index as int)
        &&& open_rules(self.emitted().take(m.events as int)) == Some(
            open_refs(*self.grammar, below),
        )
    }

    spec fn frame_ok(&self, f: Frame) -> bool {
        match f {
            Frame::Ref { rule, .. } => rule < self.grammar.rules@.len(),
            Frame::Repeat { count, mark, .. } => count <= mark.index,
            _ => true,
        }
    }

    /// The parser's parts agree with one another.
    spec fn ok(&self) -> bool {
        self.inv(self.frames@)
    }

    /// The parser's parts agree with one another, and it stands where the machine does after
    /// as many steps over the input taken in so far followed by whatever may still come (by
    /// nothing, once the input is complete).
    pub closed spec fn wf(&self) -> bool {
        &&& self.ok()
        &&& forall|u: Seq<char>|
            (self.closed ==> u.len() == 0) ==> #[trigger] runs(
                *self.grammar,
                self.text() + u,
                init_machine(*self.grammar),
                self.steps@,
                self.machine(),
            )
    }

    /// The cursor and the marks lie within the input taken in.
    proof fn lemma_within(&self)
        requires
            self.ok(),
        ensures
            within(self.text(), self.machine()),
    {
        let frames = self.frames@;
        assert forall|i: int|
            0 <= i < frames.len() && (#[trigger] frame_mark(frames[i])) is Some implies frame_mark(
            frames[i],
        )->0.index <= self.text().len() by {
            assert(self.mark_ok(frame_mark(frames[i])->0, frames.take(i)));
        }
    }

    /// Steps taken so far.
    pub closed spec fn steps(&self) -> nat {
        self.steps@
    }


    /// The invariant, with `frames` for the frame stack.
    spec fn inv(&self, frames: Seq<Frame>) -> bool {
        &&& self.inv_core(frames)
        &&& (!self.failed ==> open_rules(self.emitted()) == Some(open_refs(*self.grammar, frames)))
        &&& (!self.failed ==> !has_error(self.emitted()))
        &&& (self.failed ==> has_error(self.emitted()))
        &&& (self.finished ==> frames.len() == 0)
        &&& (self.failed ==> self.finished)
    }

    /// The invariant, but for how rules nest.
    spec fn inv_core(&self, frames: Seq<Frame>) -> bool {
        self.inv_state() && self.inv_frames(frames)
    }

    /// The parts of the invariant that do not concern frames.
    spec fn inv_state(&self) -> bool {
        &&& self.tracker.wf()
        &&& self.base + self.buffer@.len() == self.text().len()
        &&& self.buffer@ == self.text().skip(self.base as int)
        &&& self.base_offset == utf8_len(self.text().take(self.base as int))
        &&& self.pos <= self.buffer@.len()
        &&& self.offset == utf8_len(self.text().take(self.consumed()))
        &&& self.history@.len() == self.delivered
        &&& self.emitted().len() <= EVENT_LIMIT + 1
        &&& (!self.finished ==> self.emitted().len() <= EVENT_LIMIT)
        &&& tokens_text(self.emitted()) == self.text().take(self.consumed())
        &&& spans_exact(self.emitted())
    }

    /// Each frame is sound, each mark can be returned to, and marks grow up the stack.
    spec fn inv_frames(&self, frames: Seq<Frame>) -> bool {
        &&& forall|i: int| 0 <= i < frames.len() ==> self.frame_ok(#[trigger] frames[i])
        &&& forall|i: int|
            0 <= i < frames.len() && (#[trigger] frame_mark(frames[i])) is Some ==> self.mark_ok(
                frame_mark(frames[i])->0,
                frames.take(i),
            )
        &&& forall|i: int, j: int|
            0 <= i < j < frames.len() && (#[trigger] frame_mark(frames[i])) is Some
                && (#[trigger] frame_mark(frames[j])) is Some ==> frame_mark(frames[i])->0.index
                <= frame_mark(frames[j])->0.index && frame_mark(frames[i])->0.events
                <= frame_mark(frames[j])->0.events
    }

    /// The mark of the current position.
    spec fn is_current(&self, m: Mark) -> bool {
        &&& m.index == self.base + self.pos
        &&& m.offset == self.offset
        &&& m.events == self.emitted().len()
    }

    /// Frames below the top keep the invariant.
    proof fn lemma_pop(&self, frames: Seq<Frame>)
        requires
            self.inv_frames(frames),
            frames.len() > 0,
        ensures
            self.inv_frames(frames.drop_last()),
    {
        let d = frames.drop_last();
        assert forall|i: int| 0 <= i < d.len() implies self.frame_ok(#[trigger] d[i]) by {
            assert(d[i] == frames[i]);
        }
        assert forall|i: int|
            0 <= i < d.len() && (#[trigger] frame_mark(d[i])) is Some implies self.mark_ok(
            frame_mark(d[i])->0,
            d.take(i),
        ) by {
            assert(d[i] == frames[i]);
            assert(d.take(i) =~= frames.take(i));
        }
        assert forall|i: int, j: int|
            0 <= i < j < d.len() && (#[trigger] frame_mark(d[i])) is Some && (#[trigger] frame_mark(
                d[j],
            )) is Some implies frame_mark(d[i])->0.index <= frame_mark(d[j])->0.index
            && frame_mark(d[i])->0.events <= frame_mark(d[j])->0.events by {
            assert(d[i] == frames[i]);
            assert(d[j] == frames[j]);
        }
    }

    /// A frame whose mark, if any, is the current position can go on top.
    proof fn lemma_push(&self, frames: Seq<Frame>, f: Frame)
        requires
            self.inv_state(),
            self.inv_frames(frames),
            self.frame_ok(f),
            frame_mark(f) is Some ==> self.is_current(frame_mark(f)->0),
            frame_mark(f) is Some ==> open_rules(self.emitted()) == Some(
                open_refs(*self.grammar, frames),
            ),
        ensures
            self.inv_frames(frames.push(f)),
    {
        let n = frames.push(f);
        assert(n.take(frames.len() as int) =~= frames);
        assert(self.emitted().take(self.emitted().len() as int) =~= self.emitted());
        assert forall|i: int| 0 <= i < n.len() implies self.frame_ok(#[trigger] n[i]) by {
            if i < frames.len() {
                assert(n[i] == frames[i]);
            }
        }
        assert forall|i: int|
            0 <= i < n.len() && (#[trigger] frame_mark(n[i])) is Some implies self.mark_ok(
            frame_mark(n[i])->0,
            n.take(i),
        ) by {
            if i < frames.len() {
                assert(n[i] == frames[i]);
                assert(n.take(i) =~= frames.take(i));
            }
        }
        assert forall|i: int, j: int|
            0 <= i < j < n.len() && (#[trigger] frame_mark(n[i])) is Some && (#[trigger] frame_mark(
                n[j],
            )) is Some implies frame_mark(n[i])->0.index <= frame_mark(n[j])->0.index
            && frame_mark(n[i])->0.events <= frame_mark(n[j])->0.events by {
            assert(n[i] == frames[i]);
            if j < frames.len() {
                assert(n[j] == frames[j]);
            }
        }
    }

    /// Marks stay valid while the cursor moves on and events are added.
    proof fn lemma_stable(old: &Parser<'a>, new: &Parser<'a>, frames: Seq<Frame>)
        requires
            old.inv_frames(frames),
            old.inv_state(),
            new.grammar == old.grammar,
            old.text().len() <= new.text().len(),
            new.text().take(old.text().len() as int) == old.text(),
            new.base == old.base,
            new.pos >= old.pos,
            new.delivered == old.delivered,
            old.emitted().len() <= new.emitted().len(),
            new.emitted().take(old.emitted().len() as int) == old.emitted(),
        ensures
            new.inv_frames(frames),
    {
        assert forall|i: int|
            0 <= i < frames.len() && (#[trigger] frame_mark(frames[i])) is Some implies new.mark_ok(
            frame_mark(frames[i])->0,
            frames.take(i),
        ) by {
            let m = frame_mark(frames[i])->0;
            assert(old.mark_ok(m, frames.take(i)));
            assert(new.text().take(m.index as int) =~= old.text().take(m.index as int)) by {
                assert(new.text().take(m.index as int) =~= new.text().take(
                    old.text().len() as int,
                ).take(m.index as int));
            }
            assert(new.emitted().take(m.events as int) =~= old.emitted().take(m.events as int))
                by {
                assert(new.emitted().take(m.events as int) =~= new.emitted().take(
                    old.emitted().len() as int,
                ).take(m.events as int));
            }
        }
        assert forall|i: int| 0 <= i < frames.len() implies new.frame_ok(#[trigger] frames[i]) by {
            assert(old.frame_ok(frames[i]));
        }
    }
}

impl<'a> Parser<'a> {
    /// A parser at the start of the grammar's first rule, with no input yet.
    pub fn new(grammar: &'a Grammar) -> (r: Parser<'a>)
        ensures
            r.wf(),
            r.machine() == init_machine(*grammar),
            r.steps() == 0,
            r.grammar() == *grammar,
            r.text() == Seq::<char>::empty(),
            r.events() == Seq::<ParseEvent>::empty(),
            r.cursor() == 0,
            !r.input_closed(),
            grammar.rules@.len() > 0 ==> !r.is_finished() && r.emitted().len() == 0,
            grammar.rules@.len() == 0 ==> r.is_failed() && r.emitted().len() == 1
                && r.emitted()[0] is Error,
    {
        let mut r = Parser {
            grammar,
            buffer: Vec::new(),
            pos: 0,
            offset: 0,
            frames: Vec::new(),
            pending: VecDeque::new(),
            delivered: 0,
            tracker: LineColumnTracker::empty(),
            finished: false,
            failed: false,
            closed: false,
            base: 0,
            base_offset: 0,
            budget: usize::MAX,
            steps: Ghost(0),
            history: Ghost(Seq::empty()),
        };
        proof {
            assert(r.text() =~= Seq::<char>::empty());
            assert(r.emitted() =~= Seq::<ParseEvent>::empty());
            assert(r.text().take(0) =~= Seq::<char>::empty());
            assert(r.text().skip(0) =~= r.buffer@);
            assert(utf8_len(Seq::<char>::empty()) == 0) by {
                reveal_with_fuel(vstd::utf8::encode_utf8, 1);
            }
        }
        if grammar.rules.len() > 0 {
            let f = Frame::Ref { rule: 0, stage: RefStage::Start };
            r.frames.push(f);
            proof {
                lemma_open_refs_push(*grammar, Seq::empty(), f);
                assert(r.frames@ =~= Seq::<Frame>::empty().push(f));
                r.lemma_push(Seq::empty(), f);
                assert(r.frames@ =~= seq![f]);
                assert(views(r.emitted()) =~= Seq::<EventView>::empty());
            }
        } else {
            let e = ParseEvent::Error(ParseError::new("grammar has no rules", 0));
            proof {
                lemma_push_event(r.emitted(), e);
                lemma_spans_push(r.emitted(), e);
            }
            r.pending.push_back(e);
            r.finished = true;
            r.failed = true;
            proof {
                assert(r.emitted() =~= Seq::<ParseEvent>::empty().push(e));
                assert(views(r.emitted()) =~= seq![event_view(e)]);
                assert(r.frames@ =~= Seq::<Frame>::empty());
            }
        }
        r
    }

    /// Absolute byte offset of the cursor.
    pub fn current_position(&self) -> (r: usize)
        requires
            self.wf(),
        ensures
            r == self.cursor(),
            r == offset_of(self.text(), self.machine().cursor),
    {
        self.offset
    }

    /// The window holds the input from character `window_start()` on; its byte length is that
    /// of the input less the offset of its front; it never starts past the cursor or a mark.
    pub proof fn lemma_window(&self)
        requires
            self.wf(),
        ensures
            0 <= self.window_start() <= self.machine().cursor <= self.text().len(),
            self.window_bytes() == utf8_len(self.text()) - offset_of(self.text(), self.window_start()),
            self.cursor() == offset_of(self.text(), self.machine().cursor),
            forall|i: int|
                0 <= i < self.machine().frames.len() && (#[trigger] frame_mark(
                    self.machine().frames[i],
                )) is Some ==> self.window_start() <= frame_mark(self.machine().frames[i])->0.index,
    {
        let frames = self.frames@;
        assert forall|i: int|
            0 <= i < frames.len() && (#[trigger] frame_mark(frames[i])) is Some implies self.window_start()
            <= frame_mark(frames[i])->0.index by {
            assert(self.mark_ok(frame_mark(frames[i])->0, frames.take(i)));
        }
    }

    /// Number of characters held in the input window.
    pub fn buffer_len(&self) -> (r: usize)
        requires
            self.wf(),
        ensures
            r == self.text().len() - self.window_start(),
    {
        self.buffer.len()
    }

    /// Line and column of byte offset `position` in the input taken in so far.
    pub fn line_column(&self, position: usize) -> (r: (u32, u32))
        requires
            self.wf(),
            super::tracker::line_column_of(self.text(), position as int).0 <= u32::MAX,
            super::tracker::line_column_of(self.text(), position as int).1 <= u32::MAX,
        ensures
            r.0 as int == super::tracker::line_column_of(self.text(), position as int).0,
            r.1 as int == super::tracker::line_column_of(self.text(), position as int).1,
    {
        self.tracker.line_column(position)
    }

    /// A span from `start` to `end` with the line and column of `start`.
    pub fn span_from_range(&self, start: usize, end: usize) -> (r: Span)
        requires
            self.wf(),
            super::tracker::line_column_of(self.text(), start as int).0 <= u32::MAX,
            super::tracker::line_column_of(self.text(), start as int).1 <= u32::MAX,
        ensures
            r.start == start,
            r.end == end,
            r.line == Some(super::tracker::line_column_of(self.text(), start as int).0 as u32),
            r.column == Some(super::tracker::line_column_of(self.text(), start as int).1 as u32),
    {
        self.tracker.span_with_position(start, end)
    }

    /// A span for a token, with line and column where they fit.
    fn token_span(&self, start: usize, end: usize) -> (r: Span)
        requires
            self.tracker.wf(),
        ensures
            r == token_span_at(self.text(), start as int, end as int),
    {
        if start < u32::MAX as usize {
            proof {
                lemma_line_column_small(self.text(), start as int);
            }
            self.tracker.span_with_position(start, end)
        } else {
            Span::new(start, end)
        }
    }
}

impl<'a> Parser<'a> {
    /// The least of the cursor and every mark, as a character index and a byte offset.
    fn least_mark(&self) -> (r: (usize, usize))
        requires
            self.ok(),
        ensures
            self.base <= r.0 <= self.base + self.pos,
            r.1 == utf8_len(self.text().take(r.0 as int)),
            forall|i: int|
                0 <= i < self.frames@.len() && (#[trigger] frame_mark(self.frames@[i])) is Some
                    ==> r.0 <= frame_mark(self.frames@[i])->0.index,
            r.0 == self.base + self.pos || exists|i: int|
                0 <= i < self.frames@.len() && (#[trigger] frame_mark(self.frames@[i])) is Some
                    && frame_mark(self.frames@[i])->0.index == r.0,
    {
        proof {
            lemma_utf8_len_at_least(self.text());
            self.tracker.lemma_len_fits();
        }
        let mut k = self.base + self.pos;
        let mut koff = self.offset;
        let mut i: usize = 0;
        while i < self.frames.len()
            invariant
                self.ok(),
                i <= self.frames@.len(),
                self.base <= k <= self.base + self.pos,
                koff == utf8_len(self.text().take(k as int)),
                forall|j: int|
                    0 <= j < i && (#[trigger] frame_mark(self.frames@[j])) is Some ==> k
                        <= frame_mark(self.frames@[j])->0.index,
                k == self.base + self.pos || exists|j: int|
                    0 <= j < self.frames@.len() && (#[trigger] frame_mark(self.frames@[j]))
                        is Some && frame_mark(self.frames@[j])->0.index == k,
            decreases self.frames@.len() - i,
        {
            let f = self.frames[i];
            match f {
                Frame::Alt { mark, .. } => {
                    proof {
                        assert(frame_mark(self.frames@[i as int]) == Some(mark));
                        assert(self.mark_ok(mark, self.frames@.take(i as int)));
                    }
                    if mark.index < k {
                        k = mark.index;
                        koff = mark.offset;
                    }
                },
                Frame::Repeat { mark, .. } => {
                    proof {
                        assert(frame_mark(self.frames@[i as int]) == Some(mark));
                        assert(self.mark_ok(mark, self.frames@.take(i as int)));
                    }
                    if mark.index < k {
                        k = mark.index;
                        koff = mark.offset;
                    }
                },
                _ => {},
            }
            i += 1;
        }
        (k, koff)
    }

    /// Bytes held in the window.
    pub closed spec fn window_bytes(&self) -> int {
        utf8_len(self.text()) - self.base_offset
    }

    /// Number of characters dropped from the front of the input.
    pub closed spec fn window_start(&self) -> int {
        self.base as int
    }

    /// Drops the input that neither the cursor nor any mark can return to, once the window
    /// holds more than `MAX_BUFFER_SIZE` bytes and the cursor is more than `MIN_SLIDE_SIZE`
    /// bytes into it. Only the window changes: the text, the events, the cursor and the frames
    /// stay as they are.
    fn slide(&mut self)
        requires
            old(self).ok(),
        ensures
            final(self).ok(),
            final(self).grammar == old(self).grammar,
            final(self).tracker == old(self).tracker,
            final(self).frames == old(self).frames,
            final(self).history == old(self).history,
            final(self).pending == old(self).pending,
            final(self).delivered == old(self).delivered,
            final(self).offset == old(self).offset,
            final(self).budget == old(self).budget,
            final(self).steps == old(self).steps,
            final(self).consumed() == old(self).consumed(),
            final(self).finished == old(self).finished,
            final(self).failed == old(self).failed,
            final(self).closed == old(self).closed,
            old(self).window_bytes() > MAX_BUFFER_SIZE && old(self).offset - old(self).base_offset
                > MIN_SLIDE_SIZE ==> {
                &&& final(self).base <= old(self).base + old(self).pos
                &&& (final(self).base == old(self).base + old(self).pos || exists|i: int|
                    0 <= i < old(self).frames@.len() && (#[trigger] frame_mark(
                        old(self).frames@[i],
                    )) is Some && frame_mark(old(self).frames@[i])->0.index == final(self).base)
                &&& forall|i: int|
                    0 <= i < old(self).frames@.len() && (#[trigger] frame_mark(
                        old(self).frames@[i],
                    )) is Some ==> final(self).base <= frame_mark(old(self).frames@[i])->0.index
            },
            !(old(self).window_bytes() > MAX_BUFFER_SIZE && old(self).offset - old(
                self,
            ).base_offset > MIN_SLIDE_SIZE) ==> final(self).base == old(self).base,
            old(self).window_bytes() > MAX_BUFFER_SIZE && old(self).offset - old(self).base_offset
                > MIN_SLIDE_SIZE ==> final(self).base == least_mark(
                old(self).frames@,
                old(self).base + old(self).pos,
            ),
    {
        proof {
            lemma_utf8_len_prefix(self.text(), self.base as int);
            let c = self.text().take(self.consumed());
            assert(c.take(self.base as int) =~= self.text().take(self.base as int));
            lemma_utf8_len_prefix(c, self.base as int);
        }
        if self.tracker.input_len() - self.base_offset > MAX_BUFFER_SIZE && self.offset
            - self.base_offset > MIN_SLIDE_SIZE {
            let (k, koff) = self.least_mark();
            proof {
                lemma_least_mark(self.frames@, self.base + self.pos, k as int);
            }
            if k > self.base {
                let ghost old_self = *self;
                let tail = self.buffer.split_off(k - self.base);
                self.buffer = tail;
                self.pos = self.pos - (k - self.base);
                self.base = k;
                self.base_offset = koff;
                proof {
                    let frames = self.frames@;
                    assert(self.buffer@ =~= self.text().skip(self.base as int));
                    assert forall|i: int|
                        0 <= i < frames.len() && (#[trigger] frame_mark(frames[i])) is Some implies self.mark_ok(
                        frame_mark(frames[i])->0,
                        frames.take(i),
                    ) by {
                        assert(old_self.mark_ok(frame_mark(frames[i])->0, frames.take(i)));
                    }
                    assert forall|i: int| 0 <= i < frames.len() implies self.frame_ok(
                        #[trigger] frames[i],
                    ) by {
                        assert(old_self.frame_ok(frames[i]));
                    }
                }
            }
        }
    }
}

impl<'a> Parser<'a> {
    /// Whether the byte length of the input stays within `usize` after `chunk`.
    fn fits(&self, chunk: &Vec<char>) -> (r: bool)
        requires
            self.ok(),
        ensures
            r == (utf8_len(self.text() + chunk@) <= usize::MAX),
    {
        let mut total: usize = self.tracker.input_len();
        let mut i: usize = 0;
        while i < chunk.len()
            invariant
                self.ok(),
                i <= chunk@.len(),
                total == utf8_len(self.text() + chunk@.take(i as int)),
            decreases chunk@.len() - i,
        {
            let w = width_of(chunk[i]);
            proof {
                assert(self.text() + chunk@.take(i + 1) =~= (self.text() + chunk@.take(i as int)).push(
                    chunk@[i as int],
                ));
                lemma_utf8_len_push(self.text() + chunk@.take(i as int), chunk@[i as int]);
                assert(self.text() + chunk@ =~= (self.text() + chunk@.take(i + 1)) + chunk@.skip(
                    i + 1,
                ));
                lemma_utf8_len_concat(self.text() + chunk@.take(i + 1), chunk@.skip(i + 1));
            }
            if total > usize::MAX - w {
                return false;
            }
            total = total + w;
            i += 1;
        }
        proof {
            assert(chunk@.take(chunk@.len() as int) =~= chunk@);
            assert(self.text() + chunk@.take(0) =~= self.text());
        }
        true
    }

    /// Takes in more characters of input.
    fn take_chars(&mut self, chunk: &Vec<char>)
        requires
            old(self).ok(),
            utf8_len(old(self).text() + chunk@) <= usize::MAX,
        ensures
            final(self).ok(),
            final(self).grammar == old(self).grammar,
            final(self).text() == old(self).text() + chunk@,
            final(self).history == old(self).history,
            final(self).pending@ == old(self).pending@,
            final(self).offset == old(self).offset,
            final(self).consumed() == old(self).consumed(),
            final(self).finished == old(self).finished,
            final(self).failed == old(self).failed,
            final(self).closed == old(self).closed,
            final(self).machine() == old(self).machine(),
            final(self).steps == old(self).steps,
            old(self).window_bytes() > MAX_BUFFER_SIZE && old(self).offset - old(self).base_offset
                > MIN_SLIDE_SIZE ==> final(self).base == least_mark(
                old(self).frames@,
                old(self).base + old(self).pos,
            ),
            !(old(self).window_bytes() > MAX_BUFFER_SIZE && old(self).offset - old(
                self,
            ).base_offset > MIN_SLIDE_SIZE) ==> final(self).base == old(self).base,
    {
        self.slide();
        let ghost before = *self;
        self.tracker.extend(chunk);
        let mut extra: Vec<char> = Vec::new();
        let mut i: usize = 0;
        while i < chunk.len()
            invariant
                i <= chunk@.len(),
                extra@ == chunk@.take(i as int),
            decreases chunk@.len() - i,
        {
            extra.push(chunk[i]);
            proof {
                assert(chunk@.take(i + 1) =~= chunk@.take(i as int).push(chunk@[i as int]));
            }
            i += 1;
        }
        self.buffer.append(&mut extra);
        proof {
            assert(chunk@.take(chunk@.len() as int) =~= chunk@);
            let t = self.text();
            assert(t.take(before.text().len() as int) =~= before.text());
            assert(self.buffer@ =~= t.skip(self.base as int));
            assert(t.take(self.consumed()) =~= before.text().take(self.consumed()));
            assert(t.take(self.base as int) =~= before.text().take(self.base as int));
            assert(self.emitted().take(before.emitted().len() as int) =~= before.emitted());
            Parser::lemma_stable(&before, self, self.frames@);
        }
    }

    /// Takes in the next piece of input, decoding it as UTF-8 with invalid sequences replaced.
    /// Returns false, taking nothing, where the input's byte length would no longer fit `usize`.
    pub fn feed(&mut self, chunk: &[u8]) -> (accepted: bool)
        requires
            old(self).wf(),
        ensures
            final(self).wf(),
            final(self).grammar() == old(self).grammar(),
            final(self).steps() == old(self).steps(),
            accepted == (!old(self).input_closed() && utf8_len(
                old(self).text() + super::text::lossy_utf8(chunk@),
            ) <= usize::MAX),
            accepted ==> final(self).text() == old(self).text() + super::text::lossy_utf8(chunk@),
            !accepted ==> final(self).text() == old(self).text(),
            final(self).events() == old(self).events(),
            final(self).emitted() == old(self).emitted(),
            final(self).cursor() == old(self).cursor(),
            final(self).is_finished() == old(self).is_finished(),
            final(self).is_failed() == old(self).is_failed(),
            final(self).input_closed() == old(self).input_closed(),
            final(self).machine() == old(self).machine(),
            accepted && old(self).window_bytes() > MAX_BUFFER_SIZE && old(self).cursor()
                - offset_of(old(self).text(), old(self).window_start()) > MIN_SLIDE_SIZE
                ==> final(self).window_start() == least_mark(
                old(self).machine().frames,
                old(self).machine().cursor,
            ),
            !(accepted && old(self).window_bytes() > MAX_BUFFER_SIZE && old(self).cursor()
                - offset_of(old(self).text(), old(self).window_start()) > MIN_SLIDE_SIZE)
                ==> final(self).window_start() == old(self).window_start(),
    {
        if self.closed {
            return false;
        }
        let decoded = decode_lossy(chunk);
        let chars = chars_of(decoded.as_str());
        if self.fits(&chars) {
            let ghost before = *self;
            self.take_chars(&chars);
            proof {
                let g = *self.grammar;
                assert forall|u: Seq<char>|
                    (self.closed ==> u.len() == 0) implies #[trigger] runs(
                    g,
                    self.text() + u,
                    init_machine(g),
                    self.steps@,
                    self.machine(),
                ) by {
                    assert(self.text() + u =~= before.text() + (chars@ + u));
                    assert(runs(g, before.text() + (chars@ + u), init_machine(g), before.steps@, before.machine()));
                }
            }
            true
        } else {
            false
        }
    }

    /// Takes in the next piece of input as text. Returns false, taking nothing, where the
    /// input's byte length would no longer fit `usize`.
    pub fn feed_str(&mut self, chunk: &str) -> (accepted: bool)
        requires
            old(self).wf(),
        ensures
            final(self).wf(),
            final(self).grammar() == old(self).grammar(),
            final(self).steps() == old(self).steps(),
            accepted ==> final(self).text() == old(self).text() + chunk@,
            !accepted ==> final(self).text() == old(self).text(),
            accepted == (!old(self).input_closed() && utf8_len(old(self).text() + chunk@)
                <= usize::MAX),
            final(self).events() == old(self).events(),
            final(self).emitted() == old(self).emitted(),
            final(self).cursor() == old(self).cursor(),
            final(self).is_finished() == old(self).is_finished(),
            final(self).is_failed() == old(self).is_failed(),
            final(self).input_closed() == old(self).input_closed(),
            final(self).machine() == old(self).machine(),
            accepted && old(self).window_bytes() > MAX_BUFFER_SIZE && old(self).cursor()
                - offset_of(old(self).text(), old(self).window_start()) > MIN_SLIDE_SIZE
                ==> final(self).window_start() == least_mark(
                old(self).machine().frames,
                old(self).machine().cursor,
            ),
            !(accepted && old(self).window_bytes() > MAX_BUFFER_SIZE && old(self).cursor()
                - offset_of(old(self).text(), old(self).window_start()) > MIN_SLIDE_SIZE)
                ==> final(self).window_start() == old(self).window_start(),
    {
        if self.closed {
            return false;
        }
        let chars = chars_of(chunk);
        if self.fits(&chars) {
            let ghost before = *self;
            self.take_chars(&chars);
            proof {
                let g = *self.grammar;
                assert forall|u: Seq<char>|
                    (self.closed ==> u.len() == 0) implies #[trigger] runs(
                    g,
                    self.text() + u,
                    init_machine(g),
                    self.steps@,
                    self.machine(),
                ) by {
                    assert(self.text() + u =~= before.text() + (chars@ + u));
                    assert(runs(g, before.text() + (chars@ + u), init_machine(g), before.steps@, before.machine()));
                }
            }
            true
        } else {
            false
        }
    }

    /// Declares the input complete: what is missing now never comes, and no more is taken in.
    pub fn finish_input(&mut self)
        requires
            old(self).wf(),
        ensures
            final(self).wf(),
            final(self).steps() == old(self).steps(),
            final(self).grammar() == old(self).grammar(),
            final(self).text() == old(self).text(),
            final(self).events() == old(self).events(),
            final(self).emitted() == old(self).emitted(),
            final(self).cursor() == old(self).cursor(),
            final(self).is_finished() == old(self).is_finished(),
            final(self).is_failed() == old(self).is_failed(),
            final(self).input_closed(),
            final(self).machine() == old(self).machine(),
    {
        let ghost before = *self;
        if !self.closed {
            self.closed = true;
        }
        proof {
            let g = *self.grammar;
            assert forall|u: Seq<char>|
                (self.closed ==> u.len() == 0) implies #[trigger] runs(
                g,
                self.text() + u,
                init_machine(g),
                self.steps@,
                self.machine(),
            ) by {
                assert(runs(g, before.text() + u, init_machine(g), before.steps@, before.machine()));
            }
        }
    }

    /// A parser over all of `input`, which is complete.
    pub fn from_str(grammar: &'a Grammar, input: &str) -> (r: Parser<'a>)
        requires
            utf8_len(input@) <= usize::MAX,
        ensures
            r.wf(),
            r.steps() == 0,
            r.machine() == init_machine(*grammar),
            r.grammar() == *grammar,
            r.text() == input@,
            r.events() == Seq::<ParseEvent>::empty(),
            r.input_closed(),
            grammar.rules@.len() > 0 ==> !r.is_finished() && r.emitted().len() == 0,
    {
        let mut r = Parser::new(grammar);
        let ok = r.feed_str(input);
        proof {
            assert(Seq::<char>::empty() + input@ =~= input@);
        }
        r.finish_input();
        r
    }
}

impl<'a> Parser<'a> {
    /// Ready for one step on top of `frames` plus the frame `f` just taken off.
    spec fn pre_step(&self, f: Frame) -> bool {
        &&& self.inv(self.frames@.push(f))
        &&& !self.finished
        &&& self.emitted().len() < EVENT_LIMIT
    }

    /// What a step leaves as it was.
    spec fn kept(&self, old: &Parser<'a>) -> bool {
        &&& self.grammar == old.grammar
        &&& self.tracker == old.tracker
        &&& self.buffer == old.buffer
        &&& self.history == old.history
        &&& self.delivered == old.delivered
        &&& self.base == old.base
        &&& self.base_offset == old.base_offset
        &&& self.budget == old.budget
        &&& self.steps == old.steps
        &&& self.closed == old.closed
    }

    /// The mark of the current position.
    fn mark_now(&self) -> (m: Mark)
        requires
            self.inv_state(),
        ensures
            self.is_current(m),
    {
        proof {
            lemma_utf8_len_at_least(self.text());
            self.tracker.lemma_len_fits();
        }
        Mark {
            index: self.base + self.pos,
            offset: self.offset,
            events: self.delivered + self.pending.len(),
        }
    }

    /// A fresh frame for production `p`, marked at the current position.
    fn from_prod(&self, p: &'a Prod) -> (f: Frame<'a>)
        requires
            self.inv_state(),
        ensures
            self.frame_ok(f),
            frame_mark(f) is Some ==> self.is_current(frame_mark(f)->0),
            f matches Frame::Ref { stage, .. } ==> stage == RefStage::Start,
            f matches Frame::Repeat { count, trying, .. } ==> count == 0 && trying,
            f matches Frame::Alt { idx, .. } ==> idx == 0,
            is_fresh(*self.grammar, self.text(), self.machine(), *p, f),
    {
        match p {
            Prod::Sequence(items) => Frame::Sequence { items, idx: 0 },
            Prod::Alt(alts) => Frame::Alt { alts, idx: 0, mark: self.mark_now() },
            Prod::Group(inner) => Frame::Group { inner },
            Prod::Repeat { item, quant } => Frame::Repeat {
                item,
                quant,
                count: 0,
                mark: self.mark_now(),
                trying: true,
            },
            Prod::Terminal { kind, .. } => Frame::Terminal { kind },
            Prod::Class(class) => Frame::Class { class },
            Prod::Ref { name, .. } => match self.grammar.rule_index(name.as_str()) {
                Some(rule) => Frame::Ref { rule, stage: RefStage::Start },
                None => Frame::Missing { name },
            },
        }
    }

    /// Pushes a frame fresh from `from_prod` (or one whose mark is current).
    fn push_frame(&mut self, f: Frame<'a>)
        requires
            old(self).inv_state(),
            old(self).inv_frames(old(self).frames@),
            old(self).frame_ok(f),
            frame_mark(f) is Some ==> old(self).is_current(frame_mark(f)->0),
            frame_mark(f) is Some ==> open_rules(old(self).emitted()) == Some(
                open_refs(*old(self).grammar, old(self).frames@),
            ),
        ensures
            final(self).inv_state(),
            final(self).inv_frames(final(self).frames@),
            final(self).frames@ == old(self).frames@.push(f),
            final(self).machine() == (Machine {
                frames: old(self).machine().frames.push(f),
                ..old(self).machine()
            }),
            final(self).kept(old(self)),
            final(self).pos == old(self).pos,
            final(self).offset == old(self).offset,
            final(self).pending == old(self).pending,
            final(self).finished == old(self).finished,
            final(self).failed == old(self).failed,
    {
        proof {
            self.lemma_push(self.frames@, f);
        }
        self.frames.push(f);
    }

    /// Adds an event that is not a token.
    fn emit(&mut self, e: ParseEvent)
        requires
            old(self).inv_state(),
            old(self).inv_frames(old(self).frames@),
            !(e is Token),
            old(self).emitted().len() < EVENT_LIMIT,
        ensures
            final(self).inv_state(),
            final(self).inv_frames(final(self).frames@),
            final(self).emitted() == old(self).emitted().push(e),
            final(self).frames == old(self).frames,
            final(self).kept(old(self)),
            final(self).pos == old(self).pos,
            final(self).offset == old(self).offset,
            final(self).finished == old(self).finished,
            final(self).failed == old(self).failed,
            !has_error(old(self).emitted()) && !(e is Error) ==> !has_error(final(self).emitted()),
            e is Error ==> has_error(final(self).emitted()),
            final(self).machine() == (Machine {
                events: old(self).machine().events.push(event_view(e)),
                ..old(self).machine()
            }),
    {
        let ghost before = *self;
        proof {
            lemma_has_error_push(self.emitted(), e);
            lemma_views_push(self.emitted(), e);
        }
        proof {
            lemma_push_event(self.emitted(), e);
            lemma_spans_push(self.emitted(), e);
        }
        self.pending.push_back(e);
        proof {
            assert(self.emitted() =~= before.emitted().push(e));
            assert(self.text().take(self.text().len() as int) =~= self.text());
            Parser::lemma_stable(&before, self, self.frames@);
        }
    }

    /// Consumes the next `n` characters, which `kind` matched, and adds their token.
    fn accept(&mut self, n: usize, kind: TokenKind)
        requires
            old(self).inv_state(),
            old(self).inv_frames(old(self).frames@),
            old(self).emitted().len() < EVENT_LIMIT,
            old(self).pos + n <= old(self).buffer@.len(),
            payload(kind) == old(self).buffer@.subrange(
                old(self).pos as int,
                old(self).pos + n,
            ),
        ensures
            final(self).inv_state(),
            final(self).inv_frames(final(self).frames@),
            final(self).frames == old(self).frames,
            final(self).kept(old(self)),
            final(self).pos == old(self).pos + n,
            final(self).emitted().len() == old(self).emitted().len() + 1,
            open_rules(final(self).emitted()) == open_rules(old(self).emitted()),
            final(self).finished == old(self).finished,
            final(self).failed == old(self).failed,
            !has_error(old(self).emitted()) ==> !has_error(final(self).emitted()),
            final(self).machine() == with_token(
                old(self).text(),
                old(self).machine(),
                n as int,
                token_view(kind),
            ),
    {
        let ghost before = *self;
        let ghost t = self.text();
        let ghost c = self.consumed();
        proof {
            assert(t.take(c + n) =~= t.take(c) + payload(kind));
            lemma_utf8_len_concat(t.take(c), payload(kind));
            lemma_utf8_len_prefix(t, c + n);
            self.tracker.lemma_len_fits();
        }
        let blen = self.buffer.len();
        let w: usize = match &kind {
            TokenKind::Char(ch) => {
                proof {
                    assert(payload(kind) =~= seq![*ch]);
                }
                width_of(*ch)
            },
            TokenKind::Class(ch) => {
                proof {
                    assert(payload(kind) =~= seq![*ch]);
                }
                width_of(*ch)
            },
            TokenKind::Str(st) => st.as_str().len(),
        };
        assert(w == utf8_len(payload(kind)));
        let start = self.offset;
        let end = self.offset + w;
        let span = self.token_span(start, end);
        let e = ParseEvent::Token { kind, span };
        proof {
            lemma_push_event(self.emitted(), e);
            assert(utf8_len(tokens_text(self.emitted())) == start);
            lemma_spans_push(self.emitted(), e);
            assert(open_rules(self.emitted().push(e)) == open_rules(self.emitted()));
            lemma_has_error_push(self.emitted(), e);
            lemma_views_push(self.emitted(), e);
        }
        self.pending.push_back(e);
        self.pos = self.pos + n;
        self.offset = end;
        proof {
            assert(self.emitted() =~= before.emitted().push(e));
            assert(t.take(t.len() as int) =~= t);
            Parser::lemma_stable(&before, self, self.frames@);
        }
    }
}

impl<'a> Parser<'a> {
    /// Returns to mark `m` of a frame just taken off: the cursor goes back and the events
    /// produced since are dropped.
    fn rollback(&mut self, m: Mark)
        requires
            old(self).inv_state(),
            old(self).inv_frames(old(self).frames@),
            old(self).mark_ok(m, old(self).frames@),
            forall|i: int|
                0 <= i < old(self).frames@.len() && (#[trigger] frame_mark(old(self).frames@[i]))
                    is Some ==> frame_mark(old(self).frames@[i])->0.index <= m.index && frame_mark(
                    old(self).frames@[i],
                )->0.events <= m.events,
        ensures
            final(self).inv_state(),
            final(self).inv_frames(final(self).frames@),
            final(self).frames == old(self).frames,
            final(self).kept(old(self)),
            final(self).is_current(m),
            final(self).emitted() == old(self).emitted().take(m.events as int),
            final(self).machine() == (Machine {
                cursor: m.index as int,
                events: old(self).machine().events.take(m.events as int),
                ..old(self).machine()
            }),
            open_rules(final(self).emitted()) == Some(
                open_refs(*old(self).grammar, old(self).frames@),
            ),
            final(self).finished == old(self).finished,
            final(self).failed == old(self).failed,
            !has_error(old(self).emitted()) ==> !has_error(final(self).emitted()),
    {
        let ghost before = *self;
        self.pos = m.index - self.base;
        self.offset = m.offset;
        self.pending.truncate(m.events - self.delivered);
        proof {
            let e = before.emitted();
            assert(self.emitted() =~= e.take(m.events as int));
            lemma_views_take(e, m.events as int);
            if !has_error(e) {
                assert forall|i: int| 0 <= i < self.emitted().len() implies !(
                #[trigger] self.emitted()[i] is Error) by {
                    assert(self.emitted()[i] == e[i]);
                }
            }
            lemma_spans_take(e, m.events as int);
            let frames = self.frames@;
            assert forall|i: int|
                0 <= i < frames.len() && (#[trigger] frame_mark(frames[i])) is Some implies self.mark_ok(
                frame_mark(frames[i])->0,
                frames.take(i),
            ) by {
                let mi = frame_mark(frames[i])->0;
                assert(before.mark_ok(mi, frames.take(i)));
                assert(self.emitted().take(mi.events as int) =~= e.take(mi.events as int));
            }
            assert forall|i: int| 0 <= i < frames.len() implies self.frame_ok(#[trigger] frames[i]) by {
                assert(before.frame_ok(frames[i]));
            }
        }
    }

    /// The innermost rule being matched, else the start rule.
    fn innermost_rule(&self) -> (r: Option<String>)
        requires
            self.inv_frames(self.frames@),
        ensures
            opt_text(r) == innermost(*self.grammar, self.frames@),
    {
        let mut i = self.frames.len();
        proof {
            assert(self.frames@.take(i as int) =~= self.frames@);
        }
        while i > 0
            invariant
                i <= self.frames@.len(),
                self.inv_frames(self.frames@),
                innermost(*self.grammar, self.frames@) == innermost(
                    *self.grammar,
                    self.frames@.take(i as int),
                ),
            decreases i,
        {
            i -= 1;
            proof {
                let t = self.frames@.take(i + 1);
                assert(t.drop_last() =~= self.frames@.take(i as int));
                assert(t.last() == self.frames@[i as int]);
            }
            match self.frames[i] {
                Frame::Ref { rule, stage } => {
                    if stage != RefStage::Start {
                        assert(self.frame_ok(self.frames@[i as int]));
                        return Some(self.grammar.rules[rule].name.clone());
                    }
                },
                _ => {},
            }
        }
        if self.grammar.rules.len() > 0 {
            Some(self.grammar.rules[0].name.clone())
        } else {
            None
        }
    }

    /// A step failed: unwinds to the nearest alternation with an alternative left, or
    /// repetition that has had enough rounds, and resumes there; with none, ends the parse with
    /// an error.
    fn fail(&mut self, reason: String)
        requires
            old(self).inv_state(),
            old(self).inv_frames(old(self).frames@),
            !old(self).finished,
            !old(self).failed,
            !has_error(old(self).emitted()),
            old(self).emitted().len() < EVENT_LIMIT,
        ensures
            final(self).ok(),
            final(self).kept(old(self)),
            final(self).pos <= old(self).pos,
            final(self).failed ==> final(self).emitted().len() == old(self).emitted().len() + 1
                && final(self).emitted().last() is Error,
            fails_to(
                *old(self).grammar,
                old(self).text(),
                old(self).machine(),
                reason@,
                final(self).machine(),
            ),
    {
        let context = self.innermost_rule();
        let position = self.offset;
        let ghost g = *self.grammar;
        let ghost text = self.text();
        let ghost ctx = opt_text(context);
        let ghost m0 = self.machine();
        let ghost why0 = reason@;
        let mut why = reason;
        assert(position == offset_of(text, self.machine().cursor));
        while self.frames.len() > 0
            invariant
                self.inv_state(),
                self.inv_frames(self.frames@),
                !self.finished,
                !self.failed,
                !has_error(self.emitted()),
                self.emitted() == old(self).emitted(),
                self.kept(old(self)),
                self.pos == old(self).pos,
                g == *self.grammar,
                text == self.text(),
                position == offset_of(text, self.machine().cursor),
                m0 == old(self).machine(),
                g == *old(self).grammar,
                text == old(self).text(),
                why0 == reason@,
                ctx == innermost(g, m0.frames),
                position == offset_of(text, m0.cursor),
                forall|x: Machine|
                    unwinds_to(g, text, m0, why0, ctx, position as int, x) == unwinds_to(
                        g,
                        text,
                        self.machine(),
                        why@,
                        ctx,
                        position as int,
                        x,
                    ),
            decreases self.frames@.len(),
        {
            let ghost before = self.frames@;
            let ghost mpre = self.machine();
            let ghost why_here = why@;
            proof {
                assert(forall|x: Machine|
                    unwinds_to(g, text, m0, why0, ctx, position as int, x) == unwinds_to(
                        g,
                        text,
                        mpre,
                        why_here,
                        ctx,
                        position as int,
                        x,
                    ));
            }
            let f = self.frames.pop().unwrap();
            proof {
                assert(self.machine().frames == mpre.frames.drop_last());
                assert(mpre.frames.last() == f);
                assert(self.frames@ =~= before.drop_last());
                self.lemma_pop(before);
                let n = before.len() - 1;
                assert(before[n] == f);
                assert(before.take(n) =~= self.frames@);
                assert forall|i: int|
                    0 <= i < self.frames@.len() && (#[trigger] frame_mark(self.frames@[i])) is Some
                        && frame_mark(f) is Some implies frame_mark(self.frames@[i])->0.index
                    <= frame_mark(f)->0.index && frame_mark(self.frames@[i])->0.events <= frame_mark(
                    f,
                )->0.events by {
                    assert(before[i] == self.frames@[i]);
                    assert(frame_mark(before[i]) is Some);
                    assert(frame_mark(before[n]) is Some);
                }
            }
            match f {
                Frame::Alt { alts, idx, mark } => {
                    if idx > 0 && idx < alts.len() {
                        self.rollback(mark);
                        let next = Frame::Alt { alts, idx: idx + 1, mark };
                        let ghost below = self.frames@;
                        proof {
                            lemma_open_refs_push(*self.grammar, below, next);
                        }
                        self.push_frame(next);
                        let fresh = self.from_prod(&alts[idx]);
                        let ghost mid = self.frames@;
                        proof {
                            lemma_open_refs_push(*self.grammar, mid, fresh);
                        }
                        self.push_frame(fresh);
                        proof {
                            assert(self.machine().frames.drop_last() =~= mid);
                            let back = back_to(mpre, mark);
                            let fm = self.machine();
                            assert(back.frames =~= below);
                            assert(back.events =~= mpre.events.take(mark.events as int));
                            assert(pushes_fresh(
                                g,
                                text,
                                Machine { frames: back.frames.push(next), ..back },
                                alts@[idx as int],
                                fm,
                            ));
                            assert(unwinds_to(g, text, mpre, why_here, ctx, position as int, fm));
                            assert(unwinds_to(g, text, m0, why0, ctx, position as int, fm));
                        }
                        return ;
                    }
                    if idx > 0 {
                        why = "no alternative matched".to_owned();
                    }
                },
                Frame::Repeat { quant, count, mark, trying, .. } => {
                    if !trying {
                        if count >= quant.min {
                            self.rollback(mark);
                            proof {
                                let fm = self.machine();
                                assert(fm.frames =~= back_to(mpre, mark).frames);
                                assert(fm == back_to(mpre, mark));
                                assert(unwinds_to(g, text, mpre, why_here, ctx, position as int, fm));
                                assert(unwinds_to(g, text, m0, why0, ctx, position as int, fm));
                            }
                            return ;
                        }
                        why = "repeat did not satisfy minimum occurrences".to_owned();
                    }
                },
                _ => {},
            }
        }
        let mut message = "failed to match: ".to_owned();
        push_str(&mut message, why.as_str());
        let error = ParseError {
            message,
            position,
            span: None,
            rule_context: context,
            hint: None,
        };
        self.emit(ParseEvent::Error(error));
        self.finished = true;
        self.failed = true;
        proof {
            assert(self.frames@ =~= Seq::<Frame>::empty());
        }
    }
}

impl<'a> Parser<'a> {
    /// The frames below a frame just taken off keep their invariant.
    proof fn lemma_taken_off(&self, f: Frame)
        requires
            self.pre_step(f),
        ensures
            self.inv_state(),
            self.inv_frames(self.frames@),
            !self.failed,
            !has_error(self.emitted()),
            open_rules(self.emitted()) == Some(open_refs(*self.grammar, self.frames@.push(f))),
            open_refs(*self.grammar, self.frames@.push(f)) == match f {
                Frame::Ref { rule, stage } => if stage != RefStage::Start {
                    open_refs(*self.grammar, self.frames@).push(self.grammar.rules@[rule as int].name@)
                } else {
                    open_refs(*self.grammar, self.frames@)
                },
                _ => open_refs(*self.grammar, self.frames@),
            },
            self.frame_ok(f),
            frame_mark(f) is Some ==> self.mark_ok(frame_mark(f)->0, self.frames@),
    {
        let all = self.frames@.push(f);
        assert(all.drop_last() =~= self.frames@);
        self.lemma_pop(all);
        lemma_open_refs_push(*self.grammar, self.frames@, f);
        assert(all[all.len() - 1] == f);
        assert(all.take(all.len() - 1) =~= self.frames@);
    }

    /// Pushes a fresh frame for `p`.
    fn push_prod(&mut self, p: &'a Prod)
        requires
            old(self).inv_state(),
            old(self).inv_frames(old(self).frames@),
            open_rules(old(self).emitted()) == Some(open_refs(*old(self).grammar, old(self).frames@)),
        ensures
            final(self).inv_state(),
            final(self).inv_frames(final(self).frames@),
            open_rules(final(self).emitted()) == Some(
                open_refs(*final(self).grammar, final(self).frames@),
            ),
            final(self).kept(old(self)),
            final(self).pos == old(self).pos,
            final(self).pending == old(self).pending,
            final(self).finished == old(self).finished,
            final(self).failed == old(self).failed,
            pushes_fresh(*old(self).grammar, old(self).text(), old(self).machine(), *p, final(self).machine()),
    {
        let f = self.from_prod(p);
        let ghost below = self.frames@;
        proof {
            lemma_open_refs_push(*self.grammar, below, f);
        }
        self.push_frame(f);
        proof {
            assert(self.machine().frames.drop_last() =~= old(self).machine().frames);
        }
    }

    #[verifier::rlimit(50)]
    fn step_ref(&mut self, rule: usize, stage: RefStage)
        requires
            old(self).pre_step(Frame::Ref { rule, stage }),
        ensures
            final(self).ok(),
            final(self).kept(old(self)),
            frame_step(*old(self).grammar, old(self).text(), old(self).closed, old(self).machine(), Frame::Ref { rule, stage }, final(self).machine()),
    {
        proof {
            self.lemma_taken_off(Frame::Ref { rule, stage });
        }
        let g: &'a Grammar = self.grammar;
        match stage {
            RefStage::Start => {
                let name = g.rules[rule].name.clone();
                let ghost below = self.frames@;
                let ghost before = self.emitted();
                let e = ParseEvent::Start { rule: name };
                proof {
                    lemma_push_event(before, e);
                }
                self.emit(e);
                let next = Frame::Ref { rule, stage: RefStage::Parsing };
                proof {
                    lemma_open_refs_push(*self.grammar, below, next);
                    assert(open_rules(self.emitted()) == Some(open_refs(*self.grammar, below).push(
                        g.rules@[rule as int].name@,
                    )));
                }
                self.push_frame(next);
                self.push_prod(&g.rules[rule].production);
            },
            RefStage::Parsing => {
                let next = Frame::Ref { rule, stage: RefStage::End };
                let ghost below = self.frames@;
                proof {
                    lemma_open_refs_push(*self.grammar, below, next);
                }
                self.push_frame(next);
            },
            RefStage::End => {
                let name = g.rules[rule].name.clone();
                let e = ParseEvent::End { rule: name };
                proof {
                    lemma_push_event(self.emitted(), e);
                    assert(open_refs(*self.grammar, self.frames@).push(g.rules@[rule as int].name@).drop_last()
                        =~= open_refs(*self.grammar, self.frames@));
                }
                self.emit(e);
            },
        }
    }

    fn step_sequence(&mut self, items: &'a Vec<Prod>, idx: usize)
        requires
            old(self).pre_step(Frame::Sequence { items, idx }),
        ensures
            final(self).ok(),
            final(self).kept(old(self)),
            frame_step(*old(self).grammar, old(self).text(), old(self).closed, old(self).machine(), Frame::Sequence { items, idx }, final(self).machine()),
    {
        proof {
            self.lemma_taken_off(Frame::Sequence { items, idx });
        }
        if idx < items.len() {
            let next = Frame::Sequence { items, idx: idx + 1 };
            let ghost below = self.frames@;
            proof {
                lemma_open_refs_push(*self.grammar, below, next);
            }
            self.push_frame(next);
            self.push_prod(&items[idx]);
        }
    }

    fn step_group(&mut self, inner: &'a Prod)
        requires
            old(self).pre_step(Frame::Group { inner }),
        ensures
            final(self).ok(),
            final(self).kept(old(self)),
            frame_step(*old(self).grammar, old(self).text(), old(self).closed, old(self).machine(), Frame::Group { inner }, final(self).machine()),
    {
        proof {
            self.lemma_taken_off(Frame::Group { inner });
        }
        self.push_prod(inner);
    }

    fn step_alt(&mut self, alts: &'a Vec<Prod>, idx: usize, mark: Mark)
        requires
            old(self).pre_step(Frame::Alt { alts, idx, mark }),
        ensures
            final(self).ok(),
            final(self).kept(old(self)),
            frame_step(*old(self).grammar, old(self).text(), old(self).closed, old(self).machine(), Frame::Alt { alts, idx, mark }, final(self).machine()),
    {
        proof {
            self.lemma_taken_off(Frame::Alt { alts, idx, mark });
        }
        if idx == 0 {
            if alts.len() == 0 {
                self.fail("no alternative matched".to_owned());
            } else {
                let next = Frame::Alt { alts, idx: 1, mark: self.mark_now() };
                let ghost below = self.frames@;
                proof {
                    lemma_open_refs_push(*self.grammar, below, next);
                }
                self.push_frame(next);
                self.push_prod(&alts[0]);
            }
        }
    }

    fn step_repeat(
        &mut self,
        item: &'a Prod,
        quant: &'a RepeatQuant,
        count: usize,
        mark: Mark,
        trying: bool,
    )
        requires
            old(self).pre_step(Frame::Repeat { item, quant, count, mark, trying }),
        ensures
            final(self).ok(),
            final(self).kept(old(self)),
            frame_step(*old(self).grammar, old(self).text(), old(self).closed, old(self).machine(), Frame::Repeat { item, quant, count, mark, trying }, final(self).machine()),
    {
        proof {
            self.lemma_taken_off(Frame::Repeat { item, quant, count, mark, trying });
            lemma_utf8_len_at_least(self.text());
            self.tracker.lemma_len_fits();
        }
        if trying {
            let at_max = match quant.max {
                Some(max) => count >= max,
                None => false,
            };
            if !at_max {
                let next = Frame::Repeat { item, quant, count, mark: self.mark_now(), trying: false };
                let ghost below = self.frames@;
                proof {
                    lemma_open_refs_push(*self.grammar, below, next);
                }
                self.push_frame(next);
                self.push_prod(item);
            }
        } else if self.base + self.pos > mark.index {
            let next = Frame::Repeat {
                item,
                quant,
                count: count + 1,
                mark: self.mark_now(),
                trying: true,
            };
            let ghost below = self.frames@;
            proof {
                lemma_open_refs_push(*self.grammar, below, next);
            }
            self.push_frame(next);
        } else if count < quant.min {
            self.fail("repeat did not satisfy minimum occurrences".to_owned());
        }
    }
}

impl<'a> Parser<'a> {
    /// Ends the parse at once with an error, whatever frames remain.
    fn abort(&mut self, reason: &str)
        requires
            old(self).inv_state(),
            !old(self).finished,
        ensures
            final(self).ok(),
            final(self).kept(old(self)),
            final(self).machine() == aborted(old(self).text(), old(self).machine(), reason@),
            final(self).finished,
            final(self).failed,
    {
        let mut message = "failed to match: ".to_owned();
        push_str(&mut message, reason);
        let e = ParseEvent::Error(ParseError::new(message.as_str(), self.offset));
        let ghost before = *self;
        proof {
            lemma_push_event(self.emitted(), e);
            lemma_spans_push(self.emitted(), e);
            lemma_has_error_push(self.emitted(), e);
        }
        self.frames = Vec::new();
        self.pending.push_back(e);
        self.finished = true;
        self.failed = true;
        proof {
            assert(self.emitted() =~= before.emitted().push(e));
            lemma_views_push(before.emitted(), e);
            assert(self.frames@ =~= Seq::<Frame>::empty());
        }
    }

    fn step_char(&mut self, kind: &'a TerminalKind, expected: char) -> (r: Step)
        requires
            old(self).pre_step(Frame::Terminal { kind }),
            *kind == TerminalKind::Char(expected),
        ensures
            final(self).ok(),
            final(self).kept(old(self)),
            r is NeedInput ==> !old(self).closed && final(self).emitted() == old(self).emitted()
                && !final(self).finished,
            r is Continue ==> frame_step(*old(self).grammar, old(self).text(), old(self).closed, old(self).machine(), Frame::Terminal { kind }, final(self).machine()),
            r is NeedInput ==> !old(self).closed && lacks_input(old(self).text(), old(self).machine(), Frame::Terminal { kind })
                && final(self).machine() == (Machine {
                frames: old(self).machine().frames.push(Frame::Terminal { kind }),
                ..old(self).machine()
            }),
    {
        proof {
            self.lemma_taken_off(Frame::Terminal { kind });
        }
        if self.pos < self.buffer.len() {
            let c = self.buffer[self.pos];
            if c == expected {
                proof {
                    assert(payload(TokenKind::Char(c)) =~= self.buffer@.subrange(
                        self.pos as int,
                        self.pos + 1,
                    ));
                }
                self.accept(1, TokenKind::Char(c));
            } else {
                self.fail("terminal did not match".to_owned());
            }
            Step::Continue
        } else if self.closed {
            self.fail("terminal did not match".to_owned());
            Step::Continue
        } else {
            self.frames.push(Frame::Terminal { kind });
            Step::NeedInput
        }
    }

    fn step_str(&mut self, kind: &'a TerminalKind, expected: &'a String) -> (r: Step)
        requires
            old(self).pre_step(Frame::Terminal { kind }),
            *kind == TerminalKind::Str(*expected),
        ensures
            final(self).ok(),
            final(self).kept(old(self)),
            r is NeedInput ==> !old(self).closed && final(self).emitted() == old(self).emitted()
                && !final(self).finished,
            r is Continue ==> frame_step(*old(self).grammar, old(self).text(), old(self).closed, old(self).machine(), Frame::Terminal { kind }, final(self).machine()),
            r is NeedInput ==> !old(self).closed && lacks_input(old(self).text(), old(self).machine(), Frame::Terminal { kind })
                && final(self).machine() == (Machine {
                frames: old(self).machine().frames.push(Frame::Terminal { kind }),
                ..old(self).machine()
            }),
    {
        proof {
            self.lemma_taken_off(Frame::Terminal { kind });
        }
        let want = chars_of(expected.as_str());
        let n = want.len();
        if self.buffer.len() - self.pos >= n {
            let blen = self.buffer.len();
            let mut i: usize = 0;
            let mut same = true;
            while i < n
                invariant
                    blen == self.buffer@.len(),
                    self.pos + n <= self.buffer@.len(),
                    want@.len() == n,
                    i <= n,
                    same == (forall|k: int| 0 <= k < i ==> want@[k] == self.buffer@[self.pos + k]),
                decreases n - i,
            {
                if want[i] != self.buffer[self.pos + i] {
                    same = false;
                }
                i += 1;
            }
            let ghost t = self.text();
            let ghost c = self.base + self.pos;
            proof {
                assert forall|k: int| 0 <= k < n implies #[trigger] self.buffer@[self.pos + k] == t[c
                    + k] by {
                    assert(self.buffer@ == t.skip(self.base as int));
                }
                if same {
                    assert(t.subrange(c, c + n) =~= expected@);
                } else {
                    let k = choose|k: int| 0 <= k < n && want@[k] != self.buffer@[self.pos + k];
                    assert(t.subrange(c, c + n)[k] != expected@[k]);
                }
            }
            if same {
                let text = expected.clone();
                proof {
                    assert(payload(TokenKind::Str(text)) =~= self.buffer@.subrange(
                        self.pos as int,
                        self.pos + n,
                    ));
                }
                self.accept(n, TokenKind::Str(text));
            } else {
                self.fail("terminal did not match".to_owned());
            }
            Step::Continue
        } else if self.closed {
            self.fail("terminal did not match".to_owned());
            Step::Continue
        } else {
            self.frames.push(Frame::Terminal { kind });
            Step::NeedInput
        }
    }

    fn step_class(&mut self, class: &'a CharClass) -> (r: Step)
        requires
            old(self).pre_step(Frame::Class { class }),
        ensures
            final(self).ok(),
            final(self).kept(old(self)),
            r is NeedInput ==> !old(self).closed && final(self).emitted() == old(self).emitted()
                && !final(self).finished,
            r is Continue ==> frame_step(*old(self).grammar, old(self).text(), old(self).closed, old(self).machine(), Frame::Class { class }, final(self).machine()),
            r is NeedInput ==> !old(self).closed && lacks_input(old(self).text(), old(self).machine(), Frame::Class { class })
                && final(self).machine() == (Machine {
                frames: old(self).machine().frames.push(Frame::Class { class }),
                ..old(self).machine()
            }),
    {
        proof {
            self.lemma_taken_off(Frame::Class { class });
        }
        if self.pos < self.buffer.len() {
            let c = self.buffer[self.pos];
            if class.matches(c) {
                proof {
                    assert(payload(TokenKind::Class(c)) =~= self.buffer@.subrange(
                        self.pos as int,
                        self.pos + 1,
                    ));
                }
                self.accept(1, TokenKind::Class(c));
            } else {
                self.fail("character class did not match".to_owned());
            }
            Step::Continue
        } else if self.closed {
            self.fail("character class did not match".to_owned());
            Step::Continue
        } else {
            self.frames.push(Frame::Class { class });
            Step::NeedInput
        }
    }

    fn step_missing(&mut self, name: &'a String)
        requires
            old(self).pre_step(Frame::Missing { name }),
        ensures
            final(self).ok(),
            final(self).kept(old(self)),
            frame_step(*old(self).grammar, old(self).text(), old(self).closed, old(self).machine(), Frame::Missing { name }, final(self).machine()),
    {
        proof {
            self.lemma_taken_off(Frame::Missing { name });
        }
        let mut reason = "undefined rule '".to_owned();
        push_str(&mut reason, name.as_str());
        push_str(&mut reason, "'");
        self.fail(reason);
    }

    /// Takes one step: the top frame does a bounded amount of work.
    fn step(&mut self) -> (r: Step)
        requires
            old(self).ok(),
            !old(self).finished,
        ensures
            final(self).ok(),
            final(self).same_input(old(self)),
            r is Continue ==> step_to(
                *old(self).grammar,
                old(self).text(),
                old(self).closed,
                old(self).machine(),
                final(self).machine(),
            ),
            r is NeedInput ==> !old(self).closed && final(self).machine() == old(self).machine()
                && needs_input(old(self).text(), old(self).machine()),
    {
        if self.delivered + self.pending.len() >= EVENT_LIMIT {
            self.abort("event limit reached");
            return Step::Continue;
        }
        if self.budget == 0 {
            self.abort("step limit reached");
            return Step::Continue;
        }
        let ghost before = self.frames@;
        let r = match self.frames.pop() {
            None => {
                self.finished = true;
                Step::Continue
            },
            Some(f) => {
                proof {
                    assert(self.frames@.push(f) =~= before);
                    assert(before.drop_last() =~= self.frames@);
                }
                match f {
                    Frame::Sequence { items, idx } => {
                        self.step_sequence(items, idx);
                        Step::Continue
                    },
                    Frame::Alt { alts, idx, mark } => {
                        self.step_alt(alts, idx, mark);
                        Step::Continue
                    },
                    Frame::Group { inner } => {
                        self.step_group(inner);
                        Step::Continue
                    },
                    Frame::Repeat { item, quant, count, mark, trying } => {
                        self.step_repeat(item, quant, count, mark, trying);
                        Step::Continue
                    },
                    Frame::Terminal { kind } => match kind {
                        TerminalKind::Char(c) => self.step_char(kind, *c),
                        TerminalKind::Str(st) => self.step_str(kind, st),
                    },
                    Frame::Class { class } => self.step_class(class),
                    Frame::Ref { rule, stage } => {
                        self.step_ref(rule, stage);
                        Step::Continue
                    },
                    Frame::Missing { name } => {
                        self.step_missing(name);
                        Step::Continue
                    },
                }
            },
        };
        match r {
            Step::Continue => {
                self.budget = self.budget - 1;
            },
            Step::NeedInput => {
                proof {
                    assert(self.frames@ =~= before);
                }
            },
        }
        r
    }

    /// What a step leaves as it was: the grammar and the input.
    spec fn same_input(&self, old: &Parser<'a>) -> bool {
        &&& self.grammar == old.grammar
        &&& self.tracker == old.tracker
        &&& self.buffer == old.buffer
        &&& self.history == old.history
        &&& self.delivered == old.delivered
        &&& self.base == old.base
        &&& self.base_offset == old.base_offset
        &&& self.closed == old.closed
        &&& self.steps == old.steps
    }
}

impl<'a> Parser<'a> {
    /// How many events are settled: those before the lowest mark, or all without marks.
    fn commit_bound(&self) -> (b: usize)
        requires
            self.ok(),
        ensures
            self.delivered <= b <= self.emitted().len(),
            forall|i: int|
                0 <= i < self.frames@.len() && (#[trigger] frame_mark(self.frames@[i])) is Some
                    ==> b <= frame_mark(self.frames@[i])->0.events,
            self.frames@.len() == 0 ==> b == self.emitted().len(),
    {
        let mut i: usize = 0;
        while i < self.frames.len()
            invariant
                self.ok(),
                i <= self.frames@.len(),
                forall|j: int| 0 <= j < i ==> frame_mark(#[trigger] self.frames@[j]) is None,
            decreases self.frames@.len() - i,
        {
            match self.frames[i] {
                Frame::Alt { mark, .. } => {
                    proof {
                        assert(frame_mark(self.frames@[i as int]) is Some);
                    }
                    return mark.events;
                },
                Frame::Repeat { mark, .. } => {
                    proof {
                        assert(frame_mark(self.frames@[i as int]) is Some);
                    }
                    return mark.events;
                },
                _ => {},
            }
            i += 1;
        }
        self.delivered + self.pending.len()
    }

    /// Hands out the next settled event, if there is one.
    fn deliver(&mut self) -> (r: Option<ParseEvent>)
        requires
            old(self).ok(),
        ensures
            final(self).ok(),
            final(self).kept_but_history(old(self)),
            final(self).emitted() == old(self).emitted(),
            match r {
                Some(e) => final(self).history@ == old(self).history@.push(e),
                None => final(self).history == old(self).history && (old(self).finished
                    ==> old(self).pending@.len() == 0),
            },
    {
        let bound = self.commit_bound();
        if self.pending.len() > 0 && self.delivered < bound {
            let ghost before = *self;
            let e = self.pending.pop_front().unwrap();
            self.delivered = self.delivered + 1;
            self.history = Ghost(self.history@.push(e));
            proof {
                assert(self.emitted() =~= before.emitted());
                let frames = self.frames@;
                assert forall|i: int|
                    0 <= i < frames.len() && (#[trigger] frame_mark(frames[i])) is Some implies self.mark_ok(
                    frame_mark(frames[i])->0,
                    frames.take(i),
                ) by {
                    assert(before.mark_ok(frame_mark(frames[i])->0, frames.take(i)));
                }
                assert forall|i: int| 0 <= i < frames.len() implies self.frame_ok(#[trigger] frames[i]) by {
                    assert(before.frame_ok(frames[i]));
                }
            }
            Some(e)
        } else {
            None
        }
    }

    /// What a step leaves as it was, events handed out aside.
    spec fn kept_but_history(&self, old: &Parser<'a>) -> bool {
        &&& self.steps == old.steps
        &&& self.machine() == old.machine()
        &&& self.grammar == old.grammar
        &&& self.tracker == old.tracker
        &&& self.closed == old.closed
        &&& self.finished == old.finished
        &&& self.failed == old.failed
        &&& self.offset == old.offset
    }

    /// Runs the parser until it has an event to hand out, needs input, or is done. It asks for
    /// input only where its next step needs more than it holds.
    ///
    /// A grammar that loops without consuming input (left recursion) could keep the parser
    /// busy for ever; after `usize::MAX` steps in all it gives up with an error.
    pub fn pull(&mut self) -> (r: Pull)
        requires
            old(self).wf(),
        ensures
            final(self).wf(),
            final(self).grammar() == old(self).grammar(),
            final(self).text() == old(self).text(),
            final(self).input_closed() == old(self).input_closed(),
            old(self).is_finished() ==> final(self).is_finished() && final(self).emitted() == old(
                self).emitted() && final(self).cursor() == old(self).cursor(),
            match r {
                Pull::Event(e) => final(self).events() == old(self).events().push(e),
                Pull::NeedInput => !old(self).input_closed() && final(self).events() == old(
                    self).events() && !final(self).is_finished() && needs_input(
                    final(self).text(),
                    final(self).machine(),
                ),
                Pull::Done => final(self).is_finished() && final(self).events() == old(
                    self).events() && final(self).emitted() == final(self).events() && parse_run(
                    final(self).grammar(),
                    final(self).text(),
                    views(final(self).events()),
                ) && views(final(self).events()) == parse_events(
                    final(self).grammar(),
                    final(self).text(),
                ) && final(self).machine() == parse_end(final(self).grammar(), final(self).text()),
            },
    {
        loop
            invariant
                self.wf(),
                self.grammar == old(self).grammar,
                self.tracker == old(self).tracker,
                self.closed == old(self).closed,
                self.history == old(self).history,
                old(self).finished ==> self.finished && self.emitted() == old(self).emitted()
                    && self.cursor() == old(self).cursor(),
            decreases 2 * self.budget + (if self.finished { 0int } else { 1int }),
        {
            match self.deliver() {
                Some(e) => {
                    return Pull::Event(e);
                },
                None => {},
            }
            if self.finished {
                proof {
                    assert(self.emitted() =~= self.history@);
                    self.lemma_ended();
                }
                return Pull::Done;
            }
            let ghost before = *self;
            match self.step() {
                Step::NeedInput => {
                    return Pull::NeedInput;
                },
                Step::Continue => {
                    self.steps = Ghost(self.steps@ + 1);
                    proof {
                        let g = *self.grammar;
                        let t = self.text();
                        let n = before.steps@;
                        before.lemma_within();
                        assert forall|u: Seq<char>|
                            (self.closed ==> u.len() == 0) implies #[trigger] runs(
                            g,
                            self.text() + u,
                            init_machine(g),
                            self.steps@,
                            self.machine(),
                        ) by {
                            assert(runs(g, t + u, init_machine(g), n, before.machine()));
                            lemma_step_extend(g, t, u, self.closed, before.machine(), self.machine());
                            assert(((n + 1) - 1) as nat == n);
                        }
                    }
                },
            }
        }
    }

    /// The next event, or `None` when no event will follow. Input not fed by now is taken to
    /// be missing: where the parser would need more, the input is declared complete.
    pub fn next_event(&mut self) -> (r: Option<ParseEvent>)
        requires
            old(self).wf(),
        ensures
            final(self).wf(),
            final(self).grammar() == old(self).grammar(),
            final(self).text() == old(self).text(),
            old(self).is_finished() ==> final(self).is_finished() && final(self).emitted() == old(
                self).emitted() && final(self).cursor() == old(self).cursor(),
            old(self).is_finished() && old(self).events() == old(self).emitted() ==> r is None,
            r is None ==> parse_run(final(self).grammar(), final(self).text(), views(final(self).events())),
            r is None ==> final(self).machine() == parse_end(final(self).grammar(), final(self).text()),
            r is None ==> views(final(self).events())
                == parse_events(final(self).grammar(), final(self).text()),
            match r {
                Some(e) => final(self).events() == old(self).events().push(e),
                None => final(self).is_finished() && final(self).events() == old(self).events()
                    && final(self).emitted() == final(self).events(),
            },
    {
        loop
            invariant
                self.wf(),
                self.grammar() == old(self).grammar(),
                self.text() == old(self).text(),
                self.events() == old(self).events(),
                old(self).is_finished() ==> self.is_finished() && self.emitted() == old(
                    self).emitted() && self.cursor() == old(self).cursor(),
            decreases (if self.input_closed() { 0int } else { 1int }),
        {
            match self.pull() {
                Pull::Event(e) => {
                    return Some(e);
                },
                Pull::Done => {
                    proof {
                        {
                            let m = self.machine();
                            assert(runs(
                                *self.grammar,
                                self.text() + Seq::<char>::empty(),
                                init_machine(*self.grammar),
                                self.steps@,
                                m,
                            ));
                            assert(self.text() + Seq::<char>::empty() =~= self.text());
                            assert(parse_run(*self.grammar, self.text(), views(self.events())));
                            lemma_parse_run_unique(
                                *self.grammar,
                                self.text(),
                                views(self.events()),
                                parse_events(*self.grammar, self.text()),
                            );
                        }
                    }
                    return None;
                },
                Pull::NeedInput => {
                    self.finish_input();
                },
            }
        }
    }
}

/// An error is among the events after adding one exactly when it was before or is the new one.
proof fn lemma_has_error_push(events: Seq<ParseEvent>, e: ParseEvent)
    ensures
        has_error(events.push(e)) == (has_error(events) || e is Error),
{
    let n = events.push(e);
    if has_error(events) {
        let i = choose|i: int| 0 <= i < events.len() && events[i] is Error;
        assert(n[i] == events[i]);
    }
    if e is Error {
        assert(n[events.len() as int] == e);
    }
    if has_error(n) {
        let i = choose|i: int| 0 <= i < n.len() && n[i] is Error;
        if i < events.len() {
            assert(n[i] == events[i]);
        }
    }
}

/// The text of the tokens splits where the events do.
pub proof fn lemma_tokens_text_split(events: Seq<ParseEvent>, k: int)
    requires
        0 <= k <= events.len(),
    ensures
        tokens_text(events) == tokens_text(events.take(k)) + tokens_text(events.skip(k)),
    decreases events.len() - k,
{
    if k == events.len() {
        assert(events.take(k) =~= events);
        assert(events.skip(k) =~= Seq::<ParseEvent>::empty());
    } else {
        let n = events.len() as int;
        lemma_tokens_text_split(events.drop_last(), k);
        assert(events.drop_last().take(k) =~= events.take(k));
        assert(events.skip(k).drop_last() =~= events.drop_last().skip(k));
        assert(events.skip(k).last() == events.last());
    }
}

/// Law: every token's span runs forward by the byte length of its text, and lies within the
/// input consumed so far; a token with text has a non-empty span.
pub proof fn lemma_token_spans(events: Seq<ParseEvent>, i: int)
    requires
        spans_exact(events),
        0 <= i < events.len(),
        events[i] is Token,
    ensures
        events[i]->span.end == events[i]->span.start + utf8_len(payload(events[i]->kind)),
        events[i]->span.end <= utf8_len(tokens_text(events)),
        payload(events[i]->kind).len() > 0 ==> events[i]->span.start < events[i]->span.end,
{
    let t = events.take(i + 1);
    assert(t.drop_last() =~= events.take(i));
    assert(t.last() == events[i]);
    lemma_utf8_len_concat(tokens_text(events.take(i)), payload(events[i]->kind));
    lemma_tokens_text_split(events, i + 1);
    lemma_utf8_len_concat(tokens_text(t), tokens_text(events.skip(i + 1)));
    lemma_utf8_len_at_least(payload(events[i]->kind));
}

impl<'a> Parser<'a> {
    /// Law: events handed out so far carry exact spans over the text they matched, which is a
    /// prefix of the input, in order.
    pub proof fn lemma_tokens_match_input(&self)
        requires
            self.wf(),
        ensures
            spans_exact(self.events()),
            tokens_text(self.emitted()) == self.text().take(self.consumed()),
            self.text().take(self.consumed()).len() == self.consumed(),
            tokens_text(self.events()) == self.text().take(tokens_text(self.events()).len() as int),
    {
        let e = self.emitted();
        let k = self.history@.len() as int;
        assert(e.take(k) =~= self.history@);
        lemma_spans_take(e, k);
        lemma_tokens_text_split(e, k);
        assert(self.text().take(self.consumed()).take(tokens_text(self.events()).len() as int)
            =~= tokens_text(self.events()));
    }

    /// An ended parser whose events were all handed out stands where the machine's run over
    /// its input ends.
    proof fn lemma_ended(&self)
        requires
            self.wf(),
            self.finished,
            self.emitted() == self.events(),
        ensures
            parse_run(*self.grammar, self.text(), views(self.events())),
            views(self.events()) == parse_events(*self.grammar, self.text()),
            self.machine() == parse_end(*self.grammar, self.text()),
    {
        let g = *self.grammar;
        let t = self.text();
        let m = self.machine();
        assert(runs(g, t + Seq::<char>::empty(), init_machine(g), self.steps@, m));
        assert(t + Seq::<char>::empty() =~= t);
        assert(parse_run(g, t, views(self.events())));
        lemma_parse_run_unique(g, t, views(self.events()), parse_events(g, t));
        lemma_parse_end_unique(g, t, self.steps@, m);
    }

    /// Law: the events handed out so far are never undone: they begin the events of every run
    /// of the machine that ends over the input taken in followed by whatever may still come.
    pub proof fn lemma_handed_out(&self)
        requires
            self.wf(),
        ensures
            settled_prefix(self.grammar(), self.text(), self.input_closed(), views(self.events())),
    {
        let g = *self.grammar;
        let cur = self.machine();
        let k = self.delivered as int;
        assert(settled(cur, k)) by {
            let frames = self.frames@;
            assert forall|i: int|
                0 <= i < frames.len() && (#[trigger] frame_mark(frames[i])) is Some implies k
                <= frame_mark(frames[i])->0.events by {
                assert(self.mark_ok(frame_mark(frames[i])->0, frames.take(i)));
            }
        }
        assert(views(self.events()) =~= cur.events.take(k));
        assert forall|u: Seq<char>, n: nat, m: Machine|
            (self.closed ==> u.len() == 0) && #[trigger] runs(g, self.text() + u, init_machine(g), n, m)
                && m.finished implies views(self.events()).len() <= m.events.len() && m.events.take(
            views(self.events()).len() as int,
        ) == views(self.events()) by {
            let t = self.text() + u;
            assert(runs(g, t, init_machine(g), self.steps@, cur));
            lemma_runs_stop(g, t, init_machine(g), n, m, self.steps@, cur);
            lemma_runs_settled(g, t, self.steps@, cur, n, m, k);
        }
    }

    /// Law: once the parse has ended and every event was handed out without an error, every
    /// rule started was ended, innermost first.
    pub proof fn lemma_balanced(&self)
        requires
            self.wf(),
            self.is_finished(),
            self.events() == self.emitted(),
            !has_error(self.events()),
        ensures
            open_rules(self.events()) == Some(Seq::<Seq<char>>::empty()),
    {
    }

    /// Law: once the parse has ended having consumed all of the input, the tokens spell the
    /// input.
    pub proof fn lemma_tokens_spell_input(&self)
        requires
            self.wf(),
            self.is_finished(),
            self.events() == self.emitted(),
            self.consumed() == self.text().len(),
        ensures
            tokens_text(self.events()) == self.text(),
    {
        assert(self.text().take(self.text().len() as int) =~= self.text());
    }
}

/// All events of parsing the complete `input`: exactly those of the machine's run.
pub fn parse_str(grammar: &Grammar, input: &str) -> (r: Vec<ParseEvent>)
    requires
        utf8_len(input@) <= usize::MAX,
    ensures
        views(r@) == parse_events(*grammar, input@),
        parse_run(*grammar, input@, views(r@)),
        spans_exact(r@),
        tokens_text(r@) == input@.take(tokens_text(r@).len() as int),
        !has_error(r@) ==> open_rules(r@) == Some(Seq::<Seq<char>>::empty()),
{
    let mut parser = Parser::from_str(grammar, input);
    let mut events: Vec<ParseEvent> = Vec::new();
    while events.len() < usize::MAX
        invariant
            parser.wf(),
            parser.grammar() == *grammar,
            parser.text() == input@,
            events@ == parser.events(),
        decreases usize::MAX - events@.len(),
    {
        match parser.next_event() {
            Some(e) => {
                events.push(e);
            },
            None => {
                proof {
                    parser.lemma_tokens_match_input();
                    if !has_error(events@) {
                        parser.lemma_balanced();
                    }
                }
                return events;
            },
        }
    }
    proof {
        assert(parser.emitted().len() <= EVENT_LIMIT + 1);
        assert(false);
    }
    events
}

proof fn lemma_views_push(events: Seq<ParseEvent>, e: ParseEvent)
    ensures
        views(events.push(e)) == views(events).push(event_view(e)),
{
    assert(views(events.push(e)) =~= views(events).push(event_view(e)));
}

proof fn lemma_views_take(events: Seq<ParseEvent>, k: int)
    requires
        0 <= k <= events.len(),
    ensures
        views(events.take(k)) == views(events).take(k),
{
    assert(views(events.take(k)) =~= views(events).take(k));
}

proof fn lemma_fresh_unique(g: Grammar, text: Seq<char>, m: Machine, p: Prod, f1: Frame, f2: Frame)
    requires
        is_fresh(g, text, m, p, f1),
        is_fresh(g, text, m, p, f2),
    ensures
        f1 == f2,
{
}

proof fn lemma_pushes_fresh_unique(g: Grammar, text: Seq<char>, m: Machine, p: Prod, a: Machine, b: Machine)
    requires
        pushes_fresh(g, text, m, p, a),
        pushes_fresh(g, text, m, p, b),
    ensures
        a == b,
{
    lemma_fresh_unique(g, text, m, p, a.frames.last(), b.frames.last());
    assert forall|i: int| 0 <= i < a.frames.len() implies a.frames[i] == b.frames[i] by {
        if i < a.frames.len() - 1 {
            assert(a.frames[i] == a.frames.drop_last()[i]);
            assert(b.frames[i] == b.frames.drop_last()[i]);
        }
    }
    assert(a.frames =~= b.frames);
}

proof fn lemma_unwinds_unique(
    g: Grammar,
    text: Seq<char>,
    m: Machine,
    why: Seq<char>,
    context: Option<Seq<char>>,
    position: int,
    a: Machine,
    b: Machine,
)
    requires
        unwinds_to(g, text, m, why, context, position, a),
        unwinds_to(g, text, m, why, context, position, b),
    ensures
        a == b,
    decreases m.frames.len(),
{
    if m.frames.len() > 0 {
        let rest = Machine { frames: m.frames.drop_last(), ..m };
        match m.frames.last() {
            Frame::Alt { alts, idx, mark } => {
                if 0 < idx < alts@.len() {
                    let back = back_to(m, mark);
                    lemma_pushes_fresh_unique(
                        g,
                        text,
                        Machine { frames: back.frames.push(Frame::Alt { alts, idx: (idx + 1) as usize, mark }), ..back },
                        alts@[idx as int],
                        a,
                        b,
                    );
                } else if idx > 0 {
                    lemma_unwinds_unique(g, text, rest, "no alternative matched"@, context, position, a, b);
                } else {
                    lemma_unwinds_unique(g, text, rest, why, context, position, a, b);
                }
            },
            Frame::Repeat { quant, count, mark, trying, .. } => {
                if trying {
                    lemma_unwinds_unique(g, text, rest, why, context, position, a, b);
                } else if count < quant.min {
                    lemma_unwinds_unique(
                        g,
                        text,
                        rest,
                        "repeat did not satisfy minimum occurrences"@,
                        context,
                        position,
                        a,
                        b,
                    );
                }
            },
            _ => {
                lemma_unwinds_unique(g, text, rest, why, context, position, a, b);
            },
        }
    }
}

proof fn lemma_fails_unique(g: Grammar, text: Seq<char>, m: Machine, why: Seq<char>, a: Machine, b: Machine)
    requires
        fails_to(g, text, m, why, a),
        fails_to(g, text, m, why, b),
    ensures
        a == b,
{
    lemma_unwinds_unique(g, text, m, why, innermost(g, m.frames), offset_of(text, m.cursor), a, b);
}

#[verifier::rlimit(50)]
proof fn lemma_frame_step_unique(
    g: Grammar,
    text: Seq<char>,
    closed: bool,
    m: Machine,
    f: Frame,
    a: Machine,
    b: Machine,
)
    requires
        frame_step(g, text, closed, m, f, a),
        frame_step(g, text, closed, m, f, b),
    ensures
        a == b,
{
    let mk = mark_at(text, m);
    match f {
        Frame::Ref { rule, stage } => {
            if stage == RefStage::Start {
                let m1 = Machine {
                    frames: m.frames.push(Frame::Ref { rule, stage: RefStage::Parsing }),
                    events: m.events.push(EventView::Start(g.rules@[rule as int].name@)),
                    ..m
                };
                lemma_pushes_fresh_unique(g, text, m1, g.rules@[rule as int].production, a, b);
            }
        },
        Frame::Sequence { items, idx } => {
            if idx < items@.len() {
                lemma_pushes_fresh_unique(
                    g,
                    text,
                    Machine { frames: m.frames.push(Frame::Sequence { items, idx: (idx + 1) as usize }), ..m },
                    items@[idx as int],
                    a,
                    b,
                );
            }
        },
        Frame::Group { inner } => {
            lemma_pushes_fresh_unique(g, text, m, *inner, a, b);
        },
        Frame::Alt { alts, idx, mark } => {
            if idx == 0 {
                if alts@.len() == 0 {
                    lemma_fails_unique(g, text, m, "no alternative matched"@, a, b);
                } else {
                    lemma_pushes_fresh_unique(
                        g,
                        text,
                        Machine { frames: m.frames.push(Frame::Alt { alts, idx: 1, mark: mk }), ..m },
                        alts@[0],
                        a,
                        b,
                    );
                }
            }
        },
        Frame::Repeat { item, quant, count, mark, trying } => {
            if trying {
                if !(quant.max is Some && count >= quant.max->0) {
                    lemma_pushes_fresh_unique(
                        g,
                        text,
                        Machine {
                            frames: m.frames.push(
                                Frame::Repeat { item, quant, count, mark: mk, trying: false },
                            ),
                            ..m
                        },
                        *item,
                        a,
                        b,
                    );
                }
            } else if !(m.cursor > mark.index) && count < quant.min {
                lemma_fails_unique(g, text, m, "repeat did not satisfy minimum occurrences"@, a, b);
            }
        },
        Frame::Terminal { kind } => {
            if fails_to(g, text, m, "terminal did not match"@, a) && fails_to(
                g,
                text,
                m,
                "terminal did not match"@,
                b,
            ) {
                lemma_fails_unique(g, text, m, "terminal did not match"@, a, b);
            }
        },
        Frame::Class { class } => {
            if fails_to(g, text, m, "character class did not match"@, a) && fails_to(
                g,
                text,
                m,
                "character class did not match"@,
                b,
            ) {
                lemma_fails_unique(g, text, m, "character class did not match"@, a, b);
            }
        },
        Frame::Missing { name } => {
            lemma_fails_unique(g, text, m, "undefined rule '"@ + name@ + "'"@, a, b);
        },
    }
}

/// The machine's step is a function: from one state it goes to at most one state.
pub proof fn lemma_step_unique(g: Grammar, text: Seq<char>, closed: bool, m: Machine, a: Machine, b: Machine)
    requires
        step_to(g, text, closed, m, a),
        step_to(g, text, closed, m, b),
    ensures
        a == b,
{
    if !m.finished && m.events.len() < EVENT_LIMIT && m.budget != 0 && m.frames.len() > 0 {
        lemma_frame_step_unique(
            g,
            text,
            closed,
            Machine { frames: m.frames.drop_last(), ..m },
            m.frames.last(),
            Machine { budget: m.budget, ..a },
            Machine { budget: m.budget, ..b },
        );
    }
}

/// Runs of equal length from one state end in one state.
proof fn lemma_runs_unique(g: Grammar, text: Seq<char>, m: Machine, n: nat, a: Machine, b: Machine)
    requires
        runs(g, text, m, n, a),
        runs(g, text, m, n, b),
    ensures
        a == b,
    decreases n,
{
    if n > 0 {
        let ma = choose|mid: Machine|
            runs(g, text, m, (n - 1) as nat, mid) && step_to(g, text, true, mid, a);
        let mb = choose|mid: Machine|
            runs(g, text, m, (n - 1) as nat, mid) && step_to(g, text, true, mid, b);
        lemma_runs_unique(g, text, m, (n - 1) as nat, ma, mb);
        lemma_step_unique(g, text, true, ma, a, b);
    }
}

/// No run goes on past a state that has ended.
proof fn lemma_runs_stop(g: Grammar, text: Seq<char>, m: Machine, n1: nat, a: Machine, n2: nat, b: Machine)
    requires
        runs(g, text, m, n1, a),
        a.finished,
        runs(g, text, m, n2, b),
    ensures
        n2 <= n1,
    decreases n2,
{
    if n2 > n1 {
        let mid = choose|mid: Machine|
            runs(g, text, m, (n2 - 1) as nat, mid) && step_to(g, text, true, mid, b);
        if n2 - 1 == n1 {
            lemma_runs_unique(g, text, m, n1, a, mid);
        } else {
            lemma_runs_stop(g, text, m, n1, a, (n2 - 1) as nat, mid);
        }
    }
}

/// Law: a run of the machine that ends gives one list of events.
pub proof fn lemma_parse_run_unique(g: Grammar, text: Seq<char>, e1: Seq<EventView>, e2: Seq<EventView>)
    requires
        parse_run(g, text, e1),
        parse_run(g, text, e2),
    ensures
        e1 == e2,
{
    let (n1, a) = choose|n: nat, m: Machine|
        runs(g, text, init_machine(g), n, m) && m.finished && m.events == e1;
    let (n2, b) = choose|n: nat, m: Machine|
        runs(g, text, init_machine(g), n, m) && m.finished && m.events == e2;
    if n1 < n2 {
        lemma_runs_stop(g, text, init_machine(g), n1, a, n2, b);
    } else if n2 < n1 {
        lemma_runs_stop(g, text, init_machine(g), n2, b, n1, a);
    } else {
        lemma_runs_unique(g, text, init_machine(g), n1, a, b);
    }
}

/// Law: the events of a parse that has ended hold no error, or one, as the last event.
pub proof fn lemma_error_is_last(g: Grammar, text: Seq<char>, events: Seq<EventView>)
    requires
        parse_run(g, text, events),
    ensures
        error_free(events) || (events.len() > 0 && error_free(events.drop_last())
            && events.last() is Error),
{
    let (n, m) = choose|n: nat, m: Machine|
        runs(g, text, init_machine(g), n, m) && m.finished && m.events == events;
    lemma_runs_well_ended(g, text, n, m);
}

/// The state in which the machine's run over the complete `text` ends.
pub open spec fn parse_end<'a>(g: Grammar, text: Seq<char>) -> Machine<'a> {
    choose|m: Machine| ends_in(g, text, m)
}

/// Some run of the machine over the complete `text` ends in `m`.
pub open spec fn ends_in(g: Grammar, text: Seq<char>, m: Machine) -> bool {
    exists|n: nat| #[trigger] runs(g, text, init_machine(g), n, m) && m.finished
}

/// Law: when a failure reaches an alternation with an alternative left, that alternative is
/// tried from where the alternation began: the cursor goes back to the alternation's mark, the
/// events produced since are dropped, and the alternation now waits on its next alternative.
pub proof fn lemma_alternative_rolls_back(
    g: Grammar,
    text: Seq<char>,
    m: Machine,
    why: Seq<char>,
    context: Option<Seq<char>>,
    position: int,
    m2: Machine,
)
    requires
        unwinds_to(g, text, m, why, context, position, m2),
        m.frames.len() > 0,
        m.frames.last() is Alt,
        0 < m.frames.last()->Alt_idx < m.frames.last()->Alt_alts@.len(),
        m.frames.last()->Alt_mark.events <= m.events.len(),
    ensures
        m2.cursor == m.frames.last()->Alt_mark.index,
        m2.events == m.events.take(m.frames.last()->Alt_mark.events as int),
        m2.frames.len() == m.frames.len() + 1,
        m2.frames[m.frames.len() - 1] == (Frame::Alt {
            alts: m.frames.last()->Alt_alts,
            idx: (m.frames.last()->Alt_idx + 1) as usize,
            mark: m.frames.last()->Alt_mark,
        }),
{
    let n = m.frames.len() - 1;
    let d = m2.frames.drop_last();
    assert(d[n] == m2.frames[n]);
}

/// Law: a run that ends, ends in `parse_end`.
pub proof fn lemma_parse_end_unique(g: Grammar, text: Seq<char>, n: nat, m: Machine)
    requires
        runs(g, text, init_machine(g), n, m),
        m.finished,
    ensures
        m == parse_end(g, text),
{
    assert(ends_in(g, text, m));
    let e = parse_end(g, text);
    let k = choose|k: nat| runs(g, text, init_machine(g), k, e) && e.finished;
    lemma_runs_stop(g, text, init_machine(g), n, m, k, e);
    lemma_runs_stop(g, text, init_machine(g), k, e, n, m);
    lemma_runs_unique(g, text, init_machine(g), n, m, e);
}

/// The events of parsing the complete `text` with `g`: those of the machine's run once it has
/// ended (every run ends: the step budget is finite).
pub open spec fn parse_events(g: Grammar, text: Seq<char>) -> Seq<EventView> {
    choose|events: Seq<EventView>| parse_run(g, text, events)
}

/// No event of `events` is an error.
pub open spec fn error_free(events: Seq<EventView>) -> bool {
    forall|i: int| 0 <= i < events.len() ==> !(#[trigger] events[i] is Error)
}

/// A running machine has produced no error; an ended one at most one, as its last event.
pub open spec fn well_ended(m: Machine) -> bool {
    &&& (!m.finished ==> error_free(m.events))
    &&& (m.finished ==> error_free(m.events) || (m.events.len() > 0 && error_free(
        m.events.drop_last(),
    ) && m.events.last() is Error))
}

proof fn lemma_error_free_push(events: Seq<EventView>, e: EventView)
    requires
        error_free(events),
    ensures
        error_free(events.push(e)) == !(e is Error),
        events.push(e).drop_last() == events,
{
    assert(events.push(e).drop_last() =~= events);
    assert(events.push(e)[events.len() as int] == e);
    if !(e is Error) {
        assert forall|i: int| 0 <= i < events.push(e).len() implies !(
        #[trigger] events.push(e)[i] is Error) by {
            if i < events.len() {
                assert(events.push(e)[i] == events[i]);
            }
        }
    }
}

proof fn lemma_unwinds_well_ended(
    g: Grammar,
    text: Seq<char>,
    m: Machine,
    why: Seq<char>,
    context: Option<Seq<char>>,
    position: int,
    m2: Machine,
)
    requires
        unwinds_to(g, text, m, why, context, position, m2),
        error_free(m.events),
        !m.finished,
    ensures
        well_ended(m2),
    decreases m.frames.len(),
{
    if m.frames.len() == 0 {
        lemma_error_free_push(m.events, error_view(why, position, context));
    } else {
        let rest = Machine { frames: m.frames.drop_last(), ..m };
        match m.frames.last() {
            Frame::Alt { alts, idx, mark } => {
                if 0 < idx < alts@.len() {
                    lemma_error_free_back(m, mark);
                } else if idx > 0 {
                    lemma_unwinds_well_ended(g, text, rest, "no alternative matched"@, context, position, m2);
                } else {
                    lemma_unwinds_well_ended(g, text, rest, why, context, position, m2);
                }
            },
            Frame::Repeat { quant, count, mark, trying, .. } => {
                if trying {
                    lemma_unwinds_well_ended(g, text, rest, why, context, position, m2);
                } else if count < quant.min {
                    lemma_unwinds_well_ended(
                        g,
                        text,
                        rest,
                        "repeat did not satisfy minimum occurrences"@,
                        context,
                        position,
                        m2,
                    );
                } else {
                    lemma_error_free_back(m, mark);
                }
            },
            _ => {
                lemma_unwinds_well_ended(g, text, rest, why, context, position, m2);
            },
        }
    }
}

proof fn lemma_error_free_back(m: Machine, mark: Mark)
    requires
        error_free(m.events),
    ensures
        error_free(back_to(m, mark).events),
{
    if mark.events <= m.events.len() {
        let t = m.events.take(mark.events as int);
        assert forall|i: int| 0 <= i < t.len() implies !(#[trigger] t[i] is Error) by {
            assert(t[i] == m.events[i]);
        }
    }
}

proof fn lemma_fails_well_ended(g: Grammar, text: Seq<char>, m: Machine, why: Seq<char>, m2: Machine)
    requires
        fails_to(g, text, m, why, m2),
        error_free(m.events),
        !m.finished,
    ensures
        well_ended(m2),
{
    lemma_unwinds_well_ended(g, text, m, why, innermost(g, m.frames), offset_of(text, m.cursor), m2);
}

proof fn lemma_token_well_ended(text: Seq<char>, m: Machine, n: int, t: TokenView)
    requires
        error_free(m.events),
        !m.finished,
    ensures
        well_ended(with_token(text, m, n, t)),
{
    lemma_error_free_push(
        m.events,
        EventView::Token(t, token_span_at(text, offset_of(text, m.cursor), offset_of(text, m.cursor + n))),
    );
}

#[verifier::rlimit(50)]
proof fn lemma_frame_step_well_ended(
    g: Grammar,
    text: Seq<char>,
    closed: bool,
    m: Machine,
    f: Frame,
    m2: Machine,
)
    requires
        frame_step(g, text, closed, m, f, m2),
        error_free(m.events),
        !m.finished,
    ensures
        well_ended(m2),
{
    match f {
        Frame::Ref { rule, stage } => {
            lemma_error_free_push(m.events, EventView::Start(g.rules@[rule as int].name@));
            lemma_error_free_push(m.events, EventView::End(g.rules@[rule as int].name@));
        },
        Frame::Alt { alts, idx, .. } => {
            if idx == 0 && alts@.len() == 0 {
                lemma_fails_well_ended(g, text, m, "no alternative matched"@, m2);
            }
        },
        Frame::Repeat { quant, count, mark, trying, .. } => {
            if !trying && !(m.cursor > mark.index) && count < quant.min {
                lemma_fails_well_ended(g, text, m, "repeat did not satisfy minimum occurrences"@, m2);
            }
        },
        Frame::Terminal { kind } => match *kind {
            TerminalKind::Char(c) => {
                if m.cursor < text.len() && text[m.cursor] == c {
                    lemma_token_well_ended(text, m, 1, TokenView::Char(c));
                } else {
                    lemma_fails_well_ended(g, text, m, "terminal did not match"@, m2);
                }
            },
            TerminalKind::Str(st) => {
                if m.cursor + st@.len() <= text.len() && text.subrange(m.cursor, m.cursor + st@.len())
                    == st@ {
                    lemma_token_well_ended(text, m, st@.len() as int, TokenView::Str(st@));
                } else {
                    lemma_fails_well_ended(g, text, m, "terminal did not match"@, m2);
                }
            },
        },
        Frame::Class { class } => {
            if m.cursor < text.len() && super::grammar::class_contains(*class, text[m.cursor]) {
                lemma_token_well_ended(text, m, 1, TokenView::Class(text[m.cursor]));
            } else {
                lemma_fails_well_ended(g, text, m, "character class did not match"@, m2);
            }
        },
        Frame::Missing { name } => {
            lemma_fails_well_ended(g, text, m, "undefined rule '"@ + name@ + "'"@, m2);
        },
        _ => {},
    }
}

proof fn lemma_step_well_ended(g: Grammar, text: Seq<char>, closed: bool, m: Machine, m2: Machine)
    requires
        step_to(g, text, closed, m, m2),
        well_ended(m),
    ensures
        well_ended(m2),
{
    if m.events.len() >= EVENT_LIMIT {
        lemma_error_free_push(
            m.events,
            EventView::Error(
                "failed to match: "@ + "event limit reached"@,
                offset_of(text, m.cursor) as usize,
                None,
                None,
                None,
            ),
        );
    } else if m.budget == 0 {
        lemma_error_free_push(
            m.events,
            EventView::Error(
                "failed to match: "@ + "step limit reached"@,
                offset_of(text, m.cursor) as usize,
                None,
                None,
                None,
            ),
        );
    } else if m.frames.len() > 0 {
        lemma_frame_step_well_ended(
            g,
            text,
            closed,
            Machine { frames: m.frames.drop_last(), ..m },
            m.frames.last(),
            Machine { budget: m.budget, ..m2 },
        );
    }
}

/// Law: in every run of the machine, no error comes while it runs, and an ended run holds at
/// most one error, as its last event.
pub proof fn lemma_runs_well_ended(g: Grammar, text: Seq<char>, n: nat, m: Machine)
    requires
        runs(g, text, init_machine(g), n, m),
    ensures
        well_ended(m),
    decreases n,
{
    if n == 0 {
        if g.rules@.len() == 0 {
            lemma_error_free_push(Seq::empty(), EventView::Error("grammar has no rules"@, 0, None, None, None));
            assert(m.events =~= Seq::<EventView>::empty().push(EventView::Error("grammar has no rules"@, 0, None, None, None)));
        }
    } else {
        let mid = choose|mid: Machine|
            runs(g, text, init_machine(g), (n - 1) as nat, mid) && step_to(g, text, true, mid, m);
        lemma_runs_well_ended(g, text, (n - 1) as nat, mid);
        lemma_step_well_ended(g, text, true, mid, m);
    }
}

/// The machine's cursor and every mark it holds lie within `text`.
pub open spec fn within(text: Seq<char>, m: Machine) -> bool {
    &&& 0 <= m.cursor <= text.len()
    &&& forall|i: int|
        0 <= i < m.frames.len() && (#[trigger] frame_mark(m.frames[i])) is Some ==> frame_mark(
            m.frames[i],
        )->0.index <= text.len()
}

proof fn lemma_offset_extend(t: Seq<char>, u: Seq<char>, c: int)
    requires
        0 <= c <= t.len(),
    ensures
        offset_of(t + u, c) == offset_of(t, c),
        offset_of(t, c) <= utf8_len(t),
{
    assert((t + u).take(c) =~= t.take(c));
    lemma_utf8_len_prefix(t, c);
}

proof fn lemma_fresh_extend(g: Grammar, t: Seq<char>, u: Seq<char>, m: Machine, p: Prod, m2: Machine)
    requires
        0 <= m.cursor <= t.len(),
        pushes_fresh(g, t, m, p, m2),
    ensures
        pushes_fresh(g, t + u, m, p, m2),
{
    lemma_offset_extend(t, u, m.cursor);
    assert(mark_at(t, m) == mark_at(t + u, m));
}

proof fn lemma_token_extend(t: Seq<char>, u: Seq<char>, m: Machine, n: int, tv: TokenView)
    requires
        0 <= m.cursor,
        0 <= n,
        m.cursor + n <= t.len(),
    ensures
        with_token(t + u, m, n, tv) == with_token(t, m, n, tv),
{
    lemma_offset_extend(t, u, m.cursor);
    lemma_offset_extend(t, u, m.cursor + n);
    super::tracker::lemma_line_column_extend(t, u, offset_of(t, m.cursor));
}

proof fn lemma_unwinds_extend(
    g: Grammar,
    t: Seq<char>,
    u: Seq<char>,
    m: Machine,
    why: Seq<char>,
    context: Option<Seq<char>>,
    position: int,
    m2: Machine,
)
    requires
        within(t, m),
        unwinds_to(g, t, m, why, context, position, m2),
    ensures
        unwinds_to(g, t + u, m, why, context, position, m2),
    decreases m.frames.len(),
{
    if m.frames.len() > 0 {
        let rest = Machine { frames: m.frames.drop_last(), ..m };
        assert(within(t, rest)) by {
            assert forall|i: int|
                0 <= i < rest.frames.len() && (#[trigger] frame_mark(rest.frames[i])) is Some implies frame_mark(
                rest.frames[i],
            )->0.index <= t.len() by {
                assert(rest.frames[i] == m.frames[i]);
            }
        }
        let last = m.frames.len() - 1;
        assert(m.frames.last() == m.frames[last]);
        match m.frames.last() {
            Frame::Alt { alts, idx, mark } => {
                if 0 < idx < alts@.len() {
                    assert(frame_mark(m.frames[last]) is Some);
                    let back = back_to(m, mark);
                    lemma_fresh_extend(
                        g,
                        t,
                        u,
                        Machine { frames: back.frames.push(Frame::Alt { alts, idx: (idx + 1) as usize, mark }), ..back },
                        alts@[idx as int],
                        m2,
                    );
                } else if idx > 0 {
                    lemma_unwinds_extend(g, t, u, rest, "no alternative matched"@, context, position, m2);
                } else {
                    lemma_unwinds_extend(g, t, u, rest, why, context, position, m2);
                }
            },
            Frame::Repeat { quant, count, mark, trying, .. } => {
                if trying {
                    lemma_unwinds_extend(g, t, u, rest, why, context, position, m2);
                } else if count < quant.min {
                    lemma_unwinds_extend(
                        g,
                        t,
                        u,
                        rest,
                        "repeat did not satisfy minimum occurrences"@,
                        context,
                        position,
                        m2,
                    );
                }
            },
            _ => {
                lemma_unwinds_extend(g, t, u, rest, why, context, position, m2);
            },
        }
    }
}

proof fn lemma_fails_extend(g: Grammar, t: Seq<char>, u: Seq<char>, m: Machine, why: Seq<char>, m2: Machine)
    requires
        within(t, m),
        fails_to(g, t, m, why, m2),
    ensures
        fails_to(g, t + u, m, why, m2),
{
    lemma_offset_extend(t, u, m.cursor);
    lemma_unwinds_extend(g, t, u, m, why, innermost(g, m.frames), offset_of(t, m.cursor), m2);
}

#[verifier::rlimit(80)]
proof fn lemma_frame_step_extend(
    g: Grammar,
    t: Seq<char>,
    u: Seq<char>,
    closed: bool,
    m: Machine,
    f: Frame,
    m2: Machine,
)
    requires
        within(t, m),
        closed ==> u.len() == 0,
        frame_step(g, t, closed, m, f, m2),
    ensures
        frame_step(g, t + u, true, m, f, m2),
{
    let tt = t + u;
    lemma_offset_extend(t, u, m.cursor);
    assert(mark_at(t, m) == mark_at(tt, m));
    if closed {
        assert(tt =~= t);
    }
    match f {
        Frame::Ref { rule, stage } => {
            if stage == RefStage::Start {
                let m1 = Machine {
                    frames: m.frames.push(Frame::Ref { rule, stage: RefStage::Parsing }),
                    events: m.events.push(EventView::Start(g.rules@[rule as int].name@)),
                    ..m
                };
                lemma_fresh_extend(g, t, u, m1, g.rules@[rule as int].production, m2);
            }
        },
        Frame::Sequence { items, idx } => {
            if idx < items@.len() {
                lemma_fresh_extend(
                    g,
                    t,
                    u,
                    Machine { frames: m.frames.push(Frame::Sequence { items, idx: (idx + 1) as usize }), ..m },
                    items@[idx as int],
                    m2,
                );
            }
        },
        Frame::Group { inner } => {
            lemma_fresh_extend(g, t, u, m, *inner, m2);
        },
        Frame::Alt { alts, idx, mark } => {
            if idx == 0 {
                if alts@.len() == 0 {
                    lemma_fails_extend(g, t, u, m, "no alternative matched"@, m2);
                } else {
                    lemma_fresh_extend(
                        g,
                        t,
                        u,
                        Machine { frames: m.frames.push(Frame::Alt { alts, idx: 1, mark: mark_at(t, m) }), ..m },
                        alts@[0],
                        m2,
                    );
                }
            }
        },
        Frame::Repeat { item, quant, count, mark, trying } => {
            if trying {
                if !(quant.max is Some && count >= quant.max->0) {
                    lemma_fresh_extend(
                        g,
                        t,
                        u,
                        Machine {
                            frames: m.frames.push(
                                Frame::Repeat { item, quant, count, mark: mark_at(t, m), trying: false },
                            ),
                            ..m
                        },
                        *item,
                        m2,
                    );
                }
            } else if !(m.cursor > mark.index) && count < quant.min {
                lemma_fails_extend(g, t, u, m, "repeat did not satisfy minimum occurrences"@, m2);
            }
        },
        Frame::Terminal { kind } => match *kind {
            TerminalKind::Char(c) => {
                if m.cursor < t.len() {
                    assert(tt[m.cursor] == t[m.cursor]);
                    if t[m.cursor] == c {
                        lemma_token_extend(t, u, m, 1, TokenView::Char(c));
                    } else {
                        lemma_fails_extend(g, t, u, m, "terminal did not match"@, m2);
                    }
                } else {
                    lemma_fails_extend(g, t, u, m, "terminal did not match"@, m2);
                }
            },
            TerminalKind::Str(st) => {
                if m.cursor + st@.len() <= t.len() {
                    assert(tt.subrange(m.cursor, m.cursor + st@.len()) =~= t.subrange(
                        m.cursor,
                        m.cursor + st@.len(),
                    ));
                    if t.subrange(m.cursor, m.cursor + st@.len()) == st@ {
                        lemma_token_extend(t, u, m, st@.len() as int, TokenView::Str(st@));
                    } else {
                        lemma_fails_extend(g, t, u, m, "terminal did not match"@, m2);
                    }
                } else {
                    lemma_fails_extend(g, t, u, m, "terminal did not match"@, m2);
                }
            },
        },
        Frame::Class { class } => {
            if m.cursor < t.len() {
                assert(tt[m.cursor] == t[m.cursor]);
                if super::grammar::class_contains(*class, t[m.cursor]) {
                    lemma_token_extend(t, u, m, 1, TokenView::Class(t[m.cursor]));
                } else {
                    lemma_fails_extend(g, t, u, m, "character class did not match"@, m2);
                }
            } else {
                lemma_fails_extend(g, t, u, m, "character class did not match"@, m2);
            }
        },
        Frame::Missing { name } => {
            lemma_fails_extend(g, t, u, m, "undefined rule '"@ + name@ + "'"@, m2);
        },
    }
}

/// A step taken over the input seen so far is also a step over any longer input (over just
/// that input once it is complete).
pub proof fn lemma_step_extend(g: Grammar, t: Seq<char>, u: Seq<char>, closed: bool, m: Machine, m2: Machine)
    requires
        within(t, m),
        closed ==> u.len() == 0,
        step_to(g, t, closed, m, m2),
    ensures
        step_to(g, t + u, true, m, m2),
{
    lemma_offset_extend(t, u, m.cursor);
    if !m.finished && m.events.len() < EVENT_LIMIT && m.budget != 0 && m.frames.len() > 0 {
        let p = Machine { frames: m.frames.drop_last(), ..m };
        assert(within(t, p)) by {
            assert forall|i: int|
                0 <= i < p.frames.len() && (#[trigger] frame_mark(p.frames[i])) is Some implies frame_mark(
                p.frames[i],
            )->0.index <= t.len() by {
                assert(p.frames[i] == m.frames[i]);
            }
        }
        let last = m.frames.len() - 1;
        assert(m.frames.last() == m.frames[last]);
        lemma_frame_step_extend(g, t, u, closed, p, m.frames.last(), Machine { budget: m.budget, ..m2 });
    }
}

/// The first `k` events are settled: every mark lies at or past them, so no failure undoes them.
pub open spec fn settled(m: Machine, k: int) -> bool {
    &&& 0 <= k <= m.events.len()
    &&& m.events.len() <= EVENT_LIMIT + 1
    &&& (!m.finished ==> m.events.len() <= EVENT_LIMIT)
    &&& forall|i: int|
        0 <= i < m.frames.len() && (#[trigger] frame_mark(m.frames[i])) is Some ==> k
            <= frame_mark(m.frames[i])->0.events
}

/// `events` begin every list of events that a run ending over `text` (followed by whatever
/// may still come unless the input is complete) produces.
pub open spec fn settled_prefix(g: Grammar, text: Seq<char>, closed: bool, events: Seq<EventView>) -> bool {
    forall|u: Seq<char>, n: nat, m: Machine|
        (closed ==> u.len() == 0) && #[trigger] runs(g, text + u, init_machine(g), n, m) && m.finished
            ==> events.len() <= m.events.len() && m.events.take(events.len() as int) == events
}

proof fn lemma_settled_pop(m: Machine, k: int)
    requires
        settled(m, k),
        m.frames.len() > 0,
    ensures
        settled(Machine { frames: m.frames.drop_last(), ..m }, k),
        frame_mark(m.frames.last()) is Some ==> k <= frame_mark(m.frames.last())->0.events,
{
    let last = m.frames.len() - 1;
    assert(m.frames.last() == m.frames[last]);
    let d = m.frames.drop_last();
    assert forall|i: int| 0 <= i < d.len() && (#[trigger] frame_mark(d[i])) is Some implies k
        <= frame_mark(d[i])->0.events by {
        assert(d[i] == m.frames[i]);
    }
}

proof fn lemma_settled_push(m: Machine, f: Frame, k: int)
    requires
        settled(m, k),
        frame_mark(f) is Some ==> k <= frame_mark(f)->0.events,
    ensures
        settled(Machine { frames: m.frames.push(f), ..m }, k),
{
    let n = m.frames.push(f);
    assert forall|i: int| 0 <= i < n.len() && (#[trigger] frame_mark(n[i])) is Some implies k
        <= frame_mark(n[i])->0.events by {
        if i < m.frames.len() {
            assert(n[i] == m.frames[i]);
        }
    }
}

proof fn lemma_settled_events(m: Machine, e: Seq<EventView>, k: int)
    requires
        settled(m, k),
        e.len() <= EVENT_LIMIT,
        e.len() >= k,
        e.take(k) == m.events.take(k),
    ensures
        settled(Machine { events: e, ..m }, k),
{
}

proof fn lemma_settled_fresh(g: Grammar, t: Seq<char>, m: Machine, p: Prod, m2: Machine, k: int)
    requires
        settled(m, k),
        pushes_fresh(g, t, m, p, m2),
        m.events.len() <= EVENT_LIMIT,
        !m.finished,
    ensures
        settled(m2, k),
        m2.events == m.events,
{
    lemma_settled_push(m, m2.frames.last(), k);
    assert(m2.frames =~= m.frames.push(m2.frames.last()));
}

proof fn lemma_unwinds_settled(
    g: Grammar,
    t: Seq<char>,
    m: Machine,
    why: Seq<char>,
    context: Option<Seq<char>>,
    position: int,
    m2: Machine,
    k: int,
)
    requires
        unwinds_to(g, t, m, why, context, position, m2),
        settled(m, k),
        m.events.len() < EVENT_LIMIT,
        !m.finished,
    ensures
        settled(m2, k),
        m2.events.take(k) == m.events.take(k),
    decreases m.frames.len(),
{
    if m.frames.len() == 0 {
        let e = m.events.push(error_view(why, position, context));
        assert(e.take(k) =~= m.events.take(k));
    } else {
        let rest = Machine { frames: m.frames.drop_last(), ..m };
        lemma_settled_pop(m, k);
        match m.frames.last() {
            Frame::Alt { alts, idx, mark } => {
                if 0 < idx < alts@.len() {
                    let back = back_to(m, mark);
                    if mark.events <= m.events.len() {
                        assert(back.events.take(k) =~= m.events.take(k));
                    }
                    lemma_settled_events(rest, back.events, k);
                    assert(back == Machine { events: back.events, cursor: mark.index as int, ..rest });
                    let b2 = Machine {
                        frames: back.frames.push(Frame::Alt { alts, idx: (idx + 1) as usize, mark }),
                        ..back
                    };
                    lemma_settled_push(back, Frame::Alt { alts, idx: (idx + 1) as usize, mark }, k);
                    lemma_settled_fresh(g, t, b2, alts@[idx as int], m2, k);
                } else if idx > 0 {
                    lemma_unwinds_settled(g, t, rest, "no alternative matched"@, context, position, m2, k);
                } else {
                    lemma_unwinds_settled(g, t, rest, why, context, position, m2, k);
                }
            },
            Frame::Repeat { quant, count, mark, trying, .. } => {
                if trying {
                    lemma_unwinds_settled(g, t, rest, why, context, position, m2, k);
                } else if count < quant.min {
                    lemma_unwinds_settled(
                        g,
                        t,
                        rest,
                        "repeat did not satisfy minimum occurrences"@,
                        context,
                        position,
                        m2,
                        k,
                    );
                } else {
                    let back = back_to(m, mark);
                    if mark.events <= m.events.len() {
                        assert(back.events.take(k) =~= m.events.take(k));
                    }
                    lemma_settled_events(rest, back.events, k);
                    assert(back == Machine { events: back.events, cursor: mark.index as int, ..rest });
                }
            },
            _ => {
                lemma_unwinds_settled(g, t, rest, why, context, position, m2, k);
            },
        }
    }
}

proof fn lemma_fails_settled(g: Grammar, t: Seq<char>, m: Machine, why: Seq<char>, m2: Machine, k: int)
    requires
        fails_to(g, t, m, why, m2),
        settled(m, k),
        m.events.len() < EVENT_LIMIT,
        !m.finished,
    ensures
        settled(m2, k),
        m2.events.take(k) == m.events.take(k),
{
    lemma_unwinds_settled(g, t, m, why, innermost(g, m.frames), offset_of(t, m.cursor), m2, k);
}

proof fn lemma_push_settled(m: Machine, e: EventView, k: int)
    requires
        settled(m, k),
        m.events.len() < EVENT_LIMIT,
    ensures
        settled(Machine { events: m.events.push(e), ..m }, k),
        m.events.push(e).take(k) == m.events.take(k),
{
    assert(m.events.push(e).take(k) =~= m.events.take(k));
}

proof fn lemma_token_settled(t: Seq<char>, m: Machine, n: int, tv: TokenView, k: int)
    requires
        settled(m, k),
        m.events.len() < EVENT_LIMIT,
    ensures
        settled(with_token(t, m, n, tv), k),
        with_token(t, m, n, tv).events.take(k) == m.events.take(k),
{
    let ev = EventView::Token(tv, token_span_at(t, offset_of(t, m.cursor), offset_of(t, m.cursor + n)));
    lemma_push_settled(m, ev, k);
}

#[verifier::rlimit(80)]
proof fn lemma_frame_step_settled(
    g: Grammar,
    t: Seq<char>,
    closed: bool,
    m: Machine,
    f: Frame,
    m2: Machine,
    k: int,
)
    requires
        frame_step(g, t, closed, m, f, m2),
        settled(m, k),
        frame_mark(f) is Some ==> k <= frame_mark(f)->0.events,
        m.events.len() < EVENT_LIMIT,
        !m.finished,
    ensures
        settled(m2, k),
        m2.events.take(k) == m.events.take(k),
{
    let mk = mark_at(t, m);
    match f {
        Frame::Ref { rule, stage } => {
            if stage == RefStage::Start {
                let e = EventView::Start(g.rules@[rule as int].name@);
                lemma_push_settled(m, e, k);
                let m0 = Machine { events: m.events.push(e), ..m };
                lemma_settled_push(m0, Frame::Ref { rule, stage: RefStage::Parsing }, k);
                let m1 = Machine {
                    frames: m.frames.push(Frame::Ref { rule, stage: RefStage::Parsing }),
                    events: m.events.push(e),
                    ..m
                };
                lemma_settled_fresh(g, t, m1, g.rules@[rule as int].production, m2, k);
            } else if stage == RefStage::Parsing {
                lemma_settled_push(m, Frame::Ref { rule, stage: RefStage::End }, k);
            } else {
                lemma_push_settled(m, EventView::End(g.rules@[rule as int].name@), k);
            }
        },
        Frame::Sequence { items, idx } => {
            if idx < items@.len() {
                let s1 = Frame::Sequence { items, idx: (idx + 1) as usize };
                lemma_settled_push(m, s1, k);
                lemma_settled_fresh(g, t, Machine { frames: m.frames.push(s1), ..m }, items@[idx as int], m2, k);
            }
        },
        Frame::Group { inner } => {
            lemma_settled_fresh(g, t, m, *inner, m2, k);
        },
        Frame::Alt { alts, idx, mark } => {
            if idx == 0 {
                if alts@.len() == 0 {
                    lemma_fails_settled(g, t, m, "no alternative matched"@, m2, k);
                } else {
                    let a1 = Frame::Alt { alts, idx: 1, mark: mk };
                    lemma_settled_push(m, a1, k);
                    lemma_settled_fresh(g, t, Machine { frames: m.frames.push(a1), ..m }, alts@[0], m2, k);
                }
            }
        },
        Frame::Repeat { item, quant, count, mark, trying } => {
            if trying {
                if !(quant.max is Some && count >= quant.max->0) {
                    let r1 = Frame::Repeat { item, quant, count, mark: mk, trying: false };
                    lemma_settled_push(m, r1, k);
                    lemma_settled_fresh(g, t, Machine { frames: m.frames.push(r1), ..m }, *item, m2, k);
                }
            } else if m.cursor > mark.index {
                lemma_settled_push(
                    m,
                    Frame::Repeat { item, quant, count: (count + 1) as usize, mark: mk, trying: true },
                    k,
                );
            } else if count < quant.min {
                lemma_fails_settled(g, t, m, "repeat did not satisfy minimum occurrences"@, m2, k);
            }
        },
        Frame::Terminal { kind } => match *kind {
            TerminalKind::Char(c) => {
                if m.cursor < t.len() && t[m.cursor] == c {
                    lemma_push_settled(m, with_token(t, m, 1, TokenView::Char(c)).events.last(), k);
                    assert(with_token(t, m, 1, TokenView::Char(c)).events =~= m.events.push(
                        with_token(t, m, 1, TokenView::Char(c)).events.last(),
                    ));
                } else {
                    lemma_fails_settled(g, t, m, "terminal did not match"@, m2, k);
                }
            },
            TerminalKind::Str(st) => {
                let n = st@.len() as int;
                if m.cursor + n <= t.len() && t.subrange(m.cursor, m.cursor + n) == st@ {
                    lemma_push_settled(m, with_token(t, m, n, TokenView::Str(st@)).events.last(), k);
                    assert(with_token(t, m, n, TokenView::Str(st@)).events =~= m.events.push(
                        with_token(t, m, n, TokenView::Str(st@)).events.last(),
                    ));
                } else {
                    lemma_fails_settled(g, t, m, "terminal did not match"@, m2, k);
                }
            },
        },
        Frame::Class { class } => {
            if m.cursor < t.len() && super::grammar::class_contains(*class, t[m.cursor]) {
                lemma_token_settled(t, m, 1, TokenView::Class(t[m.cursor]), k);
            } else {
                lemma_fails_settled(g, t, m, "character class did not match"@, m2, k);
            }
        },
        Frame::Missing { name } => {
            lemma_fails_settled(g, t, m, "undefined rule '"@ + name@ + "'"@, m2, k);
        },
    }
}

proof fn lemma_step_settled(g: Grammar, t: Seq<char>, closed: bool, m: Machine, m2: Machine, k: int)
    requires
        step_to(g, t, closed, m, m2),
        settled(m, k),
    ensures
        settled(m2, k),
        m2.events.take(k) == m.events.take(k),
{
    if m.events.len() >= EVENT_LIMIT || m.budget == 0 {
        assert(m2.events =~= m.events.push(m2.events.last()));
        assert(m2.events.take(k) =~= m.events.take(k));
        assert(m2.frames.len() == 0);
    } else if m.frames.len() > 0 {
        let p = Machine { frames: m.frames.drop_last(), ..m };
        lemma_settled_pop(m, k);
        let last = m.frames.len() - 1;
        assert(m.frames.last() == m.frames[last]);
        lemma_frame_step_settled(g, t, closed, p, m.frames.last(), Machine { budget: m.budget, ..m2 }, k);
    }
}

/// Every state a run reaches from a state with settled events keeps them.
proof fn lemma_runs_settled(g: Grammar, t: Seq<char>, s: nat, cur: Machine, n: nat, m: Machine, k: int)
    requires
        runs(g, t, init_machine(g), s, cur),
        settled(cur, k),
        runs(g, t, init_machine(g), n, m),
        n >= s,
    ensures
        settled(m, k),
        m.events.take(k) == cur.events.take(k),
    decreases n,
{
    if n == s {
        lemma_runs_unique(g, t, init_machine(g), n, cur, m);
    } else {
        let mid = choose|mid: Machine|
            runs(g, t, init_machine(g), (n - 1) as nat, mid) && step_to(g, t, true, mid, m);
        lemma_runs_settled(g, t, s, cur, (n - 1) as nat, mid, k);
        lemma_step_settled(g, t, true, mid, m, k);
    }
}

/// `p` is `q` or occurs within one of its parts.
pub open spec fn occurs(p: Prod, q: Prod) -> bool
    decreases q,
{
    p == q || match q {
        Prod::Sequence(items) => exists|i: int|
            0 <= i < items@.len() && occurs(p, #[trigger] items@[i]),
        Prod::Alt(items) => exists|i: int| 0 <= i < items@.len() && occurs(p, #[trigger] items@[i]),
        Prod::Group(inner) => occurs(p, *inner),
        Prod::Repeat { item, .. } => occurs(p, *item),
        _ => false,
    }
}

/// `p` occurs in the production of some rule of `g`.
pub open spec fn in_grammar(g: Grammar, p: Prod) -> bool {
    exists|r: int| 0 <= r < g.rules@.len() && #[trigger] occurs(p, g.rules@[r].production)
}

/// No string literal of `g` is empty.
pub open spec fn no_empty_literal(g: Grammar) -> bool {
    forall|p: Prod|
        #[trigger] in_grammar(g, p) && p is Terminal && p->Terminal_kind is Str
            ==> p->Terminal_kind->Str_0@.len() > 0
}

/// `c` is a direct part of `p`.
pub open spec fn part_of(c: Prod, p: Prod) -> bool {
    match p {
        Prod::Sequence(items) => items@.contains(c),
        Prod::Alt(items) => items@.contains(c),
        Prod::Group(inner) => *inner == c,
        Prod::Repeat { item, .. } => *item == c,
        _ => false,
    }
}

/// A rule with the name exists, so the first such rule is one of the grammar's.
proof fn lemma_first_exists(g: Grammar, name: Seq<char>, j: int)
    requires
        0 <= j < g.rules@.len(),
        g.rules@[j].name@ == name,
    ensures
        super::grammar::first_rule_index(g, name) is Some,
        0 <= super::grammar::first_rule_index(g, name)->0 < g.rules@.len(),
    decreases j,
{
    if exists|k: int| 0 <= k < j && g.rules@[k].name@ == name {
        let k = choose|k: int| 0 <= k < j && g.rules@[k].name@ == name;
        lemma_first_exists(g, name, k);
    } else {
        super::grammar::lemma_first_rule_index(g, name, j);
    }
}

proof fn lemma_part_items(items: Vec<Prod>, i: int)
    requires
        0 <= i < items@.len(),
    ensures
        part_of(items@[i], Prod::Sequence(items)),
        part_of(items@[i], Prod::Alt(items)),
{
    assert(items@.contains(items@[i]));
}

proof fn lemma_occurs_part(c: Prod, p: Prod, q: Prod)
    requires
        occurs(p, q),
        part_of(c, p),
    ensures
        occurs(c, q),
    decreases q,
{
    if p == q {
        match q {
            Prod::Sequence(items) => {
                let i = choose|i: int| 0 <= i < items@.len() && items@[i] == c;
                assert(occurs(c, items@[i]));
            },
            Prod::Alt(items) => {
                let i = choose|i: int| 0 <= i < items@.len() && items@[i] == c;
                assert(occurs(c, items@[i]));
            },
            Prod::Group(inner) => {
                assert(occurs(c, *inner));
            },
            Prod::Repeat { item, .. } => {
                assert(occurs(c, *item));
            },
            _ => {},
        }
    } else {
        match q {
            Prod::Sequence(items) => {
                let i = choose|i: int| 0 <= i < items@.len() && occurs(p, #[trigger] items@[i]);
                lemma_occurs_part(c, p, items@[i]);
            },
            Prod::Alt(items) => {
                let i = choose|i: int| 0 <= i < items@.len() && occurs(p, #[trigger] items@[i]);
                lemma_occurs_part(c, p, items@[i]);
            },
            Prod::Group(inner) => {
                lemma_occurs_part(c, p, *inner);
            },
            Prod::Repeat { item, .. } => {
                lemma_occurs_part(c, p, *item);
            },
            _ => {},
        }
    }
}

proof fn lemma_in_grammar_part(g: Grammar, c: Prod, p: Prod)
    requires
        in_grammar(g, p),
        part_of(c, p),
    ensures
        in_grammar(g, c),
{
    let r = choose|r: int| 0 <= r < g.rules@.len() && #[trigger] occurs(p, g.rules@[r].production);
    lemma_occurs_part(c, p, g.rules@[r].production);
}

/// Frame `f` comes from the grammar: what it works through occurs in a rule of `g`.
pub open spec fn frame_src(g: Grammar, f: Frame) -> bool {
    match f {
        Frame::Sequence { items, .. } => in_grammar(g, Prod::Sequence(*items)),
        Frame::Alt { alts, .. } => in_grammar(g, Prod::Alt(*alts)),
        Frame::Group { inner } => in_grammar(g, *inner),
        Frame::Repeat { item, .. } => in_grammar(g, *item),
        Frame::Terminal { kind } => exists|sp: Option<Span>|
            #[trigger] in_grammar(g, Prod::Terminal { kind: *kind, span: sp }),
        Frame::Ref { rule, .. } => rule < g.rules@.len(),
        _ => true,
    }
}

/// Every token among `events` has a non-empty span within the first `utf8_len(text)` bytes.
pub open spec fn tokens_spanned(text: Seq<char>, events: Seq<EventView>) -> bool {
    forall|i: int|
        0 <= i < events.len() && (#[trigger] events[i]) is Token ==> events[i]->Token_1.start
            < events[i]->Token_1.end && events[i]->Token_1.end <= utf8_len(text)
}

/// The machine's frames come from the grammar, its tokens are well spanned, and its cursor is
/// not negative.
pub open spec fn sound(g: Grammar, text: Seq<char>, m: Machine) -> bool {
    &&& forall|i: int| 0 <= i < m.frames.len() ==> frame_src(g, #[trigger] m.frames[i])
    &&& tokens_spanned(text, m.events)
    &&& 0 <= m.cursor
}

proof fn lemma_sound_pop(g: Grammar, text: Seq<char>, m: Machine)
    requires
        sound(g, text, m),
        m.frames.len() > 0,
    ensures
        sound(g, text, Machine { frames: m.frames.drop_last(), ..m }),
        frame_src(g, m.frames.last()),
{
    let last = m.frames.len() - 1;
    assert(m.frames.last() == m.frames[last]);
    let d = m.frames.drop_last();
    assert forall|i: int| 0 <= i < d.len() implies frame_src(g, #[trigger] d[i]) by {
        assert(d[i] == m.frames[i]);
    }
}

proof fn lemma_sound_push(g: Grammar, text: Seq<char>, m: Machine, f: Frame)
    requires
        sound(g, text, m),
        frame_src(g, f),
    ensures
        sound(g, text, Machine { frames: m.frames.push(f), ..m }),
{
    let n = m.frames.push(f);
    assert forall|i: int| 0 <= i < n.len() implies frame_src(g, #[trigger] n[i]) by {
        if i < m.frames.len() {
            assert(n[i] == m.frames[i]);
        }
    }
}

proof fn lemma_sound_fresh(g: Grammar, text: Seq<char>, m: Machine, p: Prod, m2: Machine)
    requires
        sound(g, text, m),
        in_grammar(g, p),
        pushes_fresh(g, text, m, p, m2),
    ensures
        sound(g, text, m2),
{
    let f = m2.frames.last();
    match p {
        Prod::Sequence(items) => {
            assert(*f->Sequence_items == items);
            assert(Prod::Sequence(*f->Sequence_items) == p);
        },
        Prod::Alt(items) => {
            assert(*f->Alt_alts == items);
            assert(Prod::Alt(*f->Alt_alts) == p);
        },
        Prod::Group(inner) => {
            lemma_in_grammar_part(g, *inner, p);
        },
        Prod::Repeat { item, .. } => {
            lemma_in_grammar_part(g, *item, p);
        },
        Prod::Terminal { kind, span } => {
            assert(*f->Terminal_kind == kind);
            assert(Prod::Terminal { kind: *f->Terminal_kind, span } == p);
            assert(in_grammar(g, Prod::Terminal { kind: *f->Terminal_kind, span }));
        },
        Prod::Ref { name, .. } => {
            if super::grammar::first_rule_index(g, name@) is Some {
                let j = choose|j: int| 0 <= j < g.rules@.len() && g.rules@[j].name@ == name@;
                lemma_first_exists(g, name@, j);
                assert(frame_src(g, f));
            } else {
                assert(frame_src(g, f));
            }
        },
        _ => {
            assert(frame_src(g, f));
        },
    }
    assert(frame_src(g, f));
    lemma_sound_push(g, text, m, f);
    assert(m2.frames =~= m.frames.push(f));
}

proof fn lemma_rule_in_grammar(g: Grammar, r: int)
    requires
        0 <= r < g.rules@.len(),
    ensures
        in_grammar(g, g.rules@[r].production),
{
    assert(occurs(g.rules@[r].production, g.rules@[r].production));
}

proof fn lemma_tokens_take(text: Seq<char>, events: Seq<EventView>, k: int)
    requires
        tokens_spanned(text, events),
    ensures
        tokens_spanned(text, if 0 <= k <= events.len() { events.take(k) } else { events }),
{
    if 0 <= k <= events.len() {
        let t = events.take(k);
        assert forall|i: int| 0 <= i < t.len() && (#[trigger] t[i]) is Token implies t[i]->Token_1.start
            < t[i]->Token_1.end && t[i]->Token_1.end <= utf8_len(text) by {
            assert(t[i] == events[i]);
        }
    }
}

proof fn lemma_tokens_push(text: Seq<char>, events: Seq<EventView>, e: EventView)
    requires
        tokens_spanned(text, events),
        e is Token ==> e->Token_1.start < e->Token_1.end && e->Token_1.end <= utf8_len(text),
    ensures
        tokens_spanned(text, events.push(e)),
{
    let n = events.push(e);
    assert forall|i: int| 0 <= i < n.len() && (#[trigger] n[i]) is Token implies n[i]->Token_1.start
        < n[i]->Token_1.end && n[i]->Token_1.end <= utf8_len(text) by {
        if i < events.len() {
            assert(n[i] == events[i]);
        }
    }
}

proof fn lemma_sound_token(g: Grammar, text: Seq<char>, m: Machine, n: int, tv: TokenView)
    requires
        sound(g, text, m),
        0 < n,
        m.cursor + n <= text.len(),
        utf8_len(text) <= usize::MAX,
    ensures
        sound(g, text, with_token(text, m, n, tv)),
{
    let c = m.cursor;
    let a = text.take(c);
    let b = text.take(c + n);
    assert(b =~= a + b.skip(c));
    lemma_utf8_len_concat(a, b.skip(c));
    lemma_utf8_len_at_least(b.skip(c));
    lemma_utf8_len_prefix(text, c + n);
    let sp = token_span_at(text, offset_of(text, c), offset_of(text, c + n));
    lemma_tokens_push(text, m.events, EventView::Token(tv, sp));
}

proof fn lemma_unwinds_sound(
    g: Grammar,
    text: Seq<char>,
    m: Machine,
    why: Seq<char>,
    context: Option<Seq<char>>,
    position: int,
    m2: Machine,
)
    requires
        unwinds_to(g, text, m, why, context, position, m2),
        sound(g, text, m),
    ensures
        sound(g, text, m2),
    decreases m.frames.len(),
{
    if m.frames.len() == 0 {
        lemma_tokens_push(text, m.events, error_view(why, position, context));
    } else {
        let rest = Machine { frames: m.frames.drop_last(), ..m };
        lemma_sound_pop(g, text, m);
        match m.frames.last() {
            Frame::Alt { alts, idx, mark } => {
                if 0 < idx < alts@.len() {
                    let back = back_to(m, mark);
                    lemma_tokens_take(text, m.events, mark.events as int);
                    assert(sound(g, text, back));
                    let a1 = Frame::Alt { alts, idx: (idx + 1) as usize, mark };
                    lemma_sound_push(g, text, back, a1);
                    lemma_part_items(*alts, idx as int);
                    lemma_in_grammar_part(g, alts@[idx as int], Prod::Alt(*alts));
                    lemma_sound_fresh(g, text, Machine { frames: back.frames.push(a1), ..back }, alts@[idx as int], m2);
                } else if idx > 0 {
                    lemma_unwinds_sound(g, text, rest, "no alternative matched"@, context, position, m2);
                } else {
                    lemma_unwinds_sound(g, text, rest, why, context, position, m2);
                }
            },
            Frame::Repeat { quant, count, mark, trying, .. } => {
                if trying {
                    lemma_unwinds_sound(g, text, rest, why, context, position, m2);
                } else if count < quant.min {
                    lemma_unwinds_sound(
                        g,
                        text,
                        rest,
                        "repeat did not satisfy minimum occurrences"@,
                        context,
                        position,
                        m2,
                    );
                } else {
                    lemma_tokens_take(text, m.events, mark.events as int);
                }
            },
            _ => {
                lemma_unwinds_sound(g, text, rest, why, context, position, m2);
            },
        }
    }
}

proof fn lemma_fails_sound(g: Grammar, text: Seq<char>, m: Machine, why: Seq<char>, m2: Machine)
    requires
        fails_to(g, text, m, why, m2),
        sound(g, text, m),
    ensures
        sound(g, text, m2),
{
    lemma_unwinds_sound(g, text, m, why, innermost(g, m.frames), offset_of(text, m.cursor), m2);
}

#[verifier::rlimit(80)]
proof fn lemma_frame_step_sound(g: Grammar, text: Seq<char>, m: Machine, f: Frame, m2: Machine)
    requires
        frame_step(g, text, true, m, f, m2),
        sound(g, text, m),
        frame_src(g, f),
        no_empty_literal(g),
        utf8_len(text) <= usize::MAX,
    ensures
        sound(g, text, m2),
{
    let mk = mark_at(text, m);
    match f {
        Frame::Ref { rule, stage } => {
            if stage == RefStage::Start {
                let e = EventView::Start(g.rules@[rule as int].name@);
                lemma_tokens_push(text, m.events, e);
                let m0 = Machine { events: m.events.push(e), ..m };
                let r1 = Frame::Ref { rule, stage: RefStage::Parsing };
                lemma_sound_push(g, text, m0, r1);
                lemma_rule_in_grammar(g, rule as int);
                lemma_sound_fresh(
                    g,
                    text,
                    Machine { frames: m.frames.push(r1), events: m.events.push(e), ..m },
                    g.rules@[rule as int].production,
                    m2,
                );
            } else if stage == RefStage::Parsing {
                lemma_sound_push(g, text, m, Frame::Ref { rule, stage: RefStage::End });
            } else {
                lemma_tokens_push(text, m.events, EventView::End(g.rules@[rule as int].name@));
            }
        },
        Frame::Sequence { items, idx } => {
            if idx < items@.len() {
                let s1 = Frame::Sequence { items, idx: (idx + 1) as usize };
                lemma_sound_push(g, text, m, s1);
                lemma_part_items(*items, idx as int);
                lemma_in_grammar_part(g, items@[idx as int], Prod::Sequence(*items));
                lemma_sound_fresh(g, text, Machine { frames: m.frames.push(s1), ..m }, items@[idx as int], m2);
            }
        },
        Frame::Group { inner } => {
            lemma_sound_fresh(g, text, m, *inner, m2);
        },
        Frame::Alt { alts, idx, mark } => {
            if idx == 0 {
                if alts@.len() == 0 {
                    lemma_fails_sound(g, text, m, "no alternative matched"@, m2);
                } else {
                    let a1 = Frame::Alt { alts, idx: 1, mark: mk };
                    lemma_sound_push(g, text, m, a1);
                    lemma_part_items(*alts, 0);
                    lemma_in_grammar_part(g, alts@[0], Prod::Alt(*alts));
                    lemma_sound_fresh(g, text, Machine { frames: m.frames.push(a1), ..m }, alts@[0], m2);
                }
            }
        },
        Frame::Repeat { item, quant, count, mark, trying } => {
            if trying {
                if !(quant.max is Some && count >= quant.max->0) {
                    let r1 = Frame::Repeat { item, quant, count, mark: mk, trying: false };
                    lemma_sound_push(g, text, m, r1);
                    lemma_sound_fresh(g, text, Machine { frames: m.frames.push(r1), ..m }, *item, m2);
                }
            } else if m.cursor > mark.index {
                lemma_sound_push(
                    g,
                    text,
                    m,
                    Frame::Repeat { item, quant, count: (count + 1) as usize, mark: mk, trying: true },
                );
            } else if count < quant.min {
                lemma_fails_sound(g, text, m, "repeat did not satisfy minimum occurrences"@, m2);
            }
        },
        Frame::Terminal { kind } => match *kind {
            TerminalKind::Char(c) => {
                if m.cursor < text.len() && text[m.cursor] == c {
                    lemma_sound_token(g, text, m, 1, TokenView::Char(c));
                } else {
                    lemma_fails_sound(g, text, m, "terminal did not match"@, m2);
                }
            },
            TerminalKind::Str(st) => {
                let n = st@.len() as int;
                if m.cursor + n <= text.len() && text.subrange(m.cursor, m.cursor + n) == st@ {
                    let sp = choose|sp: Option<Span>|
                        #[trigger] in_grammar(g, Prod::Terminal { kind: *kind, span: sp });
                    assert(in_grammar(g, Prod::Terminal { kind: *kind, span: sp }));
                    lemma_sound_token(g, text, m, n, TokenView::Str(st@));
                } else {
                    lemma_fails_sound(g, text, m, "terminal did not match"@, m2);
                }
            },
        },
        Frame::Class { class } => {
            if m.cursor < text.len() && super::grammar::class_contains(*class, text[m.cursor]) {
                lemma_sound_token(g, text, m, 1, TokenView::Class(text[m.cursor]));
            } else {
                lemma_fails_sound(g, text, m, "character class did not match"@, m2);
            }
        },
        Frame::Missing { name } => {
            lemma_fails_sound(g, text, m, "undefined rule '"@ + name@ + "'"@, m2);
        },
    }
}

proof fn lemma_step_sound(g: Grammar, text: Seq<char>, m: Machine, m2: Machine)
    requires
        step_to(g, text, true, m, m2),
        sound(g, text, m),
        no_empty_literal(g),
        utf8_len(text) <= usize::MAX,
    ensures
        sound(g, text, m2),
{
    if m.events.len() >= EVENT_LIMIT || m.budget == 0 {
        lemma_tokens_push(text, m.events, m2.events.last());
        assert(m2.events =~= m.events.push(m2.events.last()));
    } else if m.frames.len() > 0 {
        lemma_sound_pop(g, text, m);
        lemma_frame_step_sound(
            g,
            text,
            Machine { frames: m.frames.drop_last(), ..m },
            m.frames.last(),
            Machine { budget: m.budget, ..m2 },
        );
    }
}

proof fn lemma_runs_sound(g: Grammar, text: Seq<char>, n: nat, m: Machine)
    requires
        runs(g, text, init_machine(g), n, m),
        no_empty_literal(g),
        utf8_len(text) <= usize::MAX,
    ensures
        sound(g, text, m),
    decreases n,
{
    if n == 0 {
        if g.rules@.len() == 0 {
            lemma_tokens_push(text, Seq::empty(), EventView::Error("grammar has no rules"@, 0, None, None, None));
            assert(m.events =~= Seq::<EventView>::empty().push(EventView::Error("grammar has no rules"@, 0, None, None, None)));
        } else {
            assert(frame_src(g, m.frames[0]));
        }
    } else {
        let mid = choose|mid: Machine|
            runs(g, text, init_machine(g), (n - 1) as nat, mid) && step_to(g, text, true, mid, m);
        lemma_runs_sound(g, text, (n - 1) as nat, mid);
        lemma_step_sound(g, text, mid, m);
    }
}

/// Law: for a grammar without empty string literals, every token of a parse that ends has a
/// non-empty span within the input.
pub proof fn lemma_token_spans_in_input(g: Grammar, text: Seq<char>, events: Seq<EventView>)
    requires
        parse_run(g, text, events),
        no_empty_literal(g),
        utf8_len(text) <= usize::MAX,
    ensures
        tokens_spanned(text, events),
{
    let (n, m) = choose|n: nat, m: Machine|
        runs(g, text, init_machine(g), n, m) && m.finished && m.events == events;
    lemma_runs_sound(g, text, n, m);
}

/// Adding an event at the end leaves the earlier ones, and adds its payload to the text.
proof fn lemma_push_event(events: Seq<ParseEvent>, e: ParseEvent)
    ensures
        events.push(e).drop_last() == events,
        tokens_text(events.push(e)) == tokens_text(events) + match e {
            ParseEvent::Token { kind, .. } => payload(kind),
            _ => Seq::empty(),
        },
        forall|k: int| 0 <= k <= events.len() ==> #[trigger] events.push(e).take(k) == events.take(k),
        events.push(e).take(events.len() as int + 1) == events.push(e),
{
    assert(events.push(e).drop_last() =~= events);
    assert forall|k: int| 0 <= k <= events.len() implies #[trigger] events.push(e).take(k)
        == events.take(k) by {
        assert(events.push(e).take(k) =~= events.take(k));
    }
    assert(events.push(e).take(events.len() as int + 1) =~= events.push(e));
}

/// Span exactness survives adding an event whose span, if any, is the next one.
proof fn lemma_spans_push(events: Seq<ParseEvent>, e: ParseEvent)
    requires
        spans_exact(events),
        e is Token ==> e->span.start == utf8_len(tokens_text(events)) && e->span.end
            == utf8_len(tokens_text(events.push(e))),
    ensures
        spans_exact(events.push(e)),
{
    lemma_push_event(events, e);
    let n = events.push(e);
    assert forall|i: int| 0 <= i < n.len() implies match #[trigger] n[i] {
        ParseEvent::Token { span, .. } => span.start == utf8_len(tokens_text(n.take(i)))
            && span.end == utf8_len(tokens_text(n.take(i + 1))),
        _ => true,
    } by {
        if i < events.len() {
            assert(n[i] == events[i]);
        } else {
            assert(n.take(i) == events);
        }
    }
}

/// Span exactness holds of every prefix.
proof fn lemma_spans_take(events: Seq<ParseEvent>, k: int)
    requires
        spans_exact(events),
        0 <= k <= events.len(),
    ensures
        spans_exact(events.take(k)),
{
    let t = events.take(k);
    assert forall|i: int| 0 <= i < t.len() implies match #[trigger] t[i] {
        ParseEvent::Token { span, .. } => span.start == utf8_len(tokens_text(t.take(i)))
            && span.end == utf8_len(tokens_text(t.take(i + 1))),
        _ => true,
    } by {
        assert(t[i] == events[i]);
        assert(t.take(i) =~= events.take(i));
        assert(t.take(i + 1) =~= events.take(i + 1));
    }
}

/// Frames that are not `Ref` leave the open rules as they are.
proof fn lemma_open_refs_push(g: Grammar, frames: Seq<Frame>, f: Frame)
    ensures
        open_refs(g, frames.push(f)) == match f {
            Frame::Ref { rule, stage } => if stage != RefStage::Start {
                open_refs(g, frames).push(g.rules@[rule as int].name@)
            } else {
                open_refs(g, frames)
            },
            _ => open_refs(g, frames),
        },
{
    assert(frames.push(f).drop_last() =~= frames);
}

} // verus!
