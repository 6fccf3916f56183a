//! The grammar representation: rules, productions and character classes.

use vstd::prelude::*;

use super::span::Span;

verus! {

/// A literal that a terminal matches.
#[derive(Debug, Clone, PartialEq, Eq)]
pub enum TerminalKind {
    /// A single character, such as 'a'.
    Char(char),
    /// A string, such as "if".
    Str(String),
}

/// A set of characters: listed ones and inclusive ranges, possibly negated.
#[derive(Debug, Clone, PartialEq, Eq)]
pub struct CharClass {
    pub negated: bool,
    /// Characters listed one by one.
    pub chars: Vec<char>,
    /// Inclusive ranges `(lo, hi)`.
    pub ranges: Vec<(char, char)>,
    pub span: Option<Span>,
}

/// How often a repeated item may occur: at least `min`, at most `max` if given.
#[derive(Debug, Clone, PartialEq, Eq)]
pub struct RepeatQuant {
    pub min: usize,
    pub max: Option<usize>,
}

/// A production of the grammar.
#[derive(Debug, PartialEq)]
pub enum Prod {
    /// Items matched one after the other.
    Sequence(Vec<Prod>),
    /// Alternatives tried from left to right.
    Alt(Vec<Prod>),
    /// A parenthesised production; it matches what the inner one matches.
    Group(Box<Prod>),
    /// An item repeated as the quantifier allows.
    Repeat { item: Box<Prod>, quant: RepeatQuant },
    /// A literal.
    Terminal { kind: TerminalKind, span: Option<Span> },
    /// One character out of a class.
    Class(CharClass),
    /// Another rule, by name.
    Ref { name: String, span: Option<Span> },
}

/// A rule: `name = production`.
#[derive(Debug, Clone, PartialEq)]
pub struct Rule {
    pub name: String,
    pub production: Prod,
    pub span: Option<Span>,
}

/// A grammar: its rules in order; the first one is the start rule.
#[derive(Debug, Clone, PartialEq)]
pub struct Grammar {
    pub rules: Vec<Rule>,
}

impl Clone for Prod {
    fn clone(&self) -> (r: Prod) {
        copy_prod(self)
    }
}

/// A copy of a production and everything under it.
pub fn copy_prod(p: &Prod) -> (r: Prod)
    decreases p,
{
    match p {
        Prod::Sequence(items) => Prod::Sequence(copy_prods(items)),
        Prod::Alt(items) => Prod::Alt(copy_prods(items)),
        Prod::Group(inner) => Prod::Group(Box::new(copy_prod(inner))),
        Prod::Repeat { item, quant } => Prod::Repeat {
            item: Box::new(copy_prod(item)),
            quant: RepeatQuant { min: quant.min, max: quant.max },
        },
        Prod::Terminal { kind, span } => Prod::Terminal { kind: kind.clone(), span: *span },
        Prod::Class(class) => Prod::Class(class.clone()),
        Prod::Ref { name, span } => Prod::Ref { name: name.clone(), span: *span },
    }
}

/// Copies of a list of productions.
pub fn copy_prods(items: &Vec<Prod>) -> (r: Vec<Prod>)
    decreases items,
{
    let mut r: Vec<Prod> = Vec::new();
    let mut i: usize = 0;
    while i < items.len()
        invariant
            i <= items@.len(),
        decreases items@.len() - i,
    {
        proof {
            assert(decreases_to!(items => items@[i as int]));
        }
        r.push(copy_prod(&items[i]));
        i += 1;
    }
    r
}

/// Whether `c` is in the class, negation taken into account.
pub open spec fn class_contains(class: CharClass, c: char) -> bool {
    let listed = class.chars@.contains(c) || exists|i: int|
        0 <= i < class.ranges@.len() && class.ranges@[i].0 <= c && c <= class.ranges@[i].1;
    listed != class.negated
}

/// Index of the first rule called `name`, if any.
pub open spec fn first_rule_index(g: Grammar, name: Seq<char>) -> Option<int> {
    if exists|i: int| 0 <= i < g.rules@.len() && g.rules@[i].name@ == name {
        Some(choose|i: int| 0 <= i < g.rules@.len() && g.rules@[i].name@ == name
            && forall|j: int| 0 <= j < i ==> g.rules@[j].name@ != name)
    } else {
        None
    }
}

/// The first rule called `name` is the one before which no rule has that name.
pub proof fn lemma_first_rule_index(g: Grammar, name: Seq<char>, i: int)
    requires
        0 <= i < g.rules@.len(),
        g.rules@[i].name@ == name,
        forall|j: int| 0 <= j < i ==> g.rules@[j].name@ != name,
    ensures
        first_rule_index(g, name) == Some(i),
{
    let k = choose|k: int| 0 <= k < g.rules@.len() && g.rules@[k].name@ == name
        && forall|j: int| 0 <= j < k ==> g.rules@[j].name@ != name;
    assert(exists|k: int| 0 <= k < g.rules@.len() && g.rules@[k].name@ == name
        && forall|j: int| 0 <= j < k ==> g.rules@[j].name@ != name);
    if k < i {
    } else if k > i {
        assert(g.rules@[i].name@ != name);
    }
}

/// Whether some rule is called `name`.
pub open spec fn defines(g: Grammar, name: Seq<char>) -> bool {
    exists|i: int| 0 <= i < g.rules@.len() && g.rules@[i].name@ == name
}

/// Two strings hold the same characters.
pub fn same_text(a: &str, b: &str) -> (r: bool)
    ensures
        r == (a@ == b@),
{
    let n = a.unicode_len();
    let m = b.unicode_len();
    if n != m {
        return false;
    }
    let mut i: usize = 0;
    while i < n
        invariant
            n == a@.len(),
            m == b@.len(),
            n == m,
            i <= n,
            forall|k: int| 0 <= k < i ==> a@[k] == b@[k],
        decreases n - i,
    {
        if a.get_char(i) != b.get_char(i) {
            return false;
        }
        i += 1;
    }
    assert(a@ =~= b@);
    true
}

impl CharClass {
    /// Whether the class accepts `c`.
    pub fn matches(&self, c: char) -> (r: bool)
        ensures
            r == class_contains(*self, c),
    {
        let mut listed = false;
        let mut i: usize = 0;
        while i < self.chars.len()
            invariant
                i <= self.chars@.len(),
                listed == exists|k: int| 0 <= k < i && self.chars@[k] == c,
            decreases self.chars@.len() - i,
        {
            if self.chars[i] == c {
                listed = true;
            }
            i += 1;
        }
        let mut j: usize = 0;
        while j < self.ranges.len()
            invariant
                j <= self.ranges@.len(),
                listed == ((exists|k: int| 0 <= k < self.chars@.len() && self.chars@[k] == c)
                    || exists|k: int|
                    0 <= k < j && self.ranges@[k].0 <= c && c <= self.ranges@[k].1),
            decreases self.ranges@.len() - j,
        {
            let (lo, hi) = self.ranges[j];
            if lo <= c && c <= hi {
                listed = true;
            }
            j += 1;
        }
        proof {
            if self.chars@.contains(c) {
                let k = choose|k: int| 0 <= k < self.chars@.len() && self.chars@[k] == c;
            }
        }
        listed != self.negated
    }
}

impl Grammar {
    /// Index of the first rule called `name`.
    pub fn rule_index(&self, name: &str) -> (r: Option<usize>)
        ensures
            match r {
                Some(i) => i < self.rules@.len() && self.rules@[i as int].name@ == name@
                    && forall|j: int| 0 <= j < i ==> self.rules@[j].name@ != name@,
                None => !defines(*self, name@),
            },
            match r {
                Some(i) => first_rule_index(*self, name@) == Some(i as int),
                None => first_rule_index(*self, name@) is None,
            },
    {
        let mut i: usize = 0;
        while i < self.rules.len()
            invariant
                i <= self.rules@.len(),
                forall|j: int| 0 <= j < i ==> self.rules@[j].name@ != name@,
            decreases self.rules@.len() - i,
        {
            if same_text(self.rules[i].name.as_str(), name) {
                proof {
                    lemma_first_rule_index(*self, name@, i as int);
                }
                return Some(i);
            }
            i += 1;
        }
        None
    }

    /// The first rule called `name`, if any.
    pub fn get_rule(&self, name: &str) -> (r: Option<&Rule>)
        ensures
            match r {
                Some(rule) => exists|i: int|
                    0 <= i < self.rules@.len() && self.rules@[i] == *rule && rule.name@ == name@
                    && forall|j: int| 0 <= j < i ==> self.rules@[j].name@ != name@,
                None => !defines(*self, name@),
            },
    {
        match self.rule_index(name) {
            Some(i) => Some(&self.rules[i]),
            None => None,
        }
    }

    /// The start rule: the first one.
    pub fn start_rule(&self) -> (r: Option<&Rule>)
        ensures
            self.rules@.len() == 0 ==> r is None,
            self.rules@.len() > 0 ==> r == Some(&self.rules@[0]),
    {
        if self.rules.len() == 0 {
            None
        } else {
            Some(&self.rules[0])
        }
    }
}

} // verus!
