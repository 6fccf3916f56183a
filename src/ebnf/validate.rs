//! Static checks of a grammar: undefined references, left recursion, and cycles made of
//! references alone.

use vstd::prelude::*;

use super::grammar::{defines, Grammar, Prod};
use super::text::push_str;

verus! {

/// A measure of a production's size.
pub open spec fn prod_size(p: Prod) -> nat
    decreases p,
{
    match p {
        Prod::Sequence(items) => 1 + list_size(items@),
        Prod::Alt(items) => 1 + list_size(items@),
        Prod::Group(inner) => 1 + prod_size(*inner),
        Prod::Repeat { item, .. } => 1 + prod_size(*item),
        _ => 1,
    }
}

/// The sizes of a list of productions, added up.
pub open spec fn list_size(items: Seq<Prod>) -> nat
    decreases items,
{
    if items.len() == 0 {
        0
    } else {
        list_size(items.drop_last()) + prod_size(items.last())
    }
}

/// The names a production refers to, in order of appearance.
pub open spec fn prod_refs(p: Prod) -> Seq<Seq<char>>
    decreases p,
{
    match p {
        Prod::Sequence(items) => list_refs(items@),
        Prod::Alt(items) => list_refs(items@),
        Prod::Group(inner) => prod_refs(*inner),
        Prod::Repeat { item, .. } => prod_refs(*item),
        Prod::Terminal { .. } => Seq::empty(),
        Prod::Class(_) => Seq::empty(),
        Prod::Ref { name, .. } => seq![name@],
    }
}

/// The names a list of productions refers to, in order.
pub open spec fn list_refs(items: Seq<Prod>) -> Seq<Seq<char>>
    decreases items,
{
    if items.len() == 0 {
        Seq::empty()
    } else {
        list_refs(items.drop_last()) + prod_refs(items.last())
    }
}

/// Whether a terminal or a character class occurs anywhere in a production.
pub open spec fn prod_has_terminal(p: Prod) -> bool
    decreases p,
{
    match p {
        Prod::Sequence(items) => list_has_terminal(items@),
        Prod::Alt(items) => list_has_terminal(items@),
        Prod::Group(inner) => prod_has_terminal(*inner),
        Prod::Repeat { item, .. } => prod_has_terminal(*item),
        Prod::Terminal { .. } => true,
        Prod::Class(_) => true,
        Prod::Ref { .. } => false,
    }
}

/// Whether a terminal or a character class occurs in a list of productions.
pub open spec fn list_has_terminal(items: Seq<Prod>) -> bool
    decreases items,
{
    if items.len() == 0 {
        false
    } else {
        list_has_terminal(items.drop_last()) || prod_has_terminal(items.last())
    }
}

/// Error message for an undefined reference.
pub open spec fn undefined_message(name: Seq<char>) -> Seq<char> {
    "undefined rule '"@ + name + "'"@
}

/// Messages for the undefined names among `refs`, in order.
pub open spec fn undefined_in(g: Grammar, refs: Seq<Seq<char>>) -> Seq<Seq<char>>
    decreases refs.len(),
{
    if refs.len() == 0 {
        Seq::empty()
    } else {
        undefined_in(g, refs.drop_last()) + if defines(g, refs.last()) {
            Seq::empty()
        } else {
            seq![undefined_message(refs.last())]
        }
    }
}

/// Messages for the undefined references of the first `k` rules.
pub open spec fn undefined_errors(g: Grammar, k: int) -> Seq<Seq<char>>
    decreases k,
{
    if k <= 0 {
        Seq::empty()
    } else {
        undefined_errors(g, k - 1) + undefined_in(g, prod_refs(g.rules@[k - 1].production))
    }
}

/// Names joined with " -> ".
pub open spec fn join_path(names: Seq<Seq<char>>) -> Seq<char>
    decreases names.len(),
{
    if names.len() == 0 {
        Seq::empty()
    } else if names.len() == 1 {
        names[0]
    } else {
        join_path(names.drop_last()) + " -> "@ + names.last()
    }
}

} // verus!

verus! {

/// Room left on a path of rules: it never holds more entries than the grammar has rules.
pub open spec fn room(g: Grammar, path: Seq<int>) -> int {
    g.rules@.len() - path.len()
}

/// Follows leftmost derivations from `p` with `path` the rules entered so far; the path up to
/// a rule entered twice, if there is one.
pub open spec fn left_rec_prod(g: Grammar, p: Prod, path: Seq<int>) -> Option<Seq<int>>
    decreases room(g, path), p,
{
    match p {
        Prod::Sequence(items) => if items@.len() > 0 {
            left_rec_prod(g, items@[0], path)
        } else {
            None
        },
        Prod::Alt(items) => left_rec_list(g, items@, path),
        Prod::Group(inner) => left_rec_prod(g, *inner, path),
        Prod::Repeat { item, quant } => if quant.min == 0 {
            None
        } else {
            left_rec_prod(g, *item, path)
        },
        Prod::Terminal { .. } => None,
        Prod::Class(_) => None,
        Prod::Ref { name, .. } => match super::grammar::first_rule_index(g, name@) {
            None => None,
            Some(i) => if path.contains(i) {
                Some(path.push(i))
            } else if room(g, path) <= 0 {
                None
            } else {
                left_rec_prod(g, g.rules@[i].production, path.push(i))
            },
        },
    }
}

/// The first alternative, in order, that leads back into the path.
pub open spec fn left_rec_list(g: Grammar, items: Seq<Prod>, path: Seq<int>) -> Option<Seq<int>>
    decreases room(g, path), items,
{
    if items.len() == 0 {
        None
    } else {
        match left_rec_prod(g, items[0], path) {
            Some(found) => Some(found),
            None => left_rec_list(g, items.subrange(1, items.len() as int), path),
        }
    }
}

/// The path of a left recursion starting at rule `i`, if there is one.
pub open spec fn left_rec_rule(g: Grammar, i: int) -> Option<Seq<int>> {
    left_rec_prod(g, g.rules@[i].production, seq![i])
}

/// The names of the rules on a path.
pub open spec fn path_names(g: Grammar, path: Seq<int>) -> Seq<Seq<char>> {
    path.map_values(|k: int| g.rules@[k].name@)
}

/// Error message for a left recursion along `path`.
pub open spec fn left_rec_message(g: Grammar, path: Seq<int>) -> Seq<char> {
    "left recursion detected: "@ + join_path(path_names(g, path))
}

/// Messages for left recursion from each of the first `k` rules.
pub open spec fn left_rec_errors(g: Grammar, k: int) -> Seq<Seq<char>>
    decreases k,
{
    if k <= 0 {
        Seq::empty()
    } else {
        left_rec_errors(g, k - 1) + match left_rec_rule(g, k - 1) {
            Some(path) => seq![left_rec_message(g, path)],
            None => Seq::empty(),
        }
    }
}

/// No rule on the path holds a terminal or a character class.
pub open spec fn pure_path(g: Grammar, path: Seq<int>) -> bool {
    forall|k: int| 0 <= k < path.len() ==> !prod_has_terminal(#[trigger] g.rules@[path[k]].production)
}

/// Depth-first search for a cycle of references through the rule called `name`, with `path`
/// the rules being visited and `done` those fully explored: the cycle found, if it is made of
/// references alone, and the explored rules afterwards.
pub open spec fn cycle_rule(g: Grammar, name: Seq<char>, path: Seq<int>, done: Set<int>) -> (
    Option<Seq<int>>,
    Set<int>,
)
    decreases room(g, path), 0nat,
{
    match super::grammar::first_rule_index(g, name) {
        None => (None, done),
        Some(i) => if done.contains(i) {
            (None, done)
        } else if path.contains(i) {
            if pure_path(g, path) {
                (Some(path.push(i)), done)
            } else {
                (None, done)
            }
        } else if room(g, path) <= 0 {
            (None, done)
        } else {
            let (found, after) = cycle_list(g, prod_refs(g.rules@[i].production), path.push(i), done);
            if found is Some {
                (found, after)
            } else {
                (None, after.insert(i))
            }
        },
    }
}

/// The search over each name in `refs` in turn, up to the first cycle found.
pub open spec fn cycle_list(g: Grammar, refs: Seq<Seq<char>>, path: Seq<int>, done: Set<int>) -> (
    Option<Seq<int>>,
    Set<int>,
)
    decreases room(g, path), refs.len() + 1,
{
    if refs.len() == 0 {
        (None, done)
    } else {
        let (found, after) = cycle_rule(g, refs[0], path, done);
        if found is Some {
            (found, after)
        } else {
            cycle_list(g, refs.subrange(1, refs.len() as int), path, after)
        }
    }
}

/// Error message for a cycle of references along `path`.
pub open spec fn cycle_message(g: Grammar, path: Seq<int>) -> Seq<char> {
    "cyclic dependency detected: "@ + join_path(path_names(g, path))
}

/// Messages for the cycles found from the first `k` rules, and the explored rules afterwards.
pub open spec fn cycle_errors(g: Grammar, k: int) -> (Seq<Seq<char>>, Set<int>)
    decreases k,
{
    if k <= 0 {
        (Seq::empty(), Set::empty())
    } else {
        let (msgs, done) = cycle_errors(g, k - 1);
        let (found, after) = cycle_rule(g, g.rules@[k - 1].name@, Seq::empty(), done);
        match found {
            Some(path) => (msgs.push(cycle_message(g, path)), after),
            None => (msgs, after),
        }
    }
}

/// Everything the validator reports about `g`, in order.
pub open spec fn validation_errors(g: Grammar) -> Seq<Seq<char>> {
    let n = g.rules@.len() as int;
    if n == 0 {
        seq!["grammar has no rules"@]
    } else {
        undefined_errors(g, n) + left_rec_errors(g, n) + cycle_errors(g, n).0
    }
}

} // verus!

verus! {

/// The texts of a list of strings.
pub open spec fn texts(v: Seq<String>) -> Seq<Seq<char>> {
    v.map_values(|s: String| s@)
}

/// A list of indices as integers.
pub open spec fn ints(v: Seq<usize>) -> Seq<int> {
    v.map_values(|x: usize| x as int)
}

proof fn lemma_texts_push(v: Seq<String>, s: String)
    ensures
        texts(v.push(s)) == texts(v).push(s@),
{
    assert(texts(v.push(s)) =~= texts(v).push(s@));
}

proof fn lemma_ints_push(v: Seq<usize>, x: usize)
    ensures
        ints(v.push(x)) == ints(v).push(x as int),
{
    assert(ints(v.push(x)) =~= ints(v).push(x as int));
}

/// Appends to `out` the names that `p` refers to.
pub fn collect_rule_refs(p: &Prod, out: &mut Vec<String>)
    ensures
        texts(final(out)@) == texts(old(out)@) + prod_refs(*p),
    decreases p,
{
    match p {
        Prod::Sequence(items) => collect_list_refs(items, out),
        Prod::Alt(items) => collect_list_refs(items, out),
        Prod::Group(inner) => collect_rule_refs(inner, out),
        Prod::Repeat { item, .. } => collect_rule_refs(item, out),
        Prod::Terminal { .. } => {
            assert(texts(out@) + Seq::<Seq<char>>::empty() =~= texts(out@));
        },
        Prod::Class(_) => {
            assert(texts(out@) + Seq::<Seq<char>>::empty() =~= texts(out@));
        },
        Prod::Ref { name, .. } => {
            let ghost before = out@;
            let copy = name.clone();
            out.push(copy);
            proof {
                lemma_texts_push(before, copy);
                assert(texts(before) + seq![name@] =~= texts(before).push(name@));
            }
        },
    }
}

/// Appends to `out` the names that `items` refer to.
fn collect_list_refs(items: &Vec<Prod>, out: &mut Vec<String>)
    ensures
        texts(final(out)@) == texts(old(out)@) + list_refs(items@),
    decreases items,
{
    let mut i: usize = 0;
    while i < items.len()
        invariant
            i <= items@.len(),
            texts(out@) == texts(old(out)@) + list_refs(items@.take(i as int)),
        decreases items@.len() - i,
    {
        let ghost before = out@;
        collect_rule_refs(&items[i], out);
        proof {
            let t = items@.take(i + 1);
            assert(t.drop_last() =~= items@.take(i as int));
            assert(t.last() == items@[i as int]);
        }
        i += 1;
    }
    proof {
        assert(items@.take(items@.len() as int) =~= items@);
        assert(list_refs(Seq::<Prod>::empty()) == Seq::<Seq<char>>::empty());
        assert(texts(old(out)@) + Seq::<Seq<char>>::empty() =~= texts(old(out)@));
    }
}

/// Whether a terminal or a character class occurs in `p`.
pub fn has_terminal(p: &Prod) -> (r: bool)
    ensures
        r == prod_has_terminal(*p),
    decreases p,
{
    match p {
        Prod::Sequence(items) => list_has_terminal_exec(items),
        Prod::Alt(items) => list_has_terminal_exec(items),
        Prod::Group(inner) => has_terminal(inner),
        Prod::Repeat { item, .. } => has_terminal(item),
        Prod::Terminal { .. } => true,
        Prod::Class(_) => true,
        Prod::Ref { .. } => false,
    }
}

fn list_has_terminal_exec(items: &Vec<Prod>) -> (r: bool)
    ensures
        r == list_has_terminal(items@),
    decreases items,
{
    let mut i: usize = 0;
    let mut found = false;
    while i < items.len()
        invariant
            i <= items@.len(),
            found == list_has_terminal(items@.take(i as int)),
        decreases items@.len() - i,
    {
        let here = has_terminal(&items[i]);
        proof {
            let t = items@.take(i + 1);
            assert(t.drop_last() =~= items@.take(i as int));
            assert(t.last() == items@[i as int]);
        }
        found = found || here;
        i += 1;
    }
    proof {
        assert(items@.take(items@.len() as int) =~= items@);
    }
    found
}

} // verus!

verus! {

/// Whether `x` is in `v`.
fn contains_index(v: &Vec<usize>, x: usize) -> (r: bool)
    ensures
        r == ints(v@).contains(x as int),
{
    let mut i: usize = 0;
    while i < v.len()
        invariant
            i <= v@.len(),
            forall|k: int| 0 <= k < i ==> v@[k] != x,
        decreases v@.len() - i,
    {
        if v[i] == x {
            proof {
                assert(ints(v@)[i as int] == x as int);
            }
            return true;
        }
        i += 1;
    }
    proof {
        if ints(v@).contains(x as int) {
            let k = choose|k: int| 0 <= k < ints(v@).len() && ints(v@)[k] == x as int;
            assert(v@[k] == x);
        }
    }
    false
}

/// A copy of `v` with `x` added.
fn pushed(v: &Vec<usize>, x: usize) -> (r: Vec<usize>)
    ensures
        ints(r@) == ints(v@).push(x as int),
        r@ == v@.push(x),
{
    let mut r: Vec<usize> = Vec::new();
    let mut i: usize = 0;
    while i < v.len()
        invariant
            i <= v@.len(),
            r@ == v@.take(i as int),
        decreases v@.len() - i,
    {
        r.push(v[i]);
        proof {
            assert(v@.take(i + 1) =~= v@.take(i as int).push(v@[i as int]));
        }
        i += 1;
    }
    r.push(x);
    proof {
        assert(v@.take(v@.len() as int) =~= v@);
        lemma_ints_push(v@, x);
    }
    r
}

impl Grammar {
    /// Leftmost derivations from `p`, with `path` the rules entered so far.
    fn left_rec_prod_exec(&self, p: &Prod, path: &mut Vec<usize>) -> (r: Option<Vec<usize>>)
        requires
            forall|k: int| 0 <= k < old(path)@.len() ==> old(path)@[k] < self.rules@.len(),
        ensures
            final(path)@ == old(path)@,
            r matches Some(v) ==> forall|k: int| 0 <= k < v@.len() ==> v@[k] < self.rules@.len(),
            match r {
                Some(v) => left_rec_prod(*self, *p, ints(old(path)@)) == Some(ints(v@)),
                None => left_rec_prod(*self, *p, ints(old(path)@)) is None,
            },
        decreases room(*self, ints(old(path)@)), p,
    {
        match p {
            Prod::Sequence(items) => {
                if items.len() > 0 {
                    self.left_rec_prod_exec(&items[0], path)
                } else {
                    None
                }
            },
            Prod::Alt(items) => self.left_rec_list_exec(items, path),
            Prod::Group(inner) => self.left_rec_prod_exec(inner, path),
            Prod::Repeat { item, quant } => {
                if quant.min == 0 {
                    None
                } else {
                    self.left_rec_prod_exec(item, path)
                }
            },
            Prod::Terminal { .. } => None,
            Prod::Class(_) => None,
            Prod::Ref { name, .. } => {
                match self.rule_index(name.as_str()) {
                    None => None,
                    Some(i) => {
                        if contains_index(path, i) {
                            Some(pushed(path, i))
                        } else if path.len() >= self.rules.len() {
                            None
                        } else {
                            let ghost before = path@;
                            path.push(i);
                            proof {
                                lemma_ints_push(before, i);
                            }
                            let found = self.left_rec_prod_exec(&self.rules[i].production, path);
                            path.pop();
                            proof {
                                assert(path@ =~= before);
                            }
                            found
                        }
                    },
                }
            },
        }
    }

    /// The first alternative among `items` that leads back into `path`.
    fn left_rec_list_exec(&self, items: &Vec<Prod>, path: &mut Vec<usize>) -> (r: Option<
        Vec<usize>,
    >)
        requires
            forall|k: int| 0 <= k < old(path)@.len() ==> old(path)@[k] < self.rules@.len(),
        ensures
            final(path)@ == old(path)@,
            r matches Some(v) ==> forall|k: int| 0 <= k < v@.len() ==> v@[k] < self.rules@.len(),
            match r {
                Some(v) => left_rec_list(*self, items@, ints(old(path)@)) == Some(ints(v@)),
                None => left_rec_list(*self, items@, ints(old(path)@)) is None,
            },
        decreases room(*self, ints(old(path)@)), items,
    {
        let mut i: usize = 0;
        proof {
            assert(items@.subrange(0, items@.len() as int) =~= items@);
        }
        while i < items.len()
            invariant
                i <= items@.len(),
                path@ == old(path)@,
                forall|k: int| 0 <= k < path@.len() ==> path@[k] < self.rules@.len(),
                left_rec_list(*self, items@, ints(path@)) == left_rec_list(
                    *self,
                    items@.subrange(i as int, items@.len() as int),
                    ints(path@),
                ),
            decreases items@.len() - i,
        {
            let ghost rest = items@.subrange(i as int, items@.len() as int);
            proof {
                assert(rest[0] == items@[i as int]);
                assert(rest.subrange(1, rest.len() as int) =~= items@.subrange(
                    i + 1,
                    items@.len() as int,
                ));
                assert(decreases_to!(items => items@[i as int]));
            }
            let found = self.left_rec_prod_exec(&items[i], path);
            if found.is_some() {
                return found;
            }
            i += 1;
        }
        None
    }

    /// The message for `path`, after `prefix`.
    fn path_message(&self, prefix: &str, path: &Vec<usize>) -> (r: String)
        requires
            forall|k: int| 0 <= k < path@.len() ==> path@[k] < self.rules@.len(),
        ensures
            r@ == prefix@ + join_path(path_names(*self, ints(path@))),
    {
        let ghost names = path_names(*self, ints(path@));
        let mut r = prefix.to_owned();
        let mut i: usize = 0;
        while i < path.len()
            invariant
                i <= path@.len(),
                names == path_names(*self, ints(path@)),
                names.len() == path@.len(),
                forall|k: int| 0 <= k < path@.len() ==> path@[k] < self.rules@.len(),
                r@ == prefix@ + join_path(names.take(i as int)),
            decreases path@.len() - i,
        {
            let ghost before = r@;
            if i > 0 {
                push_str(&mut r, " -> ");
            }
            push_str(&mut r, self.rules[path[i]].name.as_str());
            proof {
                let t = names.take(i + 1);
                assert(t.drop_last() =~= names.take(i as int));
                assert(t.last() == self.rules@[path@[i as int] as int].name@);
                if i == 0 {
                    assert(names.take(0) =~= Seq::<Seq<char>>::empty());
                    assert(r@ =~= prefix@ + join_path(t));
                } else {
                    assert(r@ =~= prefix@ + join_path(t));
                }
            }
            i += 1;
        }
        proof {
            assert(names.take(path@.len() as int) =~= names);
            if path@.len() == 0 {
                assert(r@ =~= prefix@ + join_path(names));
            }
        }
        r
    }
}

} // verus!

verus! {

proof fn lemma_cycle_errors_step(g: Grammar, k: int)
    requires
        0 <= k,
    ensures
        cycle_errors(g, k + 1) == ({
            let (msgs, done) = cycle_errors(g, k);
            let (found, after) = cycle_rule(g, g.rules@[k].name@, Seq::empty(), done);
            match found {
                Some(path) => (msgs.push(cycle_message(g, path)), after),
                None => (msgs, after),
            }
        }),
{
}

/// The rules marked in `d`.
pub open spec fn done_set(d: Seq<bool>) -> Set<int> {
    Set::new(|i: int| 0 <= i < d.len() && d[i])
}

/// An optional list of indices as integers.
pub open spec fn opt_ints(r: Option<Vec<usize>>) -> Option<Seq<int>> {
    match r {
        Some(v) => Some(ints(v@)),
        None => None,
    }
}

impl Grammar {
    /// Whether no rule on `path` holds a terminal or a character class.
    fn path_is_pure(&self, path: &Vec<usize>) -> (r: bool)
        requires
            forall|k: int| 0 <= k < path@.len() ==> path@[k] < self.rules@.len(),
        ensures
            r == pure_path(*self, ints(path@)),
    {
        let mut i: usize = 0;
        while i < path.len()
            invariant
                i <= path@.len(),
                forall|k: int| 0 <= k < path@.len() ==> path@[k] < self.rules@.len(),
                forall|k: int|
                    0 <= k < i ==> !prod_has_terminal(
                        #[trigger] self.rules@[ints(path@)[k]].production,
                    ),
            decreases path@.len() - i,
        {
            if has_terminal(&self.rules[path[i]].production) {
                proof {
                    assert(ints(path@)[i as int] == path@[i as int] as int);
                }
                return false;
            }
            proof {
                assert(ints(path@)[i as int] == path@[i as int] as int);
            }
            i += 1;
        }
        true
    }

    /// Depth-first search for a cycle of references through the rule called `name`.
    fn cycle_rule_exec(&self, name: &str, path: &mut Vec<usize>, done: &mut Vec<bool>) -> (r:
        Option<Vec<usize>>)
        requires
            old(done)@.len() == self.rules@.len(),
            forall|k: int| 0 <= k < old(path)@.len() ==> old(path)@[k] < self.rules@.len(),
        ensures
            final(path)@ == old(path)@,
            final(done)@.len() == old(done)@.len(),
            r matches Some(v) ==> forall|k: int| 0 <= k < v@.len() ==> v@[k] < self.rules@.len(),
            (opt_ints(r), done_set(final(done)@)) == cycle_rule(
                *self,
                name@,
                ints(old(path)@),
                done_set(old(done)@),
            ),
        decreases room(*self, ints(old(path)@)), 0nat,
    {
        match self.rule_index(name) {
            None => None,
            Some(i) => {
                if done[i] {
                    return None;
                }
                if contains_index(path, i) {
                    if self.path_is_pure(path) {
                        return Some(pushed(path, i));
                    } else {
                        return None;
                    }
                }
                if path.len() >= self.rules.len() {
                    return None;
                }
                let mut refs: Vec<String> = Vec::new();
                collect_rule_refs(&self.rules[i].production, &mut refs);
                proof {
                    assert(texts(refs@) =~= prod_refs(self.rules@[i as int].production));
                }
                let ghost start_path = path@;
                let ghost start_done = done@;
                proof {
                    assert(!done_set(start_done).contains(i as int));
                }
                path.push(i);
                proof {
                    lemma_ints_push(start_path, i);
                    assert(texts(refs@).subrange(0, refs@.len() as int) =~= texts(refs@));
                }
                let mut j: usize = 0;
                while j < refs.len()
                    invariant
                        j <= refs@.len(),
                        path@ == start_path.push(i),
                        ints(path@) == ints(start_path).push(i as int),
                        forall|k: int| 0 <= k < path@.len() ==> path@[k] < self.rules@.len(),
                        room(*self, ints(path@)) < room(*self, ints(old(path)@)),
                        room(*self, ints(path@)) >= 0,
                        start_path == old(path)@,
                        start_done == old(done)@,
                        old(done)@.len() == self.rules@.len(),
                        !done_set(start_done).contains(i as int),
                        !ints(start_path).contains(i as int),
                        super::grammar::first_rule_index(*self, name@) == Some(i as int),
                        room(*self, ints(start_path)) > 0,
                        texts(refs@) == prod_refs(self.rules@[i as int].production),
                        done@.len() == self.rules@.len(),
                        cycle_list(
                            *self,
                            texts(refs@),
                            ints(path@),
                            done_set(start_done),
                        ) == cycle_list(
                            *self,
                            texts(refs@).subrange(j as int, refs@.len() as int),
                            ints(path@),
                            done_set(done@),
                        ),
                    decreases refs@.len() - j,
                {
                    let ghost rest = texts(refs@).subrange(j as int, refs@.len() as int);
                    proof {
                        assert(rest[0] == refs@[j as int]@);
                        assert(rest.subrange(1, rest.len() as int) =~= texts(refs@).subrange(
                            j + 1,
                            refs@.len() as int,
                        ));
                    }
                    let found = self.cycle_rule_exec(refs[j].as_str(), path, done);
                    if found.is_some() {
                        path.pop();
                        proof {
                            assert(path@ =~= start_path);
                        }
                        return found;
                    }
                    j += 1;
                }
                path.pop();
                proof {
                    assert(path@ =~= start_path);
                }
                let ghost before = done@;
                done.set(i, true);
                proof {
                    assert(done_set(done@) =~= done_set(before).insert(i as int));
                }
                None
            },
        }
    }

    /// Messages for undefined references, rule by rule.
    fn undefined_messages(&self) -> (r: Vec<String>)
        ensures
            texts(r@) == undefined_errors(*self, self.rules@.len() as int),
    {
        let mut errors: Vec<String> = Vec::new();
        let n = self.rules.len();
        let mut k: usize = 0;
        proof {
            assert(texts(errors@) =~= undefined_errors(*self, 0));
        }
        while k < n
            invariant
                n == self.rules@.len(),
                k <= n,
                texts(errors@) == undefined_errors(*self, k as int),
            decreases n - k,
        {
            let mut refs: Vec<String> = Vec::new();
            collect_rule_refs(&self.rules[k].production, &mut refs);
            proof {
                assert(texts(refs@) =~= prod_refs(self.rules@[k as int].production));
            }
            let ghost base = texts(errors@);
            let mut j: usize = 0;
            proof {
                assert(base + undefined_in(*self, texts(refs@).take(0)) =~= base);
            }
            while j < refs.len()
                invariant
                    j <= refs@.len(),
                    texts(errors@) == base + undefined_in(*self, texts(refs@).take(j as int)),
                decreases refs@.len() - j,
            {
                let ghost before = errors@;
                let ghost t = texts(refs@).take(j + 1);
                proof {
                    assert(t.drop_last() =~= texts(refs@).take(j as int));
                    assert(t.last() == refs@[j as int]@);
                }
                if self.rule_index(refs[j].as_str()).is_none() {
                    let mut message = "undefined rule '".to_owned();
                    push_str(&mut message, refs[j].as_str());
                    push_str(&mut message, "'");
                    errors.push(message);
                    proof {
                        lemma_texts_push(before, message);
                        assert(texts(errors@) =~= base + undefined_in(*self, t));
                    }
                } else {
                    proof {
                        assert(texts(errors@) =~= base + undefined_in(*self, t));
                    }
                }
                j += 1;
            }
            proof {
                assert(texts(refs@).take(refs@.len() as int) =~= texts(refs@));
            }
            k += 1;
        }
        errors
    }

    /// Messages for left recursion from each rule.
    fn left_rec_messages(&self) -> (r: Vec<String>)
        ensures
            texts(r@) == left_rec_errors(*self, self.rules@.len() as int),
    {
        let mut errors: Vec<String> = Vec::new();
        let n = self.rules.len();
        let mut k: usize = 0;
        proof {
            assert(texts(errors@) =~= left_rec_errors(*self, 0));
        }
        while k < n
            invariant
                n == self.rules@.len(),
                k <= n,
                texts(errors@) == left_rec_errors(*self, k as int),
            decreases n - k,
        {
            let mut path: Vec<usize> = Vec::new();
            path.push(k);
            proof {
                assert(ints(path@) =~= seq![k as int]);
            }
            let ghost before = errors@;
            match self.left_rec_prod_exec(&self.rules[k].production, &mut path) {
                Some(found) => {
                    let message = self.path_message("left recursion detected: ", &found);
                    errors.push(message);
                    proof {
                        lemma_texts_push(before, message);
                        assert(texts(errors@) =~= left_rec_errors(*self, k + 1));
                    }
                },
                None => {
                    proof {
                        assert(texts(errors@) =~= left_rec_errors(*self, k + 1));
                    }
                },
            }
            k += 1;
        }
        errors
    }

    /// Messages for cycles of references alone, searching from each rule not yet explored.
    fn cycle_messages(&self) -> (r: Vec<String>)
        ensures
            texts(r@) == cycle_errors(*self, self.rules@.len() as int).0,
    {
        let mut errors: Vec<String> = Vec::new();
        let n = self.rules.len();
        let mut done: Vec<bool> = Vec::new();
        let mut k: usize = 0;
        while k < n
            invariant
                n == self.rules@.len(),
                k <= n,
                done@.len() == k,
                forall|i: int| 0 <= i < k ==> !done@[i],
            decreases n - k,
        {
            done.push(false);
            k += 1;
        }
        proof {
            assert(done_set(done@) =~= Set::<int>::empty());
            assert(texts(errors@) =~= Seq::<Seq<char>>::empty());
        }
        let mut k: usize = 0;
        while k < n
            invariant
                n == self.rules@.len(),
                k <= n,
                done@.len() == n,
                texts(errors@) == cycle_errors(*self, k as int).0,
                done_set(done@) == cycle_errors(*self, k as int).1,
            decreases n - k,
        {
            let mut path: Vec<usize> = Vec::new();
            proof {
                assert(ints(path@) =~= Seq::<int>::empty());
            }
            let ghost before = errors@;
            let ghost d0 = done_set(done@);
            let r = self.cycle_rule_exec(self.rules[k].name.as_str(), &mut path, &mut done);
            proof {
                lemma_cycle_errors_step(*self, k as int);
                assert(ints(Seq::<usize>::empty()) =~= Seq::<int>::empty());
            }
            match r {
                Some(found) => {
                    let message = self.path_message("cyclic dependency detected: ", &found);
                    errors.push(message);
                    proof {
                        lemma_texts_push(before, message);
                    }
                },
                None => {},
            }
            k += 1;
        }
        errors
    }

    /// Checks the grammar: rules referred to but not defined, left recursion (following
    /// leftmost items; a repetition that may be empty is not followed), and cycles made of
    /// references alone. Reports everything found, in that order; an empty grammar is reported
    /// as such alone.
    pub fn validate(&self) -> (r: Vec<String>)
        ensures
            texts(r@) == validation_errors(*self),
    {
        if self.rules.len() == 0 {
            let mut errors: Vec<String> = Vec::new();
            errors.push("grammar has no rules".to_owned());
            proof {
                assert(texts(errors@) =~= seq!["grammar has no rules"@]);
            }
            return errors;
        }
        let mut errors = self.undefined_messages();
        let mut more = self.left_rec_messages();
        let mut last = self.cycle_messages();
        let ghost a = errors@;
        let ghost b = more@;
        let ghost c = last@;
        errors.append(&mut more);
        errors.append(&mut last);
        proof {
            assert(texts(errors@) =~= texts(a) + texts(b) + texts(c));
        }
        errors
    }
}

} // verus!

verus! {

/// Law: the report depends on the grammar alone, so two runs of the validator on one grammar
/// give the same list.
pub proof fn lemma_validate_idempotent(g: Grammar, first: Seq<String>, second: Seq<String>)
    requires
        texts(first) == validation_errors(g),
        texts(second) == validation_errors(g),
    ensures
        texts(first) == texts(second),
{
}

} // verus!

verus! {

proof fn lemma_undefined_in_empty(g: Grammar, refs: Seq<Seq<char>>)
    requires
        undefined_in(g, refs).len() == 0,
    ensures
        forall|j: int| 0 <= j < refs.len() ==> defines(g, #[trigger] refs[j]),
    decreases refs.len(),
{
    if refs.len() > 0 {
        lemma_undefined_in_empty(g, refs.drop_last());
        assert forall|j: int| 0 <= j < refs.len() implies defines(g, #[trigger] refs[j]) by {
            if j < refs.len() - 1 {
                assert(refs.drop_last()[j] == refs[j]);
            }
        }
    }
}

proof fn lemma_undefined_errors_empty(g: Grammar, k: int)
    requires
        0 <= k <= g.rules@.len(),
        undefined_errors(g, k).len() == 0,
    ensures
        forall|i: int, j: int|
            0 <= i < k && 0 <= j < prod_refs(g.rules@[i].production).len() ==> defines(
                g,
                #[trigger] prod_refs(g.rules@[i].production)[j],
            ),
    decreases k,
{
    if k > 0 {
        lemma_undefined_errors_empty(g, k - 1);
        lemma_undefined_in_empty(g, prod_refs(g.rules@[k - 1].production));
    }
}

/// Law: a grammar the validator finds nothing wrong with has rules, and every name any rule
/// refers to is the name of a rule.
pub proof fn lemma_valid_references_resolve(g: Grammar)
    requires
        validation_errors(g).len() == 0,
    ensures
        g.rules@.len() > 0,
        forall|i: int, j: int|
            0 <= i < g.rules@.len() && 0 <= j < prod_refs(g.rules@[i].production).len()
                ==> defines(g, #[trigger] prod_refs(g.rules@[i].production)[j]),
{
    let n = g.rules@.len() as int;
    if n > 0 {
        assert(undefined_errors(g, n).len() == 0);
        lemma_undefined_errors_empty(g, n);
    }
}

} // verus!

verus! {

/// The names a production may begin with: the leftmost item is followed, every alternative is,
/// and a repetition that may be empty is not.
pub open spec fn leftmost_refs(p: Prod) -> Set<Seq<char>>
    decreases p,
{
    match p {
        Prod::Sequence(items) => if items@.len() > 0 {
            leftmost_refs(items@[0])
        } else {
            Set::empty()
        },
        Prod::Alt(items) => list_leftmost_refs(items@),
        Prod::Group(inner) => leftmost_refs(*inner),
        Prod::Repeat { item, quant } => if quant.min == 0 {
            Set::empty()
        } else {
            leftmost_refs(*item)
        },
        Prod::Terminal { .. } => Set::empty(),
        Prod::Class(_) => Set::empty(),
        Prod::Ref { name, .. } => set![name@],
    }
}

/// The names any of a list of alternatives may begin with.
pub open spec fn list_leftmost_refs(items: Seq<Prod>) -> Set<Seq<char>>
    decreases items,
{
    if items.len() == 0 {
        Set::empty()
    } else {
        leftmost_refs(items[0]).union(list_leftmost_refs(items.subrange(1, items.len() as int)))
    }
}

/// Rule `b` is the rule of a name that rule `a` may begin with.
pub open spec fn leads_to(g: Grammar, a: int, b: int) -> bool {
    exists|name: Seq<char>|
        #[trigger] leftmost_refs(g.rules@[a].production).contains(name)
            && super::grammar::first_rule_index(g, name) == Some(b)
}

/// `found` extends `path` by a chain of leftmost references starting from what `first` may
/// begin with, and ends on a rule it already holds.
pub open spec fn left_chain(g: Grammar, first: Set<Seq<char>>, path: Seq<int>, found: Seq<int>) -> bool {
    &&& found.len() > path.len()
    &&& found.take(path.len() as int) == path
    &&& exists|name: Seq<char>|
        #[trigger] first.contains(name) && super::grammar::first_rule_index(g, name) == Some(
            found[path.len() as int],
        )
    &&& forall|k: int|
        path.len() <= k < found.len() - 1 ==> leads_to(g, #[trigger] found[k], found[k + 1])
    &&& found.take(found.len() - 1).contains(found.last())
}

#[verifier::rlimit(50)]
proof fn lemma_left_rec_prod_chain(g: Grammar, p: Prod, path: Seq<int>)
    requires
        left_rec_prod(g, p, path) is Some,
    ensures
        left_chain(g, leftmost_refs(p), path, left_rec_prod(g, p, path)->0),
    decreases room(g, path), p,
{
    let found = left_rec_prod(g, p, path)->0;
    match p {
        Prod::Sequence(items) => {
            lemma_left_rec_prod_chain(g, items@[0], path);
        },
        Prod::Alt(items) => {
            lemma_left_rec_list_chain(g, items@, path);
        },
        Prod::Group(inner) => {
            lemma_left_rec_prod_chain(g, *inner, path);
        },
        Prod::Repeat { item, quant } => {
            lemma_left_rec_prod_chain(g, *item, path);
        },
        Prod::Ref { name, .. } => {
            let i = super::grammar::first_rule_index(g, name@)->0;
            assert(leftmost_refs(p).contains(name@));
            if path.contains(i) {
                assert(found == path.push(i));
                assert(found.take(path.len() as int) =~= path);
                assert(found.take(found.len() - 1) =~= path);
            } else {
                let next = path.push(i);
                lemma_left_rec_prod_chain(g, g.rules@[i].production, next);
                assert(found.take(next.len() as int) == next);
                assert(found.take(path.len() as int) =~= next.take(path.len() as int));
                assert(next.take(path.len() as int) =~= path);
                assert(found[path.len() as int] == next[path.len() as int]);
                assert forall|k: int| path.len() <= k < found.len() - 1 implies leads_to(
                    g,
                    #[trigger] found[k],
                    found[k + 1],
                ) by {
                    if k == path.len() {
                        assert(found[k] == i);
                        let nm = choose|nm: Seq<char>|
                            #[trigger] leftmost_refs(g.rules@[i].production).contains(nm)
                                && super::grammar::first_rule_index(g, nm) == Some(
                                found[next.len() as int],
                            );
                        assert(leftmost_refs(g.rules@[found[k]].production).contains(nm));
                    }
                }
            }
        },
        _ => {},
    }
}

proof fn lemma_left_rec_list_chain(g: Grammar, items: Seq<Prod>, path: Seq<int>)
    requires
        left_rec_list(g, items, path) is Some,
    ensures
        left_chain(g, list_leftmost_refs(items), path, left_rec_list(g, items, path)->0),
    decreases room(g, path), items,
{
    let found = left_rec_list(g, items, path)->0;
    let rest = items.subrange(1, items.len() as int);
    match left_rec_prod(g, items[0], path) {
        Some(f) => {
            lemma_left_rec_prod_chain(g, items[0], path);
            let nm = choose|nm: Seq<char>|
                #[trigger] leftmost_refs(items[0]).contains(nm) && super::grammar::first_rule_index(
                    g,
                    nm,
                ) == Some(found[path.len() as int]);
            assert(list_leftmost_refs(items).contains(nm));
        },
        None => {
            lemma_left_rec_list_chain(g, rest, path);
            let nm = choose|nm: Seq<char>|
                #[trigger] list_leftmost_refs(rest).contains(nm)
                    && super::grammar::first_rule_index(g, nm) == Some(found[path.len() as int]);
            assert(list_leftmost_refs(items).contains(nm));
        },
    }
}

/// Law: a left recursion reported from rule `i` is real: the path starts at `i`, each rule on
/// it may begin with the next, and the last rule is one the path already went through.
pub proof fn lemma_left_rec_is_real(g: Grammar, i: int)
    requires
        0 <= i < g.rules@.len(),
        left_rec_rule(g, i) is Some,
    ensures
        ({
            let path = left_rec_rule(g, i)->0;
            &&& path.len() >= 2
            &&& path[0] == i
            &&& forall|k: int| 0 <= k < path.len() - 1 ==> leads_to(g, #[trigger] path[k], path[k + 1])
            &&& path.take(path.len() - 1).contains(path.last())
        }),
{
    let path = left_rec_rule(g, i)->0;
    lemma_left_rec_prod_chain(g, g.rules@[i].production, seq![i]);
    assert(path.take(1) == seq![i]);
    assert(path[0] == path.take(1)[0]);
    assert forall|k: int| 0 <= k < path.len() - 1 implies leads_to(g, #[trigger] path[k], path[k + 1]) by {
        if k == 0 {
            let nm = choose|nm: Seq<char>|
                #[trigger] leftmost_refs(g.rules@[i].production).contains(nm)
                    && super::grammar::first_rule_index(g, nm) == Some(path[1]);
            assert(leftmost_refs(g.rules@[path[0]].production).contains(nm));
        }
    }
}

} // verus!

verus! {

/// Rule `a` refers, anywhere in its production, to a name whose rule is `b`.
pub open spec fn refers_to(g: Grammar, a: int, b: int) -> bool {
    exists|j: int|
        0 <= j < prod_refs(g.rules@[a].production).len()
            && super::grammar::first_rule_index(g, #[trigger] prod_refs(g.rules@[a].production)[j])
            == Some(b)
}

/// `found` extends `path` by a chain of references starting at the rule of one of `names`,
/// ends on a rule it already holds, and no rule before its end holds a terminal or a class.
pub open spec fn ref_cycle(g: Grammar, names: Seq<Seq<char>>, path: Seq<int>, found: Seq<int>) -> bool {
    &&& found.len() > path.len()
    &&& found.take(path.len() as int) == path
    &&& exists|j: int|
        0 <= j < names.len() && super::grammar::first_rule_index(g, #[trigger] names[j]) == Some(
            found[path.len() as int],
        )
    &&& forall|k: int|
        path.len() <= k < found.len() - 1 ==> refers_to(g, #[trigger] found[k], found[k + 1])
    &&& found.take(found.len() - 1).contains(found.last())
    &&& pure_path(g, found.take(found.len() - 1))
}

proof fn lemma_cycle_rule_real(g: Grammar, name: Seq<char>, path: Seq<int>, done: Set<int>)
    requires
        cycle_rule(g, name, path, done).0 is Some,
    ensures
        ref_cycle(g, seq![name], path, cycle_rule(g, name, path, done).0->0),
    decreases room(g, path), 0nat,
{
    let found = cycle_rule(g, name, path, done).0->0;
    let i = super::grammar::first_rule_index(g, name)->0;
    assert(seq![name][0] == name);
    if path.contains(i) {
        assert(found == path.push(i));
        assert(found.take(path.len() as int) =~= path);
        assert(found.take(found.len() - 1) =~= path);
    } else {
        let next = path.push(i);
        let refs = prod_refs(g.rules@[i].production);
        lemma_cycle_list_real(g, refs, next, done);
        assert(found.take(next.len() as int) == next);
        assert(found.take(path.len() as int) =~= next.take(path.len() as int));
        assert(next.take(path.len() as int) =~= path);
        assert(found[path.len() as int] == next[path.len() as int]);
        assert forall|k: int| path.len() <= k < found.len() - 1 implies refers_to(
            g,
            #[trigger] found[k],
            found[k + 1],
        ) by {
            if k == path.len() {
                assert(found[k] == i);
                let j = choose|j: int|
                    0 <= j < refs.len() && super::grammar::first_rule_index(g, #[trigger] refs[j])
                        == Some(found[next.len() as int]);
                assert(super::grammar::first_rule_index(g, prod_refs(g.rules@[found[k]].production)[j])
                    == Some(found[k + 1]));
            }
        }
    }
}

proof fn lemma_cycle_list_real(g: Grammar, refs: Seq<Seq<char>>, path: Seq<int>, done: Set<int>)
    requires
        cycle_list(g, refs, path, done).0 is Some,
    ensures
        ref_cycle(g, refs, path, cycle_list(g, refs, path, done).0->0),
    decreases room(g, path), refs.len() + 1,
{
    let found = cycle_list(g, refs, path, done).0->0;
    let (first, after) = cycle_rule(g, refs[0], path, done);
    let rest = refs.subrange(1, refs.len() as int);
    if first is Some {
        lemma_cycle_rule_real(g, refs[0], path, done);
        assert(seq![refs[0]][0] == refs[0]);
    } else {
        lemma_cycle_list_real(g, rest, path, after);
        let j = choose|j: int|
            0 <= j < rest.len() && super::grammar::first_rule_index(g, #[trigger] rest[j]) == Some(
                found[path.len() as int],
            );
        assert(refs[j + 1] == rest[j]);
    }
}

/// Law: a cycle reported from rule `i` is real: each rule on the path refers to the next, the
/// last rule is one the path already went through, and no rule before it holds a terminal or a
/// character class.
pub proof fn lemma_cycle_is_real(g: Grammar, i: int, done: Set<int>)
    requires
        0 <= i < g.rules@.len(),
        cycle_rule(g, g.rules@[i].name@, Seq::empty(), done).0 is Some,
    ensures
        ({
            let path = cycle_rule(g, g.rules@[i].name@, Seq::empty(), done).0->0;
            &&& path.len() >= 2
            &&& forall|k: int| 0 <= k < path.len() - 1 ==> refers_to(g, #[trigger] path[k], path[k + 1])
            &&& path.take(path.len() - 1).contains(path.last())
            &&& pure_path(g, path.take(path.len() - 1))
        }),
{
    let path = cycle_rule(g, g.rules@[i].name@, Seq::empty(), done).0->0;
    lemma_cycle_rule_real(g, g.rules@[i].name@, Seq::empty(), done);
    if path.len() < 2 {
        assert(path.take(0) =~= Seq::<int>::empty());
        assert(!path.take(path.len() - 1).contains(path.last()));
    }
}

} // verus!
