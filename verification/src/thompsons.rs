//! Thompson's construction: from a postfix pattern to a nondeterministic
//! automaton.
//!
//! The postfix tokens are folded into a syntax tree by a stack machine, and
//! the tree is lowered to a fragment with one entry and one exit state.

use crate::automaton::Automaton;
use crate::fa::FA;
use crate::state_set::{ordered, State, StateSet};
use crate::symbol::{in_alphabet, is_in_alphabet, Symbol};
use crate::text::chars_of;
use crate::transition::Transition;
use vstd::prelude::*;

verus! {

/// The postfix operator for concatenation.
pub const CONCAT: char = '.';

/// The operator for alternation.
pub const ALTERNATE: char = '|';

/// The operator for repetition, zero or more times.
pub const STAR: char = '*';

/// The operator for repetition, one or more times.
pub const PLUS: char = '+';

/// The operator for an optional operand.
pub const OPTIONAL: char = '?';

/// `c` is one of the five operators of a postfix pattern.
pub open spec fn is_operator(c: char) -> bool {
    c == CONCAT || c == ALTERNATE || c == STAR || c == PLUS || c == OPTIONAL
}

/// `c` stands for itself in a pattern: it belongs to the alphabet and is
/// neither an operator nor a parenthesis.
pub open spec fn is_literal(c: char) -> bool {
    in_alphabet(c) && !is_operator(c) && c != '(' && c != ')'
}

/// Decides whether `c` stands for itself in a pattern.
pub fn is_literal_char(c: char) -> (b: bool)
    ensures
        b == is_literal(c),
{
    is_in_alphabet(c) && !(c == CONCAT || c == ALTERNATE || c == STAR || c == PLUS || c == OPTIONAL)
        && c != '(' && c != ')'
}

/// A source of state identifiers that hands out each identifier once.
#[derive(Debug)]
pub struct IdGen {
    next: State,
}

impl View for IdGen {
    type V = nat;

    /// The next identifier to be handed out.
    closed spec fn view(&self) -> nat {
        self.next as nat
    }
}

impl IdGen {
    /// Creates a source whose first identifier is 0.
    pub fn new() -> (ids: Self)
        ensures
            ids@ == 0,
    {
        IdGen { next: 0 }
    }

    /// Hands out the next identifier.
    pub fn fresh(&mut self) -> (id: State)
        requires
            old(self)@ < usize::MAX,
        ensures
            id == old(self)@,
            final(self)@ == old(self)@ + 1,
    {
        let id = self.next;
        self.next = self.next + 1;
        id
    }

    /// Tells whether `count` more identifiers can be handed out.
    pub fn has_room(&self, count: usize) -> (b: bool)
        ensures
            b == (self@ + count <= usize::MAX),
    {
        count <= usize::MAX - self.next
    }
}

/// A fragment of an automaton under construction, as a mathematical value:
/// its states, its entry state, its exit state and its transitions.
pub struct Fragment {
    pub states: Set<State>,
    pub start: State,
    pub end: State,
    pub delta: Seq<Transition>,
}

/// A fragment of an automaton under construction.
#[derive(Debug)]
pub struct FAPiece {
    states: StateSet,
    start: State,
    end: State,
    delta: Vec<Transition>,
}

impl View for FAPiece {
    type V = Fragment;

    closed spec fn view(&self) -> Fragment {
        Fragment { states: self.states@, start: self.start, end: self.end, delta: self.delta@ }
    }
}

impl FAPiece {
    /// The representation invariant: the set of states is stored in
    /// canonical form.
    pub closed spec fn wf(&self) -> bool {
        self.states.wf()
    }

    /// Creates the fragment without states or transitions, with entry and
    /// exit 0.
    pub fn new() -> (piece: Self)
        ensures
            piece.wf(),
            piece@ == (Fragment {
                states: Set::<State>::empty(),
                start: 0,
                end: 0,
                delta: Seq::<Transition>::empty(),
            }),
    {
        Self { states: StateSet::new(), start: 0, end: 0, delta: Vec::new() }
    }

    /// Takes a state identifier that no fragment built from `ids` has used.
    pub fn produce_id(ids: &mut IdGen) -> (id: State)
        requires
            old(ids)@ < usize::MAX,
        ensures
            id == old(ids)@,
            final(ids)@ == old(ids)@ + 1,
    {
        ids.fresh()
    }

    /// Number of states.
    pub fn num_states(&self) -> (n: usize)
        requires
            self.wf(),
        ensures
            n == self@.states.len(),
    {
        self.states.len()
    }

    /// Makes `s` the entry state.
    pub fn set_start(&mut self, s: State)
        ensures
            final(self)@ == (Fragment { start: s, ..old(self)@ }),
            old(self).wf() ==> final(self).wf(),
    {
        self.start = s;
    }

    /// Makes `s` the exit state.
    pub fn set_end(&mut self, s: State)
        ensures
            final(self)@ == (Fragment { end: s, ..old(self)@ }),
            old(self).wf() ==> final(self).wf(),
    {
        self.end = s;
    }

    /// Adds the state `s`.
    pub fn add_state(&mut self, s: State)
        requires
            old(self).wf(),
        ensures
            final(self).wf(),
            final(self)@ == (Fragment { states: old(self)@.states.insert(s), ..old(self)@ }),
    {
        self.states.insert(s);
    }

    /// Adds every state of `states`.
    pub fn add_states(&mut self, states: &StateSet)
        requires
            old(self).wf(),
            states.wf(),
        ensures
            final(self).wf(),
            final(self)@ == (Fragment { states: old(self)@.states.union(states@), ..old(self)@ }),
    {
        self.states.extend(states);
    }

    /// Appends the transition `t`.
    pub fn add_transition(&mut self, t: Transition)
        ensures
            final(self)@ == (Fragment { delta: old(self)@.delta.push(t), ..old(self)@ }),
            old(self).wf() ==> final(self).wf(),
    {
        self.delta.push(t);
    }

    /// Appends every transition of `list`, in order.
    pub fn add_transitions(&mut self, list: &Vec<Transition>)
        ensures
            final(self)@ == (Fragment { delta: old(self)@.delta + list@, ..old(self)@ }),
            old(self).wf() ==> final(self).wf(),
    {
        let mut i: usize = 0;
        proof {
            assert(list@.take(0) =~= Seq::<Transition>::empty());
            assert(self.delta@ + list@.take(0) =~= self.delta@);
        }
        while i < list.len()
            invariant
                i <= list@.len(),
                self.states == old(self).states,
                self.start == old(self).start,
                self.end == old(self).end,
                self.delta@ == old(self).delta@ + list@.take(i as int),
            decreases list@.len() - i,
        {
            self.delta.push(list[i]);
            proof {
                assert(list@.take(i + 1) =~= list@.take(i as int).push(list@[i as int]));
                assert(self.delta@ =~= old(self).delta@ + list@.take(i + 1));
            }
            i += 1;
        }
        proof {
            assert(list@.take(i as int) =~= list@);
        }
    }

    /// Removes the state `s`.
    pub fn remove_state(&mut self, s: State)
        requires
            old(self).wf(),
        ensures
            final(self).wf(),
            final(self)@ == (Fragment { states: old(self)@.states.remove(s), ..old(self)@ }),
    {
        self.states.remove(&s);
    }

    /// A copy of the set of states.
    pub fn states(&self) -> (s: StateSet)
        ensures
            s@ == self@.states,
            self.wf() ==> s.wf(),
    {
        self.states.clone()
    }

    /// The entry state.
    pub fn start(&self) -> (s: State)
        ensures
            s == self@.start,
    {
        self.start
    }

    /// The exit state.
    pub fn end(&self) -> (s: State)
        ensures
            s == self@.end,
    {
        self.end
    }

    /// The transitions, in the order they were added.
    pub fn delta(&self) -> (v: &Vec<Transition>)
        ensures
            v@ == self@.delta,
    {
        &self.delta
    }

    /// Grants write access to the list of transitions.
    pub fn delta_mut(&mut self) -> (v: &mut Vec<Transition>)
        ensures
            v@ == old(self)@.delta,
            final(self)@ == (Fragment { delta: final(v)@, ..old(self)@ }),
            old(self).wf() ==> final(self).wf(),
    {
        &mut self.delta
    }

    /// Builds the fragment that reads `sym` once: two new states joined by
    /// one transition.
    pub fn just_sym(sym: Symbol, ids: &mut IdGen) -> (piece: Self)
        requires
            old(ids)@ + 2 <= usize::MAX,
        ensures
            piece.wf(),
            piece@ == Fragment::single(sym, old(ids)@),
            final(ids)@ == old(ids)@ + 2,
    {
        let mut piece = FAPiece::new();
        let start = Self::produce_id(ids);
        let end = Self::produce_id(ids);
        piece.add_state(start);
        piece.add_state(end);
        piece.set_start(start);
        piece.set_end(end);
        piece.add_transition(Transition::from(sym, start, end));
        proof {
            assert(piece@.states =~= Fragment::single(sym, old(ids)@).states);
            assert(piece@.delta =~= Fragment::single(sym, old(ids)@).delta);
        }
        piece
    }

    /// Builds the fragment with the states `start` and `end` and no
    /// transition.
    pub fn new_with_start_end(start: State, end: State) -> (piece: Self)
        ensures
            piece.wf(),
            piece@ == (Fragment {
                states: set![start, end],
                start,
                end,
                delta: Seq::<Transition>::empty(),
            }),
    {
        let mut states = StateSet::new();
        states.insert(start);
        states.insert(end);
        let piece = FAPiece { states, start, end, delta: Vec::new() };
        proof {
            assert(piece@.states =~= set![start, end]);
        }
        piece
    }
}

impl Clone for FAPiece {
    fn clone(&self) -> (piece: Self)
        ensures
            piece@ == self@,
            self.wf() ==> piece.wf(),
    {
        let delta = self.delta.clone();
        proof {
            assert(delta@ =~= self.delta@);
        }
        FAPiece { states: self.states.clone(), start: self.start, end: self.end, delta }
    }
}

/// `t` with every endpoint `from` replaced by `to`.
pub open spec fn renamed(t: Transition, from: State, to: State) -> Transition {
    Transition {
        sym: t.sym,
        start: if t.start == from { to } else { t.start },
        end: if t.end == from { to } else { t.end },
    }
}

/// Copies `delta`, replacing every endpoint `from` by `to`.
pub fn rename(delta: &Vec<Transition>, from: State, to: State) -> (out: Vec<Transition>)
    ensures
        out@ == delta@.map_values(|t: Transition| renamed(t, from, to)),
{
    let mut out: Vec<Transition> = Vec::new();
    let mut i: usize = 0;
    while i < delta.len()
        invariant
            i <= delta@.len(),
            out@ == delta@.take(i as int).map_values(|t: Transition| renamed(t, from, to)),
        decreases delta@.len() - i,
    {
        let t = delta[i];
        let start = if t.start == from { to } else { t.start };
        let end = if t.end == from { to } else { t.end };
        out.push(Transition::from(t.sym, start, end));
        proof {
            assert(delta@.take(i + 1) =~= delta@.take(i as int).push(t));
            assert(out@ =~= delta@.take(i + 1).map_values(|t: Transition| renamed(t, from, to)));
        }
        i += 1;
    }
    proof {
        assert(delta@.take(i as int) =~= delta@);
    }
    out
}

/// The syntax tree of a pattern.
#[derive(Debug, PartialEq, Eq)]
pub enum Expr {
    /// The empty word.
    Empty,
    /// One symbol.
    Just(Symbol),
    /// Either operand.
    Or(Box<Expr>, Box<Expr>),
    /// The first operand followed by the second.
    And(Box<Expr>, Box<Expr>),
    /// The operand any number of times.
    Star(Box<Expr>),
    /// The operand at least once.
    Plus(Box<Expr>),
    /// The operand once or not at all.
    QMark(Box<Expr>),
}

impl Clone for Expr {
    fn clone(&self) -> (expr: Self)
        ensures
            expr == *self,
        decreases self,
    {
        match self {
            Expr::Empty => Expr::Empty,
            Expr::Just(sym) => Expr::Just(*sym),
            Expr::Or(a, b) => Expr::Or(Box::new((&**a).clone()), Box::new((&**b).clone())),
            Expr::And(a, b) => Expr::And(Box::new((&**a).clone()), Box::new((&**b).clone())),
            Expr::Star(a) => Expr::Star(Box::new((&**a).clone())),
            Expr::Plus(a) => Expr::Plus(Box::new((&**a).clone())),
            Expr::QMark(a) => Expr::QMark(Box::new((&**a).clone())),
        }
    }
}

impl Expr {
    /// Number of state identifiers that the construction takes for this
    /// tree: two for every node but a concatenation, which takes none.
    pub open spec fn ids_needed(self) -> nat
        decreases self,
    {
        match self {
            Expr::Empty => 2,
            Expr::Just(_) => 2,
            Expr::Or(a, b) => a.ids_needed() + b.ids_needed() + 2,
            Expr::And(a, b) => a.ids_needed() + b.ids_needed(),
            Expr::Star(a) => a.ids_needed() + 2,
            Expr::Plus(a) => a.ids_needed() + 2,
            Expr::QMark(a) => a.ids_needed() + 2,
        }
    }

    /// Number of states of the fragment built for this tree: two for every
    /// node but a concatenation, which fuses two states into one.
    pub open spec fn state_count(self) -> int
        decreases self,
    {
        match self {
            Expr::Empty => 2,
            Expr::Just(_) => 2,
            Expr::Or(a, b) => a.state_count() + b.state_count() + 2,
            Expr::And(a, b) => a.state_count() + b.state_count() - 1,
            Expr::Star(a) => a.state_count() + 2,
            Expr::Plus(a) => a.state_count() + 2,
            Expr::QMark(a) => a.state_count() + 2,
        }
    }

    /// The fragment that Thompson's construction builds for this tree when
    /// `n` is the first unused state identifier.
    pub open spec fn fragment(self, n: nat) -> Fragment
        decreases self,
    {
        match self {
            Expr::Empty => Fragment::single(Symbol::Empty, n),
            Expr::Just(sym) => Fragment::single(sym, n),
            Expr::Or(a, b) => Fragment::either(
                a.fragment(n),
                b.fragment(n + a.ids_needed()),
                n + a.ids_needed() + b.ids_needed(),
            ),
            Expr::And(a, b) => Fragment::fuse(a.fragment(n), b.fragment(n + a.ids_needed())),
            Expr::Star(a) => Fragment::star(a.fragment(n), n + a.ids_needed()),
            Expr::Plus(a) => Fragment::plus(a.fragment(n), n + a.ids_needed()),
            Expr::QMark(a) => Fragment::optional(a.fragment(n), n + a.ids_needed()),
        }
    }
}

/// The transition labelled with the empty symbol from `p` to `q`.
pub open spec fn eps(p: State, q: State) -> Transition {
    Transition { sym: Symbol::Empty, start: p, end: q }
}

impl Fragment {
    /// Two new states `n` and `n + 1` joined by one transition labelled
    /// `sym`.
    pub open spec fn single(sym: Symbol, n: nat) -> Fragment {
        Fragment {
            states: set![n as State, (n + 1) as State],
            start: n as State,
            end: (n + 1) as State,
            delta: seq![Transition { sym, start: n as State, end: (n + 1) as State }],
        }
    }

    /// The fragment `inner` wrapped in a new entry `n` and a new exit
    /// `n + 1`, with `extra` as the transitions that attach them.
    pub open spec fn wrap(inner: Fragment, n: nat, extra: Seq<Transition>) -> Fragment {
        Fragment {
            states: set![n as State, (n + 1) as State].union(inner.states),
            start: n as State,
            end: (n + 1) as State,
            delta: inner.delta + extra,
        }
    }

    /// Alternation: a new entry `n` leads to both operands without reading
    /// input, and both lead to a new exit `n + 1`.
    pub open spec fn either(a: Fragment, b: Fragment, n: nat) -> Fragment {
        let s = n as State;
        let e = (n + 1) as State;
        Fragment {
            states: set![s, e].union(a.states).union(b.states),
            start: s,
            end: e,
            delta: a.delta + b.delta + seq![
                eps(s, a.start),
                eps(s, b.start),
                eps(a.end, e),
                eps(b.end, e),
            ],
        }
    }

    /// Concatenation: the entry of `b` is fused into the exit of `a`.  The
    /// entry of `b` leaves the set of states, and every transition of `b`
    /// that touched it touches the exit of `a` instead.
    pub open spec fn fuse(a: Fragment, b: Fragment) -> Fragment {
        Fragment {
            states: set![a.start, b.end].union(a.states).union(
                b.states.remove(b.start).insert(a.end),
            ),
            start: a.start,
            end: b.end,
            delta: a.delta + b.delta.map_values(|t: Transition| renamed(t, b.start, a.end)),
        }
    }

    /// Repetition, zero or more times: besides entering and leaving the
    /// operand, the new entry leads straight to the new exit, and the exit
    /// of the operand leads back to its entry.
    pub open spec fn star(a: Fragment, n: nat) -> Fragment {
        let s = n as State;
        let e = (n + 1) as State;
        Self::wrap(a, n, seq![eps(s, a.start), eps(a.end, e), eps(s, e), eps(a.end, a.start)])
    }

    /// Repetition, one or more times: as [`star`](Self::star), without the
    /// transition that skips the operand.
    pub open spec fn plus(a: Fragment, n: nat) -> Fragment {
        let s = n as State;
        let e = (n + 1) as State;
        Self::wrap(a, n, seq![eps(s, a.start), eps(a.end, e), eps(a.end, a.start)])
    }

    /// Option: as [`star`](Self::star), without the transition that
    /// repeats the operand.
    pub open spec fn optional(a: Fragment, n: nat) -> Fragment {
        let s = n as State;
        let e = (n + 1) as State;
        Self::wrap(a, n, seq![eps(s, a.start), eps(a.end, e), eps(s, e)])
    }

    /// The entry and the exit are distinct states, every transition joins
    /// two states, none enters the entry and none leaves the exit, and all
    /// states carry identifiers from `lo` up to but not including `hi`.
    pub open spec fn shaped(self, lo: nat, hi: nat) -> bool {
        &&& self.states.finite()
        &&& self.states.contains(self.start)
        &&& self.states.contains(self.end)
        &&& self.start != self.end
        &&& forall|q: State| self.states.contains(q) ==> lo <= q < hi
        &&& forall|i: int|
            0 <= i < self.delta.len() ==> self.states.contains((#[trigger] self.delta[i]).start)
                && self.states.contains(self.delta[i].end) && self.delta[i].end != self.start
                && self.delta[i].start != self.end
    }

    /// The automaton that a finished fragment becomes: its entry is the
    /// starting state and its exit the only accepting state.
    pub open spec fn automaton(self) -> Automaton {
        Automaton {
            states: ordered(self.states),
            starting: self.start,
            accepting: seq![self.end],
            delta: self.delta,
        }
    }
}

/// The stack of the syntax-tree machine after the token `c`: an operator
/// replaces its operands by the composite node, a literal character is
/// pushed as a leaf.  `None` when an operator lacks an operand or `c` is no
/// token at all.
pub open spec fn apply_token(stack: Seq<Expr>, c: char) -> Option<Seq<Expr>> {
    let n = stack.len() as int;
    if c == CONCAT {
        if n >= 2 {
            Some(stack.take(n - 2).push(Expr::And(Box::new(stack[n - 2]), Box::new(stack[n - 1]))))
        } else {
            None
        }
    } else if c == ALTERNATE {
        if n >= 2 {
            Some(stack.take(n - 2).push(Expr::Or(Box::new(stack[n - 1]), Box::new(stack[n - 2]))))
        } else {
            None
        }
    } else if c == STAR {
        if n >= 1 {
            Some(stack.take(n - 1).push(Expr::Star(Box::new(stack[n - 1]))))
        } else {
            None
        }
    } else if c == PLUS {
        if n >= 1 {
            Some(stack.take(n - 1).push(Expr::Plus(Box::new(stack[n - 1]))))
        } else {
            None
        }
    } else if c == OPTIONAL {
        if n >= 1 {
            Some(stack.take(n - 1).push(Expr::QMark(Box::new(stack[n - 1]))))
        } else {
            None
        }
    } else if is_literal(c) {
        Some(stack.push(Expr::Just(Symbol::Char(c))))
    } else {
        None
    }
}

/// The stack of the syntax-tree machine after all of `tokens`.
pub open spec fn stack_after(tokens: Seq<char>) -> Option<Seq<Expr>>
    decreases tokens.len(),
{
    if tokens.len() == 0 {
        Some(Seq::empty())
    } else {
        match stack_after(tokens.drop_last()) {
            None => None,
            Some(stack) => apply_token(stack, tokens.last()),
        }
    }
}

/// The syntax tree of a postfix pattern: the single node left on the stack.
pub open spec fn syntax_tree(tokens: Seq<char>) -> Option<Expr> {
    match stack_after(tokens) {
        Some(stack) => if stack.len() == 1 {
            Some(stack[0])
        } else {
            None
        },
        None => None,
    }
}

/// Once the machine has failed on a prefix, it has failed on the whole.
pub proof fn lemma_stack_stuck(tokens: Seq<char>, k: int)
    requires
        0 <= k <= tokens.len(),
        stack_after(tokens.take(k)) is None,
    ensures
        stack_after(tokens) is None,
    decreases tokens.len() - k,
{
    if k < tokens.len() {
        assert(tokens.take(k + 1).drop_last() =~= tokens.take(k));
        lemma_stack_stuck(tokens, k + 1);
    } else {
        assert(tokens.take(k) =~= tokens);
    }
}

/// The automaton of a postfix pattern: the fragment of its syntax tree,
/// with identifiers counted from 0.  `None` when the pattern has no syntax
/// tree or needs more identifiers than there are.
pub open spec fn thompson_automaton(postfix: Seq<char>) -> Option<Automaton> {
    match syntax_tree(postfix) {
        Some(expr) => if expr.ids_needed() <= usize::MAX {
            Some(expr.fragment(0).automaton())
        } else {
            None
        },
        None => None,
    }
}

/// Folds a postfix pattern into its syntax tree.
///
/// Fails when an operator finds too few operands on the stack, when a
/// character is neither an operator nor a literal, or when the pattern does
/// not reduce to a single tree.
pub fn parse_string_to_expr(s: &String) -> (r: Option<Expr>)
    ensures
        r == syntax_tree(s@),
{
    let tokens = chars_of(s.as_str());
    let mut stack: Vec<Expr> = Vec::new();
    let mut i: usize = 0;
    proof {
        assert(tokens@.take(0) =~= Seq::<char>::empty());
    }
    while i < tokens.len()
        invariant
            tokens@ == s@,
            i <= tokens@.len(),
            stack_after(tokens@.take(i as int)) == Some(stack@),
        decreases tokens@.len() - i,
    {
        let c = tokens[i];
        let ghost before = stack@;
        let ghost n = before.len() as int;
        proof {
            assert(tokens@.take(i + 1).drop_last() =~= tokens@.take(i as int));
            assert(tokens@.take(i + 1).last() == c);
        }
        let binary = c == CONCAT || c == ALTERNATE;
        let unary = c == STAR || c == PLUS || c == OPTIONAL;
        if binary && stack.len() >= 2 {
            let second = stack.pop().unwrap();
            let first = stack.pop().unwrap();
            proof {
                assert(stack@ =~= before.take(n - 2));
            }
            if c == CONCAT {
                stack.push(Expr::And(Box::new(first), Box::new(second)));
            } else {
                stack.push(Expr::Or(Box::new(second), Box::new(first)));
            }
        } else if unary && stack.len() >= 1 {
            let operand = stack.pop().unwrap();
            proof {
                assert(stack@ =~= before.take(n - 1));
            }
            if c == STAR {
                stack.push(Expr::Star(Box::new(operand)));
            } else if c == PLUS {
                stack.push(Expr::Plus(Box::new(operand)));
            } else {
                stack.push(Expr::QMark(Box::new(operand)));
            }
        } else if !binary && !unary && is_literal_char(c) {
            stack.push(Expr::Just(Symbol::Char(c)));
        } else {
            proof {
                assert(apply_token(before, c) is None);
                lemma_stack_stuck(tokens@, i + 1);
            }
            return None;
        }
        i += 1;
    }
    proof {
        assert(tokens@.take(i as int) =~= tokens@);
    }
    if stack.len() != 1 {
        None
    } else {
        stack.pop()
    }
}

/// Counts the state identifiers that the construction takes for `expr`.
pub fn count_ids(expr: &Expr) -> (r: Option<usize>)
    ensures
        match r {
            Some(n) => n == expr.ids_needed(),
            None => expr.ids_needed() > usize::MAX,
        },
    decreases expr,
{
    match expr {
        Expr::Empty => Some(2),
        Expr::Just(_) => Some(2),
        Expr::Or(a, b) => {
            match (count_ids(&**a), count_ids(&**b)) {
                (Some(x), Some(y)) => match x.checked_add(y) {
                    Some(z) => z.checked_add(2),
                    None => None,
                },
                _ => None,
            }
        },
        Expr::And(a, b) => {
            match (count_ids(&**a), count_ids(&**b)) {
                (Some(x), Some(y)) => x.checked_add(y),
                _ => None,
            }
        },
        Expr::Star(a) => match count_ids(&**a) {
            Some(x) => x.checked_add(2),
            None => None,
        },
        Expr::Plus(a) => match count_ids(&**a) {
            Some(x) => x.checked_add(2),
            None => None,
        },
        Expr::QMark(a) => match count_ids(&**a) {
            Some(x) => x.checked_add(2),
            None => None,
        },
    }
}

/// Wraps `inner` in a new entry and a new exit state.
fn wrap_piece(inner: &FAPiece, ids: &mut IdGen) -> (piece: FAPiece)
    requires
        inner.wf(),
        old(ids)@ + 2 <= usize::MAX,
    ensures
        piece.wf(),
        piece@ == Fragment::wrap(inner@, old(ids)@, Seq::empty()),
        final(ids)@ == old(ids)@ + 2,
{
    let start = FAPiece::produce_id(ids);
    let end = FAPiece::produce_id(ids);
    let mut piece = FAPiece::new_with_start_end(start, end);
    piece.add_states(&inner.states());
    piece.add_transitions(inner.delta());
    proof {
        assert(piece@.delta =~= inner@.delta + Seq::<Transition>::empty());
    }
    piece
}

/// Lowers a syntax tree to a fragment by Thompson's construction.
///
/// A leaf becomes two new states joined by one transition.  Alternation,
/// repetition and option wrap their operands in a new entry and a new exit
/// state, attached by transitions that read no input.  Concatenation fuses
/// the entry of the second operand into the exit of the first.
pub fn parse(expr: Expr, ids: &mut IdGen) -> (piece: FAPiece)
    requires
        old(ids)@ + expr.ids_needed() <= usize::MAX,
    ensures
        piece.wf(),
        piece@ == expr.fragment(old(ids)@),
        final(ids)@ == old(ids)@ + expr.ids_needed(),
        piece@.shaped(old(ids)@, final(ids)@),
        piece@.states.len() == expr.state_count(),
    decreases expr,
{
    proof {
        expr.lemma_fragment_shaped(ids@);
    }
    match expr {
        Expr::Empty => FAPiece::just_sym(Symbol::Empty, ids),
        Expr::Just(sym) => FAPiece::just_sym(sym, ids),
        Expr::Or(e1, e2) => {
            let piece1 = parse(*e1, ids);
            let piece2 = parse(*e2, ids);
            let start = FAPiece::produce_id(ids);
            let end = FAPiece::produce_id(ids);
            let mut or_piece = FAPiece::new_with_start_end(start, end);
            or_piece.add_states(&piece1.states());
            or_piece.add_states(&piece2.states());
            or_piece.add_transitions(piece1.delta());
            or_piece.add_transitions(piece2.delta());
            or_piece.add_transition(Transition::from(Symbol::Empty, start, piece1.start()));
            or_piece.add_transition(Transition::from(Symbol::Empty, start, piece2.start()));
            or_piece.add_transition(Transition::from(Symbol::Empty, piece1.end(), end));
            or_piece.add_transition(Transition::from(Symbol::Empty, piece2.end(), end));
            proof {
                let want = Fragment::either(piece1@, piece2@, start as nat);
                assert(or_piece@.delta =~= want.delta);
            }
            or_piece
        },
        Expr::And(e1, e2) => {
            let piece1 = parse(*e1, ids);
            let mut piece2 = parse(*e2, ids);
            let ghost second = piece2@;
            let mut and_piece = FAPiece::new_with_start_end(piece1.start(), piece2.end());
            let oldstart = piece2.start();
            let newstart = piece1.end();
            piece2.remove_state(oldstart);
            piece2.add_state(newstart);
            piece2.set_start(newstart);
            let fused = rename(piece2.delta(), oldstart, newstart);
            and_piece.add_states(&piece1.states());
            and_piece.add_states(&piece2.states());
            and_piece.add_transitions(piece1.delta());
            and_piece.add_transitions(&fused);
            proof {
                let want = Fragment::fuse(piece1@, second);
                assert(and_piece@.delta =~= want.delta);
            }
            and_piece
        },
        Expr::Star(e) => {
            let inner = parse(*e, ids);
            let ghost n = ids@;
            let mut star_piece = wrap_piece(&inner, ids);
            let start = star_piece.start();
            let end = star_piece.end();
            star_piece.add_transition(Transition::from(Symbol::Empty, start, inner.start()));
            star_piece.add_transition(Transition::from(Symbol::Empty, inner.end(), end));
            star_piece.add_transition(Transition::from(Symbol::Empty, start, end));
            star_piece.add_transition(Transition::from(Symbol::Empty, inner.end(), inner.start()));
            proof {
                assert(star_piece@.delta =~= Fragment::star(inner@, n).delta);
            }
            star_piece
        },
        Expr::Plus(e) => {
            let inner = parse(*e, ids);
            let ghost n = ids@;
            let mut plus_piece = wrap_piece(&inner, ids);
            let start = plus_piece.start();
            let end = plus_piece.end();
            plus_piece.add_transition(Transition::from(Symbol::Empty, start, inner.start()));
            plus_piece.add_transition(Transition::from(Symbol::Empty, inner.end(), end));
            plus_piece.add_transition(Transition::from(Symbol::Empty, inner.end(), inner.start()));
            proof {
                assert(plus_piece@.delta =~= Fragment::plus(inner@, n).delta);
            }
            plus_piece
        },
        Expr::QMark(e) => {
            let inner = parse(*e, ids);
            let ghost n = ids@;
            let mut qmark_piece = wrap_piece(&inner, ids);
            let start = qmark_piece.start();
            let end = qmark_piece.end();
            qmark_piece.add_transition(Transition::from(Symbol::Empty, start, inner.start()));
            qmark_piece.add_transition(Transition::from(Symbol::Empty, inner.end(), end));
            qmark_piece.add_transition(Transition::from(Symbol::Empty, start, end));
            proof {
                assert(qmark_piece@.delta =~= Fragment::optional(inner@, n).delta);
            }
            qmark_piece
        },
    }
}

/// Turns a finished fragment into an automaton: the states in increasing
/// order, the entry as starting state, the exit as the only accepting
/// state, and the transitions in their order.
pub fn fapiece_to_fa(construction: FAPiece) -> (fa: FA)
    requires
        construction.wf(),
    ensures
        fa.wf(),
        fa@ == construction@.automaton(),
{
    let mut fa = FA::new();
    let states = construction.states();
    let n = states.len();
    let mut i: usize = 0;
    proof {
        assert(states.elements().take(0) =~= Seq::<State>::empty());
    }
    while i < n
        invariant
            states.wf(),
            n == states.elements().len(),
            i <= n,
            fa.wf(),
            fa@ == (Automaton { states: states.elements().take(i as int), ..Automaton::empty() }),
        decreases n - i,
    {
        fa.add_state(states.get(i));
        proof {
            assert(states.elements().take(i + 1) =~= states.elements().take(i as int).push(
                states.elements()[i as int],
            ));
        }
        i += 1;
    }
    fa.set_start(construction.start());
    fa.add_acceptor(construction.end());
    let delta = construction.delta();
    let mut j: usize = 0;
    proof {
        assert(states.elements().take(n as int) =~= states.elements());
        assert(delta@.take(0) =~= Seq::<Transition>::empty());
        assert(fa@.accepting =~= seq![construction@.end]);
    }
    while j < delta.len()
        invariant
            delta@ == construction@.delta,
            j <= delta@.len(),
            fa.wf(),
            fa@ == (Automaton {
                states: states.elements(),
                starting: construction@.start,
                accepting: seq![construction@.end],
                delta: delta@.take(j as int),
            }),
        decreases delta@.len() - j,
    {
        fa.add_transition(delta[j]);
        proof {
            assert(delta@.take(j + 1) =~= delta@.take(j as int).push(delta@[j as int]));
        }
        j += 1;
    }
    proof {
        assert(delta@.take(j as int) =~= delta@);
        states.lemma_elements();
    }
    fa
}

/// Builds the nondeterministic automaton of a postfix pattern.
///
/// Fails when the pattern has no syntax tree, and when its automaton would
/// need more state identifiers than there are.
pub fn parse_to_finite_automata(input: &String) -> (r: Option<FA>)
    ensures
        match r {
            Some(fa) => fa.wf() && thompson_automaton(input@) == Some(fa@),
            None => thompson_automaton(input@) is None,
        },
{
    match parse_string_to_expr(input) {
        None => None,
        Some(expr) => {
            match count_ids(&expr) {
                None => None,
                Some(_) => {
                    let mut ids = IdGen::new();
                    let piece = parse(expr, &mut ids);
                    Some(fapiece_to_fa(piece))
                },
            }
        },
    }
}

} // verus!
