//! The mathematical model of a finite automaton.
//!
//! An [`Automaton`] is the tuple of states, starting state, accepting states
//! and transitions.  Everything the executable code promises is stated over
//! the functions defined here.

use crate::state_set::State;
use crate::symbol::Symbol;
use crate::transition::Transition;
use vstd::prelude::*;

verus! {

/// A finite automaton as a mathematical value.
pub struct Automaton {
    /// The states, in the order they were added.
    pub states: Seq<State>,
    /// The state in which every run begins.
    pub starting: State,
    /// The states in which a run may end successfully.
    pub accepting: Seq<State>,
    /// The transitions, in the order they were added.
    pub delta: Seq<Transition>,
}

/// The transitions of `delta` that leave `s`, in their order in `delta`.
pub open spec fn outgoing(delta: Seq<Transition>, s: State) -> Seq<Transition> {
    delta.filter(|t: Transition| t.start == s)
}

/// A transition leaves `s` in `outgoing(delta, s)`, and every transition of
/// `delta` that leaves `s` is there.
pub proof fn lemma_outgoing(delta: Seq<Transition>, s: State)
    ensures
        forall|i: int|
            0 <= i < outgoing(delta, s).len() ==> (#[trigger] outgoing(delta, s)[i]).start == s
                && delta.contains(outgoing(delta, s)[i]),
        forall|i: int|
            0 <= i < delta.len() && (#[trigger] delta[i]).start == s ==> outgoing(
                delta,
                s,
            ).contains(delta[i]),
{
    let pred = |t: Transition| t.start == s;
    broadcast use vstd::seq_lib::group_filter_ensures;
    assert forall|i: int| 0 <= i < outgoing(delta, s).len() implies (#[trigger] outgoing(
        delta,
        s,
    )[i]).start == s && delta.contains(outgoing(delta, s)[i]) by {
        let t = delta.filter(pred)[i];
        assert(pred(t));
        assert(delta.filter(pred).contains(t));
        delta.lemma_filter_contains_rev(pred, t);
    }
    assert forall|i: int| 0 <= i < delta.len() && (#[trigger] delta[i]).start == s implies outgoing(
        delta,
        s,
    ).contains(delta[i]) by {
        assert(pred(delta[i]));
    }
}

impl Automaton {
    /// The automaton without states or transitions, starting in state 0.
    pub open spec fn empty() -> Automaton {
        Automaton {
            states: Seq::empty(),
            starting: 0,
            accepting: Seq::empty(),
            delta: Seq::empty(),
        }
    }

    /// The set of states.
    pub open spec fn state_set(self) -> Set<State> {
        self.states.to_set()
    }

    /// The starting state and the accepting states are states, and every
    /// transition joins two states.
    pub open spec fn valid(self) -> bool {
        &&& self.states.contains(self.starting)
        &&& forall|i: int|
            0 <= i < self.accepting.len() ==> self.states.contains(#[trigger] self.accepting[i])
        &&& forall|i: int|
            0 <= i < self.delta.len() ==> self.states.contains((#[trigger] self.delta[i]).start)
                && self.states.contains(self.delta[i].end)
    }

    /// Some transition labelled `sym` leads from `p` to `q`.
    pub open spec fn edge(self, sym: Symbol, p: State, q: State) -> bool {
        self.delta.contains(Transition { sym, start: p, end: q })
    }

    /// `q` is reached from `p` by exactly `n` transitions labelled with the
    /// empty symbol.
    pub open spec fn eps_path(self, p: State, q: State, n: nat) -> bool
        decreases n,
    {
        if n == 0 {
            p == q
        } else {
            exists|r: State|
                self.eps_path(p, r, (n - 1) as nat) && #[trigger] self.edge(Symbol::Empty, r, q)
        }
    }

    /// `q` is reached from `p` by transitions labelled with the empty symbol.
    pub open spec fn eps_reach(self, p: State, q: State) -> bool {
        exists|n: nat| self.eps_path(p, q, n)
    }

    /// The epsilon-closure of `s`: all states reached from a member of `s`
    /// without reading input.
    pub open spec fn closure(self, s: Set<State>) -> Set<State> {
        Set::new(|q: State| exists|p: State| s.contains(p) && self.eps_reach(p, q))
    }

    /// The states entered from a member of `s` by one transition labelled
    /// `sym`.
    pub open spec fn moves(self, s: Set<State>, sym: Symbol) -> Set<State> {
        Set::new(|q: State| exists|p: State| s.contains(p) && self.edge(sym, p, q))
    }

    /// The states the automaton may be in after reading `c` in one of the
    /// states of `s`.
    pub open spec fn step(self, s: Set<State>, c: char) -> Set<State> {
        self.closure(self.moves(s, Symbol::Char(c)))
    }

    /// The states the automaton may be in after reading `w` from the start.
    pub open spec fn run(self, w: Seq<char>) -> Set<State>
        decreases w.len(),
    {
        if w.len() == 0 {
            self.closure(set![self.starting])
        } else {
            self.step(self.run(w.drop_last()), w.last())
        }
    }

    /// The language of the automaton: `w` is accepted when some run over `w`
    /// ends in an accepting state.
    pub open spec fn accepts(self, w: Seq<char>) -> bool {
        exists|q: State| self.run(w).contains(q) && self.accepting.contains(q)
    }

    /// No transition is labelled with the empty symbol, and no two
    /// transitions leave the same state under the same label.
    pub open spec fn deterministic(self) -> bool {
        &&& forall|i: int| 0 <= i < self.delta.len() ==> (#[trigger] self.delta[i]).sym is Char
        &&& forall|i: int, j: int|
            0 <= i < j < self.delta.len() ==> !((#[trigger] self.delta[i]).start == (
            #[trigger] self.delta[j]).start && self.delta[i].sym == self.delta[j].sym)
    }

    /// Position in `delta` of the first transition that leaves `p` under the
    /// label `sym`, searching the first `n` transitions.
    pub open spec fn first_edge(self, p: State, sym: Symbol, n: nat) -> Option<int>
        decreases n,
    {
        if n == 0 {
            None
        } else {
            match self.first_edge(p, sym, (n - 1) as nat) {
                Some(i) => Some(i),
                None => if n <= self.delta.len() && self.delta[n - 1].start == p && self.delta[n
                    - 1].sym == sym {
                    Some(n - 1)
                } else {
                    None
                },
            }
        }
    }

    /// The state reached by walking `w` from the start, taking at each
    /// character the first transition that fits; `None` when a character has
    /// no fitting transition.
    pub open spec fn walk(self, w: Seq<char>) -> Option<State>
        decreases w.len(),
    {
        if w.len() == 0 {
            Some(self.starting)
        } else {
            match self.walk(w.drop_last()) {
                None => None,
                Some(p) => match self.first_edge(p, Symbol::Char(w.last()), self.delta.len()) {
                    None => None,
                    Some(i) => Some(self.delta[i].end),
                },
            }
        }
    }

    /// The verdict of the deterministic simulation on `w`.
    pub open spec fn simulate(self, w: Seq<char>) -> bool {
        match self.walk(w) {
            None => false,
            Some(q) => self.accepting.contains(q),
        }
    }
}

impl Automaton {
    /// A path can be extended by one more empty transition.
    pub proof fn lemma_eps_path_extend(self, p: State, r: State, q: State, n: nat)
        requires
            self.eps_path(p, r, n),
            self.edge(Symbol::Empty, r, q),
        ensures
            self.eps_path(p, q, n + 1),
    {
        assert(self.eps_path(p, r, ((n + 1) - 1) as nat));
    }

    /// Two paths that meet can be joined.
    pub proof fn lemma_eps_path_concat(self, p: State, q: State, r: State, n: nat, m: nat)
        requires
            self.eps_path(p, q, n),
            self.eps_path(q, r, m),
        ensures
            self.eps_path(p, r, n + m),
        decreases m,
    {
        if m > 0 {
            let s = choose|s: State|
                self.eps_path(q, s, (m - 1) as nat) && #[trigger] self.edge(Symbol::Empty, s, r);
            self.lemma_eps_path_concat(p, q, s, n, (m - 1) as nat);
            self.lemma_eps_path_extend(p, s, r, (n + m - 1) as nat);
        }
    }

    /// Reachability by empty transitions is reflexive.
    pub proof fn lemma_eps_reach_refl(self, p: State)
        ensures
            self.eps_reach(p, p),
    {
        assert(self.eps_path(p, p, 0));
    }

    /// One empty transition after a reachable state reaches its target.
    pub proof fn lemma_eps_reach_edge(self, p: State, q: State, r: State)
        requires
            self.eps_reach(p, q),
            self.edge(Symbol::Empty, q, r),
        ensures
            self.eps_reach(p, r),
    {
        let n = choose|n: nat| self.eps_path(p, q, n);
        self.lemma_eps_path_extend(p, q, r, n);
    }

    /// `t` contains the target of every empty transition that leaves one of
    /// its members.
    pub open spec fn eps_closed(self, t: Set<State>) -> bool {
        forall|p: State, q: State|
            t.contains(p) && #[trigger] self.edge(Symbol::Empty, p, q) ==> t.contains(q)
    }

    /// A path that starts in a closed set ends in it.
    pub proof fn lemma_eps_path_stays(self, t: Set<State>, p: State, q: State, n: nat)
        requires
            self.eps_closed(t),
            t.contains(p),
            self.eps_path(p, q, n),
        ensures
            t.contains(q),
        decreases n,
    {
        if n > 0 {
            let r = choose|r: State|
                self.eps_path(p, r, (n - 1) as nat) && #[trigger] self.edge(Symbol::Empty, r, q);
            self.lemma_eps_path_stays(t, p, r, (n - 1) as nat);
        }
    }

    /// The closure of `s` is the least closed set that contains `s`.
    pub proof fn lemma_closure_least(self, s: Set<State>, t: Set<State>)
        requires
            s.subset_of(t),
            self.eps_closed(t),
        ensures
            self.closure(s).subset_of(t),
    {
        assert forall|q: State| self.closure(s).contains(q) implies t.contains(q) by {
            let p = choose|p: State| s.contains(p) && self.eps_reach(p, q);
            let n = choose|n: nat| self.eps_path(p, q, n);
            self.lemma_eps_path_stays(t, p, q, n);
        }
    }

    /// The closure of a set is closed.
    pub proof fn lemma_closure_closed(self, s: Set<State>)
        ensures
            self.eps_closed(self.closure(s)),
    {
        assert forall|p: State, q: State|
            self.closure(s).contains(p) && #[trigger] self.edge(
                Symbol::Empty,
                p,
                q,
            ) implies self.closure(s).contains(q) by {
            let origin = choose|origin: State| s.contains(origin) && self.eps_reach(origin, p);
            self.lemma_eps_reach_edge(origin, p, q);
        }
    }

    /// Epsilon-closure is extensive: every set is part of its closure.
    pub proof fn lemma_closure_extensive(self, s: Set<State>)
        ensures
            s.subset_of(self.closure(s)),
    {
        assert forall|p: State| s.contains(p) implies self.closure(s).contains(p) by {
            self.lemma_eps_reach_refl(p);
        }
    }

    /// Epsilon-closure is idempotent: closing a closure adds nothing.
    pub proof fn lemma_closure_idempotent(self, s: Set<State>)
        ensures
            self.closure(self.closure(s)) == self.closure(s),
    {
        self.lemma_closure_closed(s);
        self.lemma_closure_least(self.closure(s), self.closure(s));
        self.lemma_closure_extensive(self.closure(s));
        assert(self.closure(self.closure(s)) =~= self.closure(s));
    }

    /// The closure of a union is the union of the closures.
    pub proof fn lemma_closure_union(self, s: Set<State>, t: Set<State>)
        ensures
            self.closure(s.union(t)) == self.closure(s).union(self.closure(t)),
    {
        assert forall|q: State|
            self.closure(s.union(t)).contains(q) <==> self.closure(s).union(
                self.closure(t),
            ).contains(q) by {
            if self.closure(s.union(t)).contains(q) {
                let p = choose|p: State| s.union(t).contains(p) && self.eps_reach(p, q);
                if s.contains(p) {
                    assert(self.closure(s).contains(q));
                } else {
                    assert(self.closure(t).contains(q));
                }
            }
            if self.closure(s).contains(q) {
                let p = choose|p: State| s.contains(p) && self.eps_reach(p, q);
                assert(s.union(t).contains(p));
            }
            if self.closure(t).contains(q) {
                let p = choose|p: State| t.contains(p) && self.eps_reach(p, q);
                assert(s.union(t).contains(p));
            }
        }
        assert(self.closure(s.union(t)) =~= self.closure(s).union(self.closure(t)));
    }

    /// The closure of the empty set is empty.
    pub proof fn lemma_closure_empty(self)
        ensures
            self.closure(Set::empty()) == Set::<State>::empty(),
    {
        assert(self.closure(Set::empty()) =~= Set::<State>::empty());
    }
}

} // verus!
