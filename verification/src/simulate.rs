//! Deterministic simulation of an automaton on an input string.

use crate::automaton::Automaton;
use crate::fa::FA;
use crate::state_set::State;
use crate::symbol::Symbol;
use crate::transition::Transition;
use vstd::prelude::*;
use vstd::std_specs::iter::IteratorSpec;

verus! {

impl Automaton {
    /// What `first_edge` finds: the smallest position among the first `n`
    /// whose transition leaves `p` under `sym`.
    pub proof fn lemma_first_edge(self, p: State, sym: Symbol, n: nat)
        requires
            n <= self.delta.len(),
        ensures
            match self.first_edge(p, sym, n) {
                Some(i) => 0 <= i < n && self.delta[i].start == p && self.delta[i].sym == sym
                    && forall|j: int|
                    0 <= j < i ==> !((#[trigger] self.delta[j]).start == p && self.delta[j].sym
                        == sym),
                None => forall|j: int|
                    0 <= j < n ==> !((#[trigger] self.delta[j]).start == p && self.delta[j].sym
                        == sym),
            },
        decreases n,
    {
        if n > 0 {
            self.lemma_first_edge(p, sym, (n - 1) as nat);
        }
    }

    /// A transition found among the first `m` is still the first among more.
    pub proof fn lemma_first_edge_stable(self, p: State, sym: Symbol, m: nat, n: nat)
        requires
            m <= n,
            self.first_edge(p, sym, m) is Some,
        ensures
            self.first_edge(p, sym, n) == self.first_edge(p, sym, m),
        decreases n - m,
    {
        if m < n {
            self.lemma_first_edge_stable(p, sym, m, (n - 1) as nat);
        }
    }

    /// Once the walk is stuck on a prefix, it is stuck on the whole word.
    pub proof fn lemma_walk_stuck(self, w: Seq<char>, k: int)
        requires
            0 <= k <= w.len(),
            self.walk(w.take(k)) is None,
        ensures
            self.walk(w) is None,
        decreases w.len() - k,
    {
        if k < w.len() {
            assert(w.take(k + 1).drop_last() =~= w.take(k));
            self.lemma_walk_stuck(w, k + 1);
        } else {
            assert(w.take(k) =~= w);
        }
    }

    /// Without empty transitions, nothing but the state itself is reached
    /// without reading input.
    pub proof fn lemma_closure_without_eps(self, s: Set<State>)
        requires
            forall|i: int| 0 <= i < self.delta.len() ==> (#[trigger] self.delta[i]).sym is Char,
        ensures
            self.closure(s) == s,
    {
        assert(self.eps_closed(s)) by {
            assert forall|p: State, q: State|
                s.contains(p) && #[trigger] self.edge(Symbol::Empty, p, q) implies s.contains(
                q,
            ) by {
                let t = Transition { sym: Symbol::Empty, start: p, end: q };
                let i = choose|i: int| 0 <= i < self.delta.len() && self.delta[i] == t;
                assert(self.delta[i].sym is Char);
            }
        }
        self.lemma_closure_least(s, s);
        self.lemma_closure_extensive(s);
        assert(self.closure(s) =~= s);
    }

    /// On a deterministic automaton the set of states after reading `w` is
    /// the single state the walk reaches, or empty when the walk is stuck.
    pub proof fn lemma_run_is_walk(self, w: Seq<char>)
        requires
            self.deterministic(),
        ensures
            self.run(w) == match self.walk(w) {
                Some(q) => set![q],
                None => Set::<State>::empty(),
            },
        decreases w.len(),
    {
        if w.len() == 0 {
            self.lemma_closure_without_eps(set![self.starting]);
        } else {
            let head = w.drop_last();
            let sym = Symbol::Char(w.last());
            self.lemma_run_is_walk(head);
            let moved = self.moves(self.run(head), sym);
            self.lemma_closure_without_eps(moved);
            match self.walk(head) {
                None => {
                    assert(moved =~= Set::<State>::empty());
                },
                Some(p) => {
                    self.lemma_first_edge(p, sym, self.delta.len());
                    match self.first_edge(p, sym, self.delta.len()) {
                        None => {
                            assert forall|q: State| !moved.contains(q) by {
                                if moved.contains(q) {
                                    let source = choose|source: State|
                                        self.run(head).contains(source) && self.edge(sym, source, q);
                                    let t = Transition { sym, start: p, end: q };
                                    let j = choose|j: int|
                                        0 <= j < self.delta.len() && self.delta[j] == t;
                                    assert(self.delta[j].start == p);
                                }
                            }
                            assert(moved =~= Set::<State>::empty());
                        },
                        Some(i) => {
                            let target = self.delta[i].end;
                            assert forall|q: State| moved.contains(q) <==> q == target by {
                                if moved.contains(q) {
                                    let source = choose|source: State|
                                        self.run(head).contains(source) && self.edge(sym, source, q);
                                    let t = Transition { sym, start: p, end: q };
                                    let j = choose|j: int|
                                        0 <= j < self.delta.len() && self.delta[j] == t;
                                    assert(self.delta[j].start == self.delta[i].start);
                                    if i < j {
                                        assert(false);
                                    }
                                    if j < i {
                                        assert(false);
                                    }
                                }
                                if q == target {
                                    assert(self.delta[i] == Transition { sym, start: p, end: q });
                                    assert(self.run(head).contains(p) && self.edge(sym, p, q));
                                }
                            }
                            assert(moved =~= set![target]);
                        },
                    }
                },
            }
        }
    }

    /// On a deterministic automaton the simulation decides the language.
    pub proof fn lemma_simulate_decides(self, w: Seq<char>)
        requires
            self.deterministic(),
        ensures
            self.simulate(w) == self.accepts(w),
    {
        self.lemma_run_is_walk(w);
        match self.walk(w) {
            None => {},
            Some(q) => {
                assert(self.run(w).contains(q));
            },
        }
    }
}

impl FA {
    /// Finds the first transition that leaves `p` under the label `sym`.
    pub fn find_edge(&self, p: State, sym: Symbol) -> (r: Option<Transition>)
        ensures
            r == match self@.first_edge(p, sym, self@.delta.len()) {
                Some(i) => Some(self@.delta[i]),
                None => None,
            },
    {
        let delta = self.delta();
        let mut i: usize = 0;
        while i < delta.len()
            invariant
                delta@ == self@.delta,
                i <= delta@.len(),
                self@.first_edge(p, sym, i as nat) is None,
            decreases delta@.len() - i,
        {
            let t = delta[i];
            if t.start == p && t.sym == sym {
                proof {
                    let a = self@;
                    assert(a.first_edge(p, sym, (i + 1) as nat) == Some(i as int));
                    a.lemma_first_edge_stable(p, sym, (i + 1) as nat, a.delta.len());
                }
                return Some(t);
            }
            i += 1;
        }
        None
    }

    /// Runs the automaton on `string` as a deterministic machine: from the
    /// starting state, each character is consumed by the first transition
    /// that leaves the current state under that character.  The string is
    /// rejected as soon as a character has no such transition; otherwise it
    /// is accepted when the state reached at the end is accepting.  Empty
    /// transitions are never followed.
    ///
    /// On a deterministic automaton the verdict is membership in the
    /// language, see [`Automaton::lemma_simulate_decides`].
    pub fn dfa_accepts(&self, string: String) -> (b: bool)
        ensures
            b == self@.simulate(string@),
    {
        let ghost a = self@;
        let ghost w = string@;
        let mut cur = self.starting();
        let mut chars = string.as_str().chars();
        let ghost mut k: int = 0;
        proof {
            assert(w.take(0) =~= Seq::<char>::empty());
        }
        loop
            invariant
                a == self@,
                w == string@,
                0 <= k <= w.len(),
                chars.remaining() == w.skip(k),
                a.walk(w.take(k)) == Some(cur),
            ensures
                k == w.len(),
                a.walk(w) == Some(cur),
            decreases w.len() - k,
        {
            let ghost before = chars;
            match chars.next() {
                None => {
                    proof {
                        assert(w.take(k) =~= w);
                    }
                    break ;
                },
                Some(c) => {
                    proof {
                        assert(c == w[k]);
                        assert(w.skip(k).drop_first() =~= w.skip(k + 1));
                        assert(w.take(k + 1).drop_last() =~= w.take(k));
                    }
                    match self.find_edge(cur, Symbol::Char(c)) {
                        Some(t) => {
                            cur = t.end;
                        },
                        None => {
                            proof {
                                a.lemma_walk_stuck(w, k + 1);
                            }
                            return false;
                        },
                    }
                    proof {
                        k = k + 1;
                    }
                },
            }
        }
        self.is_accepting(cur)
    }
}

} // verus!
