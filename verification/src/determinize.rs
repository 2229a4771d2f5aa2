//! The subset construction: from a nondeterministic automaton to a
//! deterministic one with the same language.

use crate::automaton::Automaton;
use crate::closure::{lemma_targets, targets};
use crate::fa::FA;
use crate::state_set::{strictly_increasing, State, StateSet};
use crate::subsets::{all_within, distinct, lemma_distinct_subsets_bound, lemma_pow2_monotone};
use crate::symbol::{in_alphabet, nth_alphabet_char, Symbol, ALPHABET_FIRST, ALPHABET_SIZE};
use crate::transition::{SetEdge, SetTransition, Transition};
use vstd::arithmetic::power2::pow2;
use vstd::prelude::*;

verus! {

/// Position of the character `c` in the alphabet.
pub open spec fn alphabet_index(c: char) -> int {
    c as int - ALPHABET_FIRST as int
}

/// The character of a label; the empty symbol has none and is given the
/// first character of the alphabet.
pub open spec fn label_char(sym: Symbol) -> char {
    match sym {
        Symbol::Char(c) => c,
        Symbol::Empty => ALPHABET_FIRST,
    }
}

/// `t1` comes before `t2` when ordered by starting state, then by label.
pub open spec fn edge_before(t1: Transition, t2: Transition) -> bool {
    t1.start < t2.start || (t1.start == t2.start && label_char(t1.sym) < label_char(t2.sym))
}

/// The sets that a table of canonical sets stands for.
pub open spec fn sets_of(table: Seq<StateSet>) -> Seq<Set<State>> {
    table.map_values(|s: StateSet| s@)
}

/// The edges that a list of set transitions stands for.
pub open spec fn edges_of(moves: Seq<SetTransition>) -> Seq<SetEdge> {
    moves.map_values(|m: SetTransition| m@)
}

/// Position of the set `s` in `table`.
pub open spec fn index_in(table: Seq<Set<State>>, s: Set<State>) -> int {
    choose|i: int| 0 <= i < table.len() && table[i] == s
}

/// The edge between table positions that `e` stands for.
pub open spec fn numbered_edge(table: Seq<Set<State>>, e: SetEdge) -> Transition {
    Transition {
        sym: e.sym,
        start: index_in(table, e.begin) as State,
        end: index_in(table, e.end) as State,
    }
}

/// The edges between table positions that `edges` stand for.
pub open spec fn numbered(table: Seq<Set<State>>, edges: Seq<SetEdge>) -> Seq<Transition> {
    edges.map_values(|e: SetEdge| numbered_edge(table, e))
}

/// In a table without repetition, a set is found at its own position.
pub proof fn lemma_index_in(table: Seq<Set<State>>, i: int)
    requires
        distinct(table),
        0 <= i < table.len(),
    ensures
        index_in(table, table[i]) == i,
{
    let j = index_in(table, table[i]);
    assert(0 <= j < table.len() && table[j] == table[i]);
    if j < i {
        assert(table[j] != table[i]);
    }
    if i < j {
        assert(table[i] != table[j]);
    }
}

/// The state `j` first occurs in `delta` as the end of a transition whose
/// predecessors all end in smaller states.
pub open spec fn discovered(delta: Seq<Transition>, j: int) -> bool {
    exists|k: int|
        0 <= k < delta.len() && (#[trigger] delta[k]).end == j && forall|l: int|
            0 <= l < k ==> (#[trigger] delta[l]).end < j
}

impl Automaton {
    /// Some member of `s` is accepting.
    pub open spec fn accepting_subset(self, s: Set<State>) -> bool {
        exists|q: State| s.contains(q) && self.accepting.contains(q)
    }

    /// `t` joins two entries of `table` the way the subset construction
    /// demands: its label is a character of the alphabet under which the
    /// starting entry can move, and its end is the entry reached.
    pub open spec fn subset_edge(self, table: Seq<Set<State>>, t: Transition) -> bool {
        &&& t.sym is Char
        &&& in_alphabet(label_char(t.sym))
        &&& t.start < table.len()
        &&& t.end < table.len()
        &&& self.moves(table[t.start as int], t.sym) != Set::<State>::empty()
        &&& table[t.end as int] == self.step(table[t.start as int], label_char(t.sym))
    }

    /// `delta` holds a transition from table entry `i` under `c`.
    pub open spec fn leaves_under(delta: Seq<Transition>, i: int, c: char) -> bool {
        exists|k: int|
            0 <= k < delta.len() && (#[trigger] delta[k]).start == i && delta[k].sym
                == Symbol::Char(c)
    }

    /// `table` and `delta` are the states and transitions of the subset
    /// automaton of `self`, numbered in order of discovery:
    ///
    /// * entry 0 is the closure of the starting state, and no set occurs
    ///   twice;
    /// * every later entry is first met as the end of a transition;
    /// * every transition is a [`subset_edge`](Self::subset_edge), and for
    ///   every entry and every character of the alphabet under which the
    ///   entry can move there is a transition;
    /// * the transitions are ordered by starting entry, then by character.
    pub open spec fn subset_automaton(
        self,
        table: Seq<Set<State>>,
        delta: Seq<Transition>,
    ) -> bool {
        &&& table.len() > 0
        &&& table[0] == self.closure(set![self.starting])
        &&& distinct(table)
        &&& forall|j: int| 0 < j < table.len() ==> #[trigger] discovered(delta, j)
        &&& forall|k: int| 0 <= k < delta.len() ==> self.subset_edge(table, #[trigger] delta[k])
        &&& forall|i: int, c: char|
            0 <= i < table.len() && in_alphabet(c) && self.moves(table[i], Symbol::Char(c))
                != Set::<State>::empty() ==> #[trigger] Self::leaves_under(delta, i, c)
        &&& forall|k: int, l: int|
            0 <= k < l < delta.len() ==> edge_before(#[trigger] delta[k], #[trigger] delta[l])
    }

    /// `d` is the deterministic automaton that the subset construction
    /// builds from `self`, with `table[i]` the set of states of `self` that
    /// state `i` of `d` stands for.
    pub open spec fn determinized_by(self, d: Automaton, table: Seq<Set<State>>) -> bool {
        &&& self.subset_automaton(table, d.delta)
        &&& d.states.len() == table.len()
        &&& forall|i: int| 0 <= i < d.states.len() ==> d.states[i] == i
        &&& d.starting == 0
        &&& strictly_increasing(d.accepting)
        &&& forall|i: State|
            d.accepting.contains(i) <==> (i < table.len() && self.accepting_subset(
                table[i as int],
            ))
    }

    /// The states that can occur in a set of the subset construction.
    pub open spec fn reachable_universe(self) -> Set<State> {
        targets(self.delta).insert(self.starting)
    }

    /// A closure adds only targets of transitions.
    pub proof fn lemma_closure_within(self, s: Set<State>)
        ensures
            self.closure(s).subset_of(s.union(targets(self.delta))),
    {
        let t = s.union(targets(self.delta));
        lemma_targets(self.delta);
        assert(self.eps_closed(t)) by {
            assert forall|p: State, q: State|
                t.contains(p) && #[trigger] self.edge(Symbol::Empty, p, q) implies t.contains(
                q,
            ) by {
                let tr = Transition { sym: Symbol::Empty, start: p, end: q };
                let i = choose|i: int| 0 <= i < self.delta.len() && self.delta[i] == tr;
                assert(targets(self.delta).contains(self.delta[i].end));
            }
        }
        self.lemma_closure_least(s, t);
    }

    /// A move enters only targets of transitions.
    pub proof fn lemma_moves_within(self, s: Set<State>, sym: Symbol)
        ensures
            self.moves(s, sym).subset_of(targets(self.delta)),
    {
        lemma_targets(self.delta);
        assert forall|q: State| self.moves(s, sym).contains(q) implies targets(
            self.delta,
        ).contains(q) by {
            let p = choose|p: State| s.contains(p) && self.edge(sym, p, q);
            let tr = Transition { sym, start: p, end: q };
            let i = choose|i: int| 0 <= i < self.delta.len() && self.delta[i] == tr;
            assert(targets(self.delta).contains(self.delta[i].end));
        }
    }

    /// The first entry of the table lies within the reachable universe.
    pub proof fn lemma_start_within(self)
        ensures
            self.closure(set![self.starting]).subset_of(self.reachable_universe()),
            self.closure(set![self.starting]).contains(self.starting),
            self.reachable_universe().finite(),
    {
        self.lemma_closure_within(set![self.starting]);
        self.lemma_closure_extensive(set![self.starting]);
        lemma_targets(self.delta);
        assert(set![self.starting].contains(self.starting));
    }

    /// Every step lies within the reachable universe, and is not empty when
    /// the move is not.
    pub proof fn lemma_step_within(self, s: Set<State>, c: char)
        ensures
            self.step(s, c).subset_of(self.reachable_universe()),
            self.moves(s, Symbol::Char(c)) != Set::<State>::empty() ==> self.step(s, c)
                != Set::<State>::empty(),
            self.moves(s, Symbol::Char(c)) == Set::<State>::empty() ==> self.step(s, c)
                == Set::<State>::empty(),
    {
        let m = self.moves(s, Symbol::Char(c));
        self.lemma_moves_within(s, Symbol::Char(c));
        self.lemma_closure_within(m);
        self.lemma_closure_extensive(m);
        if m != Set::<State>::empty() {
            assert(!(m =~= Set::<State>::empty()));
            let q = choose|q: State| m.contains(q);
            assert(self.step(s, c).contains(q));
        } else {
            self.lemma_closure_empty();
        }
    }

    /// Transitions ordered by start and label leave no state twice under
    /// the same label.
    pub proof fn lemma_subset_automaton_deterministic(
        self,
        table: Seq<Set<State>>,
        d: Automaton,
    )
        requires
            self.subset_automaton(table, d.delta),
        ensures
            d.deterministic(),
    {
        assert forall|i: int| 0 <= i < d.delta.len() implies (#[trigger] d.delta[i]).sym is Char by {
            assert(self.subset_edge(table, d.delta[i]));
        }
        assert forall|i: int, j: int| 0 <= i < j < d.delta.len() implies !((
        #[trigger] d.delta[i]).start == (#[trigger] d.delta[j]).start && d.delta[i].sym
            == d.delta[j].sym) by {
            assert(edge_before(d.delta[i], d.delta[j]));
        }
    }

    /// Every character that labels a transition belongs to the alphabet.
    pub open spec fn labelled_within_alphabet(self) -> bool {
        forall|i: int|
            0 <= i < self.delta.len() ==> in_alphabet(label_char((#[trigger] self.delta[i]).sym))
    }

    /// Determinization preserves the verdict on `w`: every character of `w`
    /// belongs to the alphabet, or no transition is labelled with a
    /// character outside it.
    pub open spec fn covers(self, w: Seq<char>) -> bool {
        over_alphabet(w) || self.labelled_within_alphabet()
    }

    /// No move is possible under a character that labels no transition.
    pub proof fn lemma_moves_foreign(self, s: Set<State>, c: char)
        requires
            self.labelled_within_alphabet(),
            !in_alphabet(c),
        ensures
            self.moves(s, Symbol::Char(c)) == Set::<State>::empty(),
    {
        let moved = self.moves(s, Symbol::Char(c));
        assert forall|q: State| !moved.contains(q) by {
            if moved.contains(q) {
                let p = choose|p: State| s.contains(p) && self.edge(Symbol::Char(c), p, q);
                let t = Transition { sym: Symbol::Char(c), start: p, end: q };
                let i = choose|i: int| 0 <= i < self.delta.len() && self.delta[i] == t;
                assert(in_alphabet(label_char(self.delta[i].sym)));
            }
        }
        assert(moved =~= Set::<State>::empty());
    }

    /// The walk of the deterministic automaton tracks the set of states the
    /// nondeterministic automaton may be in.
    pub proof fn lemma_determinized_walk(self, d: Automaton, table: Seq<Set<State>>, w: Seq<char>)
        requires
            self.determinized_by(d, table),
            self.covers(w),
        ensures
            match d.walk(w) {
                Some(i) => i < table.len() && table[i as int] == self.run(w),
                None => self.run(w) == Set::<State>::empty(),
            },
        decreases w.len(),
    {
        if w.len() > 0 {
            let head = w.drop_last();
            let c = w.last();
            let sym = Symbol::Char(c);
            if over_alphabet(w) {
                assert forall|i: int| 0 <= i < head.len() implies in_alphabet(#[trigger] head[i]) by {
                    assert(head[i] == w[i]);
                }
                assert(in_alphabet(w[w.len() - 1]));
            }
            self.lemma_determinized_walk(d, table, head);
            if !in_alphabet(c) {
                self.lemma_moves_foreign(self.run(head), c);
            }
            match d.walk(head) {
                None => {
                    self.lemma_step_within(self.run(head), c);
                },
                Some(i) => {
                    d.lemma_first_edge(i, sym, d.delta.len());
                    self.lemma_step_within(table[i as int], c);
                    match d.first_edge(i, sym, d.delta.len()) {
                        Some(k) => {
                            assert(self.subset_edge(table, d.delta[k]));
                        },
                        None => {
                            if self.moves(table[i as int], sym) != Set::<State>::empty() {
                                assert(Self::leaves_under(d.delta, i as int, c));
                                let k = choose|k: int|
                                    0 <= k < d.delta.len() && (#[trigger] d.delta[k]).start == i
                                        && d.delta[k].sym == Symbol::Char(c);
                                assert(false);
                            }
                        },
                    }
                },
            }
        }
    }

    /// Determinization preserves the language: the deterministic automaton
    /// accepts a word exactly when the given one does, and its simulation
    /// says so.  This holds of every word over the alphabet, and of every
    /// word at all when no transition of the given one is labelled with a
    /// character outside the alphabet.
    pub proof fn lemma_determinized_language(
        self,
        d: Automaton,
        table: Seq<Set<State>>,
        w: Seq<char>,
    )
        requires
            self.determinized_by(d, table),
            self.covers(w),
        ensures
            d.accepts(w) == self.accepts(w),
            d.simulate(w) == self.accepts(w),
    {
        self.lemma_determinized_walk(d, table, w);
        self.lemma_subset_automaton_deterministic(table, d);
        d.lemma_simulate_decides(w);
        match d.walk(w) {
            None => {},
            Some(i) => {
                assert(d.accepting.contains(i) <==> self.accepting_subset(table[i as int]));
            },
        }
    }

    /// Every state and transition of a determinized automaton is in order.
    pub proof fn lemma_determinized_valid(self, d: Automaton, table: Seq<Set<State>>)
        requires
            self.determinized_by(d, table),
        ensures
            d.valid(),
            d.deterministic(),
            d.states.no_duplicates(),
            d.states.len() == table.len(),
    {
        self.lemma_subset_automaton_deterministic(table, d);
        assert(d.states[0] == 0);
        assert forall|i: int| 0 <= i < d.accepting.len() implies d.states.contains(
            #[trigger] d.accepting[i],
        ) by {
            let q = d.accepting[i];
            assert(d.accepting.contains(q));
            assert(d.states[q as int] == q);
        }
        assert forall|i: int| 0 <= i < d.delta.len() implies d.states.contains(
            (#[trigger] d.delta[i]).start,
        ) && d.states.contains(d.delta[i].end) by {
            assert(self.subset_edge(table, d.delta[i]));
            assert(d.states[d.delta[i].start as int] == d.delta[i].start);
            assert(d.states[d.delta[i].end as int] == d.delta[i].end);
        }
    }

    /// Every entry of the table of a subset automaton lies within the
    /// reachable universe.
    pub proof fn lemma_table_within(self, table: Seq<Set<State>>, delta: Seq<Transition>)
        requires
            self.subset_automaton(table, delta),
        ensures
            all_within(table, self.reachable_universe()),
    {
        assert forall|i: int| 0 <= i < table.len() implies (#[trigger] table[i]).subset_of(
            self.reachable_universe(),
        ) by {
            if i == 0 {
                self.lemma_start_within();
            } else {
                assert(discovered(delta, i));
                let k = choose|k: int|
                    0 <= k < delta.len() && (#[trigger] delta[k]).end == i && forall|l: int|
                        0 <= l < k ==> (#[trigger] delta[l]).end < i;
                assert(self.subset_edge(table, delta[k]));
                self.lemma_step_within(table[delta[k].start as int], label_char(delta[k].sym));
            }
        }
    }

    /// Determinization never produces more states than there are sets of
    /// states of the given automaton.
    pub proof fn lemma_determinized_size(self, d: Automaton, table: Seq<Set<State>>)
        requires
            self.valid(),
            self.determinized_by(d, table),
        ensures
            d.states.len() <= pow2(self.state_set().len()),
    {
        let u = self.reachable_universe();
        self.lemma_table_within(table, d.delta);
        self.lemma_start_within();
        lemma_distinct_subsets_bound(table, u);
        vstd::seq_lib::seq_to_set_is_finite(self.states);
        assert forall|q: State| u.contains(q) implies self.state_set().contains(q) by {
            if q != self.starting {
                let ends = self.delta.map_values(|t: Transition| t.end);
                let i = choose|i: int| 0 <= i < ends.len() && ends[i] == q;
                assert(self.states.contains(self.delta[i].end));
            }
        }
        vstd::set_lib::lemma_len_subset(u, self.state_set());
        lemma_pow2_monotone(u.len(), self.state_set().len());
    }
}

/// Every character of `w` belongs to the alphabet.
pub open spec fn over_alphabet(w: Seq<char>) -> bool {
    forall|i: int| 0 <= i < w.len() ==> in_alphabet(#[trigger] w[i])
}

impl Automaton {
    /// The state of the subset construction while it runs: the entries
    /// before `k` are expanded under every character, entry `k` under the
    /// first `a` characters of the alphabet, and no other entry at all.
    pub open spec fn expanded_upto(
        self,
        table: Seq<Set<State>>,
        delta: Seq<Transition>,
        k: int,
        a: int,
    ) -> bool {
        &&& table.len() > 0
        &&& table[0] == self.closure(set![self.starting])
        &&& distinct(table)
        &&& all_within(table, self.reachable_universe())
        &&& forall|j: int| 0 < j < table.len() ==> #[trigger] discovered(delta, j)
        &&& forall|m: int| 0 <= m < delta.len() ==> self.subset_edge(table, #[trigger] delta[m])
        &&& forall|m: int|
            0 <= m < delta.len() ==> (#[trigger] delta[m]).start < k || (delta[m].start == k
                && alphabet_index(label_char(delta[m].sym)) < a)
        &&& forall|i: int, c: char|
            0 <= i < table.len() && in_alphabet(c) && (i < k || (i == k && alphabet_index(c) < a))
                && self.moves(table[i], Symbol::Char(c)) != Set::<State>::empty()
                ==> #[trigger] Self::leaves_under(delta, i, c)
        &&& forall|m: int, n: int|
            0 <= m < n < delta.len() ==> edge_before(#[trigger] delta[m], #[trigger] delta[n])
    }

    /// The construction starts with the closure of the starting state.
    pub proof fn lemma_expand_init(self)
        ensures
            self.expanded_upto(seq![self.closure(set![self.starting])], Seq::empty(), 0, 0),
    {
        self.lemma_start_within();
    }

    /// Nothing is recorded for a character under which the entry cannot
    /// move.
    pub proof fn lemma_expand_skip(
        self,
        table: Seq<Set<State>>,
        delta: Seq<Transition>,
        k: int,
        a: int,
        c: char,
    )
        requires
            self.expanded_upto(table, delta, k, a),
            0 <= k < table.len(),
            in_alphabet(c),
            alphabet_index(c) == a,
            self.moves(table[k], Symbol::Char(c)) == Set::<State>::empty(),
        ensures
            self.expanded_upto(table, delta, k, a + 1),
    {
        assert forall|i: int, c2: char|
            0 <= i < table.len() && in_alphabet(c2) && (i < k || (i == k && alphabet_index(c2) < a
                + 1)) && self.moves(table[i], Symbol::Char(c2))
                != Set::<State>::empty() implies #[trigger] Self::leaves_under(delta, i, c2) by {
            if i == k && alphabet_index(c2) == a {
                assert(c2 == c);
            }
        }
    }

    /// A transition to the entry `j` is recorded when the set reached is
    /// already in the table.
    pub proof fn lemma_expand_known(
        self,
        table: Seq<Set<State>>,
        delta: Seq<Transition>,
        k: int,
        a: int,
        c: char,
        j: int,
    )
        requires
            self.expanded_upto(table, delta, k, a),
            0 <= k < table.len(),
            0 <= j < table.len(),
            table.len() <= usize::MAX,
            in_alphabet(c),
            alphabet_index(c) == a,
            self.moves(table[k], Symbol::Char(c)) != Set::<State>::empty(),
            table[j] == self.step(table[k], c),
        ensures
            self.expanded_upto(
                table,
                delta.push(Transition { sym: Symbol::Char(c), start: k as State, end: j as State }),
                k,
                a + 1,
            ),
    {
        let t = Transition { sym: Symbol::Char(c), start: k as State, end: j as State };
        let after = delta.push(t);
        assert forall|x: int| 0 < x < table.len() implies #[trigger] discovered(after, x) by {
            assert(discovered(delta, x));
            let m = choose|m: int|
                0 <= m < delta.len() && (#[trigger] delta[m]).end == x && forall|l: int|
                    0 <= l < m ==> (#[trigger] delta[l]).end < x;
            assert(after[m] == delta[m]);
            assert forall|l: int| 0 <= l < m implies (#[trigger] after[l]).end < x by {
                assert(after[l] == delta[l]);
            }
        }
        assert forall|m: int| 0 <= m < after.len() implies self.subset_edge(
            table,
            #[trigger] after[m],
        ) by {
            if m < delta.len() {
                assert(after[m] == delta[m]);
            }
        }
        assert forall|m: int| 0 <= m < after.len() implies (#[trigger] after[m]).start < k || (
        after[m].start == k && alphabet_index(label_char(after[m].sym)) < a + 1) by {
            if m < delta.len() {
                assert(after[m] == delta[m]);
            }
        }
        assert forall|i: int, c2: char|
            0 <= i < table.len() && in_alphabet(c2) && (i < k || (i == k && alphabet_index(c2) < a
                + 1)) && self.moves(table[i], Symbol::Char(c2))
                != Set::<State>::empty() implies #[trigger] Self::leaves_under(after, i, c2) by {
            if i == k && alphabet_index(c2) == a {
                assert(c2 == c);
                assert(after[delta.len() as int] == t);
            } else {
                assert(Self::leaves_under(delta, i, c2));
                let m = choose|m: int|
                    0 <= m < delta.len() && (#[trigger] delta[m]).start == i && delta[m].sym
                        == Symbol::Char(c2);
                assert(after[m] == delta[m]);
            }
        }
        assert forall|m: int, n: int| 0 <= m < n < after.len() implies edge_before(
            #[trigger] after[m],
            #[trigger] after[n],
        ) by {
            assert(after[m] == delta[m]);
            if n < delta.len() {
                assert(after[n] == delta[n]);
            }
        }
    }

    /// A new entry and a transition to it are recorded when the set reached
    /// is not yet in the table.
    pub proof fn lemma_expand_new(
        self,
        table: Seq<Set<State>>,
        delta: Seq<Transition>,
        k: int,
        a: int,
        c: char,
        u: Set<State>,
    )
        requires
            self.expanded_upto(table, delta, k, a),
            0 <= k < table.len(),
            table.len() < usize::MAX,
            in_alphabet(c),
            alphabet_index(c) == a,
            self.moves(table[k], Symbol::Char(c)) != Set::<State>::empty(),
            u == self.step(table[k], c),
            forall|j: int| 0 <= j < table.len() ==> table[j] != u,
        ensures
            self.expanded_upto(
                table.push(u),
                delta.push(
                    Transition { sym: Symbol::Char(c), start: k as State, end: table.len() as State },
                ),
                k,
                a + 1,
            ),
    {
        let fresh = table.len() as int;
        let t = Transition { sym: Symbol::Char(c), start: k as State, end: fresh as State };
        let grown = table.push(u);
        let after = delta.push(t);
        self.lemma_step_within(table[k], c);
        assert forall|i: int, j: int| 0 <= i < j < grown.len() implies grown[i] != grown[j] by {
            assert(grown[i] == table[i]);
            if j < table.len() {
                assert(grown[j] == table[j]);
            }
        }
        assert forall|i: int| 0 <= i < grown.len() implies (#[trigger] grown[i]).subset_of(
            self.reachable_universe(),
        ) by {
            if i < table.len() {
                assert(grown[i] == table[i]);
            }
        }
        assert forall|x: int| 0 < x < grown.len() implies #[trigger] discovered(after, x) by {
            if x < table.len() {
                assert(discovered(delta, x));
                let m = choose|m: int|
                    0 <= m < delta.len() && (#[trigger] delta[m]).end == x && forall|l: int|
                        0 <= l < m ==> (#[trigger] delta[l]).end < x;
                assert(after[m] == delta[m]);
                assert forall|l: int| 0 <= l < m implies (#[trigger] after[l]).end < x by {
                    assert(after[l] == delta[l]);
                }
            } else {
                let m = delta.len() as int;
                assert(after[m] == t);
                assert forall|l: int| 0 <= l < m implies (#[trigger] after[l]).end < x by {
                    assert(after[l] == delta[l]);
                    assert(self.subset_edge(table, delta[l]));
                }
            }
        }
        assert forall|m: int| 0 <= m < after.len() implies self.subset_edge(
            grown,
            #[trigger] after[m],
        ) by {
            if m < delta.len() {
                assert(after[m] == delta[m]);
                assert(self.subset_edge(table, delta[m]));
                assert(grown[delta[m].start as int] == table[delta[m].start as int]);
                assert(grown[delta[m].end as int] == table[delta[m].end as int]);
            } else {
                assert(grown[k] == table[k]);
                assert(grown[fresh] == u);
            }
        }
        assert forall|m: int| 0 <= m < after.len() implies (#[trigger] after[m]).start < k || (
        after[m].start == k && alphabet_index(label_char(after[m].sym)) < a + 1) by {
            if m < delta.len() {
                assert(after[m] == delta[m]);
            }
        }
        assert forall|i: int, c2: char|
            0 <= i < grown.len() && in_alphabet(c2) && (i < k || (i == k && alphabet_index(c2) < a
                + 1)) && self.moves(grown[i], Symbol::Char(c2))
                != Set::<State>::empty() implies #[trigger] Self::leaves_under(after, i, c2) by {
            assert(grown[i] == table[i]);
            if i == k && alphabet_index(c2) == a {
                assert(c2 == c);
                assert(after[delta.len() as int] == t);
            } else {
                assert(Self::leaves_under(delta, i, c2));
                let m = choose|m: int|
                    0 <= m < delta.len() && (#[trigger] delta[m]).start == i && delta[m].sym
                        == Symbol::Char(c2);
                assert(after[m] == delta[m]);
            }
        }
        assert forall|m: int, n: int| 0 <= m < n < after.len() implies edge_before(
            #[trigger] after[m],
            #[trigger] after[n],
        ) by {
            assert(after[m] == delta[m]);
            if n < delta.len() {
                assert(after[n] == delta[n]);
            }
        }
    }

    /// When an entry is expanded under the whole alphabet, the next entry
    /// is due.
    pub proof fn lemma_expand_next(self, table: Seq<Set<State>>, delta: Seq<Transition>, k: int)
        requires
            self.expanded_upto(table, delta, k, ALPHABET_SIZE as int),
        ensures
            self.expanded_upto(table, delta, k + 1, 0),
    {
        assert forall|m: int| 0 <= m < delta.len() implies (#[trigger] delta[m]).start < k + 1 || (
        delta[m].start == k + 1 && alphabet_index(label_char(delta[m].sym)) < 0) by {}
        assert forall|i: int, c: char|
            0 <= i < table.len() && in_alphabet(c) && (i < k + 1 || (i == k + 1 && alphabet_index(c)
                < 0)) && self.moves(table[i], Symbol::Char(c))
                != Set::<State>::empty() implies #[trigger] Self::leaves_under(delta, i, c) by {
            assert(i < k || (i == k && alphabet_index(c) < ALPHABET_SIZE));
        }
    }

    /// When every entry is expanded, the subset automaton is complete.
    pub proof fn lemma_expand_done(self, table: Seq<Set<State>>, delta: Seq<Transition>)
        requires
            self.expanded_upto(table, delta, table.len() as int, 0),
        ensures
            self.subset_automaton(table, delta),
    {
    }
}

/// Looks `s` up in `table`; returns the position of the first entry with
/// the same members.
fn find_set(table: &Vec<StateSet>, s: &StateSet) -> (r: Option<usize>)
    requires
        forall|i: int| 0 <= i < table@.len() ==> (#[trigger] table@[i]).wf(),
        s.wf(),
    ensures
        match r {
            Some(i) => i < table@.len() && sets_of(table@)[i as int] == s@,
            None => forall|j: int| 0 <= j < table@.len() ==> (#[trigger] sets_of(table@)[j]) != s@,
        },
{
    let mut i: usize = 0;
    while i < table.len()
        invariant
            forall|j: int| 0 <= j < table@.len() ==> (#[trigger] table@[j]).wf(),
            s.wf(),
            i <= table@.len(),
            forall|j: int| 0 <= j < i ==> (#[trigger] sets_of(table@)[j]) != s@,
        decreases table@.len() - i,
    {
        if table[i].equals(s) {
            return Some(i);
        }
        i += 1;
    }
    None
}

impl FA {
    /// Tells whether some member of `s` is an accepting state.
    pub fn any_accepting(&self, s: &StateSet) -> (b: bool)
        requires
            s.wf(),
        ensures
            b == self@.accepting_subset(s@),
    {
        let accepting = self.accepting();
        let mut i: usize = 0;
        while i < accepting.len()
            invariant
                s.wf(),
                accepting@ == self@.accepting,
                i <= accepting@.len(),
                forall|j: int| 0 <= j < i ==> !s@.contains(#[trigger] accepting@[j]),
            decreases accepting@.len() - i,
        {
            if s.contains(&accepting[i]) {
                proof {
                    assert(self@.accepting.contains(accepting@[i as int]));
                }
                return true;
            }
            i += 1;
        }
        proof {
            if self@.accepting_subset(s@) {
                let q = choose|q: State| s@.contains(q) && self@.accepting.contains(q);
                let j = choose|j: int| 0 <= j < accepting@.len() && accepting@[j] == q;
                assert(!s@.contains(accepting@[j]));
            }
        }
        false
    }

    /// Explores the sets of states that the automaton can be in.
    ///
    /// The table starts with the epsilon-closure of the starting state.
    /// Each entry in turn is expanded under every character of the
    /// alphabet: where the entry can move, the closure of the move is looked
    /// up in the table, appended if it is new, and the transition between
    /// the two sets is recorded.
    ///
    /// Returns the table and the recorded transitions.  Numbering every set
    /// by its position in the table turns them into the subset automaton.
    pub fn subset_construction(&self) -> (r: (Vec<StateSet>, Vec<SetTransition>))
        requires
            self.wf(),
        ensures
            forall|i: int| 0 <= i < r.0@.len() ==> (#[trigger] r.0@[i]).wf(),
            forall|m: int|
                0 <= m < r.1@.len() ==> (#[trigger] r.1@[m]).wf() && sets_of(r.0@).contains(
                    r.1@[m]@.begin,
                ) && sets_of(r.0@).contains(r.1@[m]@.end),
            self@.subset_automaton(sets_of(r.0@), numbered(sets_of(r.0@), edges_of(r.1@))),
    {
        let ghost nfa = self@;
        let ghost universe = nfa.reachable_universe();
        let ghost bound = pow2(universe.len());
        let start_set = self.epsilon_closure(self.starting());
        let mut table: Vec<StateSet> = Vec::new();
        table.push(start_set);
        let mut moves: Vec<SetTransition> = Vec::new();
        let ghost mut ids: Seq<Transition> = Seq::empty();
        let mut k: usize = 0;
        proof {
            nfa.lemma_expand_init();
            nfa.lemma_start_within();
            assert(sets_of(table@) =~= seq![nfa.closure(set![nfa.starting])]);
            lemma_distinct_subsets_bound(sets_of(table@), universe);
        }
        while k < table.len()
            invariant
                self.wf(),
                nfa == self@,
                universe == nfa.reachable_universe(),
                universe.finite(),
                bound == pow2(universe.len()),
                k <= table@.len() <= bound,
                forall|i: int| 0 <= i < table@.len() ==> (#[trigger] table@[i]).wf(),
                forall|m: int| 0 <= m < moves@.len() ==> (#[trigger] moves@[m]).wf(),
                nfa.expanded_upto(sets_of(table@), ids, k as int, 0),
                ids.len() == moves@.len(),
                forall|m: int|
                    0 <= m < ids.len() ==> (#[trigger] ids[m]).sym == moves@[m].sym && sets_of(
                        table@,
                    )[ids[m].start as int] == moves@[m]@.begin && sets_of(
                        table@,
                    )[ids[m].end as int] == moves@[m]@.end,
            decreases bound - k,
        {
            let mut a: usize = 0;
            while a < ALPHABET_SIZE
                invariant
                    self.wf(),
                    nfa == self@,
                    universe == nfa.reachable_universe(),
                    universe.finite(),
                    bound == pow2(universe.len()),
                    k < table@.len() <= bound,
                    a <= ALPHABET_SIZE,
                    forall|i: int| 0 <= i < table@.len() ==> (#[trigger] table@[i]).wf(),
                    forall|m: int| 0 <= m < moves@.len() ==> (#[trigger] moves@[m]).wf(),
                    nfa.expanded_upto(sets_of(table@), ids, k as int, a as int),
                    ids.len() == moves@.len(),
                    forall|m: int|
                        0 <= m < ids.len() ==> (#[trigger] ids[m]).sym == moves@[m].sym && sets_of(
                            table@,
                        )[ids[m].start as int] == moves@[m]@.begin && sets_of(
                            table@,
                        )[ids[m].end as int] == moves@[m]@.end,
                decreases ALPHABET_SIZE - a,
            {
                let c = nth_alphabet_char(a);
                let sym = Symbol::Char(c);
                let ghost sets = sets_of(table@);
                let ghost ids_before = ids;
                let ghost moves_before = moves@;
                match self.delta_move(&table[k], sym) {
                    None => {
                        proof {
                            nfa.lemma_expand_skip(sets, ids, k as int, a as int, c);
                        }
                    },
                    Some(moved) => {
                        let reached = self.epsilon_closure_set(moved);
                        let begin = table[k].clone();
                        proof {
                            assert(sets.len() == table@.len());
                            assert(nfa.moves(sets[k as int], sym).len() > 0);
                            assert(Set::<State>::empty().len() == 0);
                            assert(reached@ == nfa.step(sets[k as int], c));
                        }
                        match find_set(&table, &reached) {
                            Some(j) => {
                                proof {
                                    assert(sets.len() == table.len());
                                    nfa.lemma_expand_known(sets, ids, k as int, a as int, c, j as int);
                                    ids = ids.push(Transition { sym, start: k, end: j });
                                }
                                moves.push(SetTransition::from(sym, begin, reached));
                            },
                            None => {
                                let fresh = table.len();
                                table.push(reached.clone());
                                proof {
                                    assert(sets_of(table@) =~= sets.push(reached@));
                                    assert(sets.len() + 1 == table.len());
                                    nfa.lemma_expand_new(sets, ids, k as int, a as int, c, reached@);
                                    ids = ids.push(Transition { sym, start: k, end: fresh });
                                    lemma_distinct_subsets_bound(sets_of(table@), universe);
                                }
                                moves.push(SetTransition::from(sym, begin, reached));
                            },
                        }
                        proof {
                            let sets_now = sets_of(table@);
                            assert forall|m: int| 0 <= m < ids.len() implies (#[trigger] ids[m]).sym
                                == moves@[m].sym && sets_now[ids[m].start as int]
                                == moves@[m]@.begin && sets_now[ids[m].end as int]
                                == moves@[m]@.end by {
                                if m < ids_before.len() {
                                    assert(ids[m] == ids_before[m]);
                                    assert(moves@[m] == moves_before[m]);
                                    assert(nfa.subset_edge(sets, ids_before[m]));
                                    assert(sets_now[ids[m].start as int] == sets[ids[m].start as int]);
                                    assert(sets_now[ids[m].end as int] == sets[ids[m].end as int]);
                                }
                            }
                        }
                    },
                }
                a += 1;
            }
            proof {
                nfa.lemma_expand_next(sets_of(table@), ids, k as int);
            }
            k += 1;
        }
        proof {
            let sets = sets_of(table@);
            let edges = edges_of(moves@);
            nfa.lemma_expand_done(sets, ids);
            assert forall|m: int| 0 <= m < ids.len() implies ids[m] == #[trigger] numbered(
                sets,
                edges,
            )[m] by {
                assert(nfa.subset_edge(sets, ids[m]));
                lemma_index_in(sets, ids[m].start as int);
                lemma_index_in(sets, ids[m].end as int);
            }
            assert(ids =~= numbered(sets, edges));
            assert forall|m: int| 0 <= m < moves@.len() implies sets.contains(moves@[m]@.begin)
                && sets.contains(moves@[m]@.end) by {
                assert(nfa.subset_edge(sets, ids[m]));
                assert(sets[ids[m].start as int] == moves@[m]@.begin);
                assert(sets[ids[m].end as int] == moves@[m]@.end);
            }
        }
        (table, moves)
    }

    /// Builds a deterministic automaton with the same language.
    ///
    /// The sets of states found by the subset construction become the
    /// states `0, 1, 2, ...` in order of discovery, with the closure of the
    /// starting state as state 0.  A state is accepting when its set holds
    /// an accepting state of this automaton.  This automaton is left
    /// untouched.
    pub fn dfa_from(&self) -> (d: Self)
        requires
            self.wf(),
        ensures
            d.wf(),
            exists|table: Seq<Set<State>>| self@.determinized_by(d@, table),
            d@.valid(),
            d@.deterministic(),
            forall|w: Seq<char>|
                #![trigger d@.accepts(w)]
                #![trigger d@.simulate(w)]
                self@.covers(w) ==> d@.accepts(w) == self@.accepts(w) && d@.simulate(w)
                    == self@.accepts(w),
            self@.valid() ==> d@.states.len() <= pow2(self@.state_set().len()),
    {
        let ghost nfa = self@;
        let (table, moves) = self.subset_construction();
        let ghost sets = sets_of(table@);
        let ghost ids = numbered(sets, edges_of(moves@));
        let mut fa = FA::new();
        let mut i: usize = 0;
        while i < table.len()
            invariant
                self.wf(),
                nfa == self@,
                sets == sets_of(table@),
                forall|j: int| 0 <= j < table@.len() ==> (#[trigger] table@[j]).wf(),
                fa.wf(),
                i <= table@.len(),
                fa@.starting == 0,
                fa@.delta == Seq::<Transition>::empty(),
                fa@.states.len() == i,
                forall|j: int| 0 <= j < i ==> fa@.states[j] == j,
                strictly_increasing(fa@.accepting),
                forall|q: State|
                    fa@.accepting.contains(q) <==> (q < i && nfa.accepting_subset(sets[q as int])),
            decreases table@.len() - i,
        {
            let ghost accepting_before = fa@.accepting;
            fa.add_state(i);
            if self.any_accepting(&table[i]) {
                fa.add_acceptor(i);
                proof {
                    let now = fa@.accepting;
                    assert(now == accepting_before.push(i));
                    assert forall|x: int, y: int| 0 <= x < y < now.len() implies now[x] < now[y] by {
                        assert(now[x] == accepting_before[x]);
                        assert(accepting_before.contains(accepting_before[x]));
                        if y < accepting_before.len() {
                            assert(now[y] == accepting_before[y]);
                        }
                    }
                    assert forall|q: State|
                        now.contains(q) <==> (q < i + 1 && nfa.accepting_subset(sets[q as int])) by {
                        if now.contains(q) {
                            let x = choose|x: int| 0 <= x < now.len() && now[x] == q;
                            if x < accepting_before.len() {
                                assert(accepting_before[x] == q);
                                assert(accepting_before.contains(q));
                            }
                        }
                        if q < i && nfa.accepting_subset(sets[q as int]) {
                            assert(accepting_before.contains(q));
                            let x = choose|x: int|
                                0 <= x < accepting_before.len() && accepting_before[x] == q;
                            assert(now[x] == q);
                        }
                        if q == i {
                            assert(now[accepting_before.len() as int] == q);
                        }
                    }
                }
            }
            i += 1;
        }
        let mut m: usize = 0;
        while m < moves.len()
            invariant
                sets == sets_of(table@),
                ids == numbered(sets, edges_of(moves@)),
                distinct(sets),
                forall|j: int| 0 <= j < table@.len() ==> (#[trigger] table@[j]).wf(),
                forall|x: int|
                    0 <= x < moves@.len() ==> (#[trigger] moves@[x]).wf() && sets.contains(
                        moves@[x]@.begin,
                    ) && sets.contains(moves@[x]@.end),
                fa.wf(),
                m <= moves@.len(),
                fa@.delta == ids.take(m as int),
                fa@.starting == 0,
                fa@.states.len() == table@.len(),
                forall|j: int| 0 <= j < fa@.states.len() ==> fa@.states[j] == j,
                strictly_increasing(fa@.accepting),
                forall|q: State|
                    fa@.accepting.contains(q) <==> (q < table@.len() && nfa.accepting_subset(
                        sets[q as int],
                    )),
            decreases moves@.len() - m,
        {
            let edge = &moves[m];
            let begin = find_set(&table, edge.begin());
            let end = find_set(&table, edge.end());
            proof {
                let b = choose|b: int| 0 <= b < sets.len() && sets[b] == edge@.begin;
                let e = choose|e: int| 0 <= e < sets.len() && sets[e] == edge@.end;
                assert(begin is Some);
                assert(end is Some);
                lemma_index_in(sets, begin->0 as int);
                lemma_index_in(sets, end->0 as int);
                assert(edges_of(moves@)[m as int] == edge@);
                assert(ids[m as int] == numbered_edge(sets, edge@));
                assert(ids.take(m + 1) =~= ids.take(m as int).push(ids[m as int]));
            }
            fa.add_transition(Transition::from(edge.sym(), begin.unwrap(), end.unwrap()));
            m += 1;
        }
        fa.set_start(0);
        proof {
            assert(ids.take(m as int) =~= ids);
            assert(nfa.determinized_by(fa@, sets));
            nfa.lemma_determinized_valid(fa@, sets);
            assert forall|w: Seq<char>|
                #![trigger fa@.accepts(w)]
                #![trigger fa@.simulate(w)]
                nfa.covers(w) implies fa@.accepts(w) == nfa.accepts(w) && fa@.simulate(w)
                == nfa.accepts(w) by {
                nfa.lemma_determinized_language(fa@, sets, w);
            }
            if nfa.valid() {
                nfa.lemma_determinized_size(fa@, sets);
            }
        }
        fa
    }
}

} // verus!
