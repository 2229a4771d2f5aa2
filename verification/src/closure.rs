//! Epsilon-closure and symbol moves, computed on the adjacency index.

use crate::automaton::{lemma_outgoing, outgoing, Automaton};
use crate::fa::FA;
use crate::state_set::{State, StateSet};
use crate::symbol::Symbol;
use crate::transition::Transition;
use vstd::prelude::*;

verus! {

/// The states that some transition of `delta` enters.
pub open spec fn targets(delta: Seq<Transition>) -> Set<State> {
    delta.map_values(|t: Transition| t.end).to_set()
}

/// The targets form a finite set that holds the end of every transition.
pub proof fn lemma_targets(delta: Seq<Transition>)
    ensures
        targets(delta).finite(),
        forall|i: int| 0 <= i < delta.len() ==> targets(delta).contains((#[trigger] delta[i]).end),
{
    let ends = delta.map_values(|t: Transition| t.end);
    vstd::seq_lib::seq_to_set_is_finite(ends);
    assert forall|i: int| 0 <= i < delta.len() implies targets(delta).contains(
        (#[trigger] delta[i]).end,
    ) by {
        assert(ends[i] == delta[i].end);
        assert(ends.contains(delta[i].end));
    }
}

/// The ends of the first `j` transitions of `list` that are labelled `sym`.
pub open spec fn ends_labelled(list: Seq<Transition>, sym: Symbol, j: int) -> Set<State> {
    Set::new(|q: State| exists|k: int| 0 <= k < j && #[trigger] list[k].sym == sym && list[k].end == q)
}

impl FA {
    /// Computes the epsilon-closure of `st`: the states reached from `st` by
    /// zero or more transitions labelled with the empty symbol.
    ///
    /// Each state is expanded once, so cycles of empty transitions are
    /// harmless.
    pub fn epsilon_closure(&self, st: State) -> (closure: StateSet)
        requires
            self.wf(),
        ensures
            closure.wf(),
            closure@ == self@.closure(set![st]),
            closure@.contains(st),
    {
        let ghost a = self@;
        let ghost universe = targets(a.delta).insert(st);
        let mut closure = StateSet::new();
        closure.insert(st);
        let mut pending: Vec<State> = Vec::new();
        pending.push(st);
        proof {
            lemma_targets(a.delta);
            a.lemma_eps_reach_refl(st);
            assert(pending@[0] == st);
        }
        while pending.len() > 0
            invariant
                self.wf(),
                a == self@,
                universe == targets(a.delta).insert(st),
                universe.finite(),
                closure.wf(),
                closure@.contains(st),
                closure@.subset_of(universe),
                forall|q: State| closure@.contains(q) ==> a.eps_reach(st, q),
                forall|i: int| 0 <= i < pending@.len() ==> closure@.contains(pending@[i]),
                forall|p: State, q: State|
                    closure@.contains(p) && #[trigger] a.edge(Symbol::Empty, p, q)
                        ==> closure@.contains(q) || pending@.contains(p),
            decreases universe.len() - closure@.len(), pending@.len(),
        {
            let ghost pending_before = pending@;
            let ghost size_before = closure@.len();
            let top = pending.pop().unwrap();
            let ghost pending_popped = pending@;
            proof {
                closure.lemma_elements();
                vstd::set_lib::lemma_len_subset(closure@, universe);
                assert(closure@.contains(pending_before[pending_before.len() - 1]));
                assert forall|p: State, q: State|
                    closure@.contains(p) && #[trigger] a.edge(Symbol::Empty, p, q) implies (
                    closure@.contains(q) || pending@.contains(p) || p == top) by {
                    if !closure@.contains(q) {
                        let i = choose|i: int| 0 <= i < pending_before.len() && pending_before[i] == p;
                        if i < pending_before.len() - 1 {
                            assert(pending@[i] == p);
                        }
                    }
                }
            }
            match self.transitions_of(top) {
                Some(list) => {
                    let mut j: usize = 0;
                    while j < list.len()
                        invariant
                            a == self@,
                            list@ == outgoing(a.delta, top),
                            j <= list@.len(),
                            universe == targets(a.delta).insert(st),
                            universe.finite(),
                            closure.wf(),
                            closure@.contains(st),
                            closure@.contains(top),
                            closure@.subset_of(universe),
                            forall|q: State| closure@.contains(q) ==> a.eps_reach(st, q),
                            forall|i: int| 0 <= i < pending@.len() ==> closure@.contains(pending@[i]),
                            forall|p: State, q: State|
                                closure@.contains(p) && #[trigger] a.edge(Symbol::Empty, p, q) ==> (
                                closure@.contains(q) || pending@.contains(p) || p == top),
                            forall|k: int|
                                0 <= k < j && (#[trigger] list@[k]).sym == Symbol::Empty
                                    ==> closure@.contains(list@[k].end),
                            closure@.len() >= size_before,
                            closure@.len() - size_before == pending@.len() - pending_popped.len(),
                        decreases list@.len() - j,
                    {
                        let t = list[j];
                        proof {
                            lemma_outgoing(a.delta, top);
                            lemma_targets(a.delta);
                            closure.lemma_elements();
                            assert(t == list@[j as int]);
                            assert(a.delta.contains(t));
                        }
                        if t.sym == Symbol::Empty {
                            let ghost closure_before = closure@;
                            let ghost pending_mid = pending@;
                            proof {
                                assert(t == Transition { sym: Symbol::Empty, start: top, end: t.end });
                                assert(a.edge(Symbol::Empty, top, t.end));
                                a.lemma_eps_reach_edge(st, top, t.end);
                                let i = choose|i: int| 0 <= i < a.delta.len() && a.delta[i] == t;
                                assert(targets(a.delta).contains(a.delta[i].end));
                            }
                            let fresh = closure.insert(t.end);
                            if fresh {
                                pending.push(t.end);
                                proof {
                                    assert(pending@[pending_mid.len() as int] == t.end);
                                    assert forall|p: State| pending_mid.contains(p) implies pending@.contains(
                                        p,
                                    ) by {
                                        let i = choose|i: int|
                                            0 <= i < pending_mid.len() && pending_mid[i] == p;
                                        assert(pending@[i] == p);
                                    }
                                }
                            } else {
                                proof {
                                    assert(closure@ =~= closure_before);
                                }
                            }
                        }
                        j += 1;
                    }
                    proof {
                        lemma_outgoing(a.delta, top);
                        assert forall|q: State| #[trigger]
                            a.edge(Symbol::Empty, top, q) implies closure@.contains(q) by {
                            let t = Transition { sym: Symbol::Empty, start: top, end: q };
                            let i = choose|i: int| 0 <= i < a.delta.len() && a.delta[i] == t;
                            assert(a.delta[i].start == top);
                            assert(list@.contains(a.delta[i]));
                            let k = choose|k: int| 0 <= k < list@.len() && list@[k] == t;
                            assert(list@[k].sym == Symbol::Empty);
                        }
                    }
                },
                None => {
                    proof {
                        lemma_outgoing(a.delta, top);
                        assert forall|q: State| #[trigger]
                            a.edge(Symbol::Empty, top, q) implies closure@.contains(q) by {
                            let t = Transition { sym: Symbol::Empty, start: top, end: q };
                            let i = choose|i: int| 0 <= i < a.delta.len() && a.delta[i] == t;
                            assert(a.delta[i].start == top);
                            assert(outgoing(a.delta, top).contains(a.delta[i]));
                        }
                    }
                },
            }
            proof {
                closure.lemma_elements();
                vstd::set_lib::lemma_len_subset(closure@, universe);
            }
        }
        proof {
            let target = a.closure(set![st]);
            assert(a.eps_closed(closure@)) by {
                assert forall|p: State, q: State|
                    closure@.contains(p) && #[trigger] a.edge(
                        Symbol::Empty,
                        p,
                        q,
                    ) implies closure@.contains(q) by {
                    assert(!pending@.contains(p));
                }
            }
            assert(set![st].subset_of(closure@));
            a.lemma_closure_least(set![st], closure@);
            assert forall|q: State| closure@.contains(q) implies target.contains(q) by {
                assert(set![st].contains(st) && a.eps_reach(st, q));
            }
            assert(closure@ =~= target);
        }
        closure
    }

    /// Computes the epsilon-closure of every member of `t` and returns the
    /// union of these closures.
    pub fn epsilon_closure_set(&self, t: StateSet) -> (res: StateSet)
        requires
            self.wf(),
            t.wf(),
        ensures
            res.wf(),
            res@ == self@.closure(t@),
            t@.subset_of(res@),
            self@.closure(res@) == res@,
    {
        let ghost a = self@;
        let mut res = StateSet::new();
        let n = t.len();
        let mut i: usize = 0;
        proof {
            a.lemma_closure_empty();
            assert(t.elements().take(0).to_set() =~= Set::<State>::empty());
        }
        while i < n
            invariant
                self.wf(),
                a == self@,
                t.wf(),
                n == t.elements().len(),
                i <= n,
                res.wf(),
                res@ == a.closure(t.elements().take(i as int).to_set()),
            decreases n - i,
        {
            let st = t.get(i);
            let part = self.epsilon_closure(st);
            res.extend(&part);
            proof {
                let head = t.elements().take(i as int);
                let next = t.elements().take(i + 1);
                assert(next =~= head.push(st));
                assert(next.to_set() =~= head.to_set().union(set![st])) by {
                    assert forall|v: State| next.to_set().contains(v) <==> head.to_set().union(
                        set![st],
                    ).contains(v) by {
                        if next.contains(v) {
                            let k = choose|k: int| 0 <= k < next.len() && next[k] == v;
                            if k < i {
                                assert(head[k] == v);
                            }
                        }
                        if head.contains(v) {
                            let k = choose|k: int| 0 <= k < head.len() && head[k] == v;
                            assert(next[k] == v);
                        }
                        assert(next[i as int] == st);
                    }
                }
                a.lemma_closure_union(head.to_set(), set![st]);
            }
            i += 1;
        }
        proof {
            t.lemma_elements();
            assert(t.elements().take(n as int) =~= t.elements());
            a.lemma_closure_extensive(t@);
            a.lemma_closure_idempotent(t@);
        }
        res
    }

    /// Computes the states entered from a member of `t` by one transition
    /// labelled `c`; `None` when there is no such transition.
    pub fn delta_move(&self, t: &StateSet, c: Symbol) -> (res: Option<StateSet>)
        requires
            self.wf(),
            t.wf(),
        ensures
            match res {
                Some(s) => s.wf() && s@ == self@.moves(t@, c) && s@.len() > 0,
                None => self@.moves(t@, c) == Set::<State>::empty(),
            },
    {
        let ghost a = self@;
        let mut res = StateSet::new();
        let n = t.len();
        let mut i: usize = 0;
        proof {
            assert(t.elements().take(0).to_set() =~= Set::<State>::empty());
            assert(a.moves(Set::empty(), c) =~= Set::<State>::empty());
        }
        while i < n
            invariant
                self.wf(),
                a == self@,
                t.wf(),
                n == t.elements().len(),
                i <= n,
                res.wf(),
                res@ == a.moves(t.elements().take(i as int).to_set(), c),
            decreases n - i,
        {
            let state = t.get(i);
            let ghost head = t.elements().take(i as int);
            let ghost next = t.elements().take(i + 1);
            let ghost base = res@;
            let ghost list_spec = outgoing(a.delta, state);
            match self.transitions_of(state) {
                Some(list) => {
                    let mut j: usize = 0;
                    proof {
                        assert(base.union(ends_labelled(list@, c, 0)) =~= base);
                    }
                    while j < list.len()
                        invariant
                            list@ == list_spec,
                            j <= list@.len(),
                            res.wf(),
                            res@ == base.union(ends_labelled(list@, c, j as int)),
                        decreases list@.len() - j,
                    {
                        let tr = list[j];
                        if tr.sym == c {
                            res.insert(tr.end);
                        }
                        proof {
                            let before = ends_labelled(list@, c, j as int);
                            let after = ends_labelled(list@, c, j + 1);
                            assert forall|q: State|
                                after.contains(q) <==> (before.contains(q) || (tr.sym == c
                                    && tr.end == q)) by {
                                if before.contains(q) {
                                    let k = choose|k: int|
                                        0 <= k < j && #[trigger] list@[k].sym == c && list@[k].end
                                            == q;
                                    assert(0 <= k < j + 1);
                                }
                                if tr.sym == c && tr.end == q {
                                    assert(list@[j as int].sym == c && list@[j as int].end == q);
                                }
                            }
                            assert(res@ =~= base.union(after));
                        }
                        j += 1;
                    }
                },
                None => {
                    proof {
                        assert(list_spec.len() == 0);
                    }
                },
            }
            proof {
                lemma_outgoing(a.delta, state);
                let found = ends_labelled(list_spec, c, list_spec.len() as int);
                assert(res@ =~= base.union(found)) by {
                    if list_spec.len() == 0 {
                        assert(found =~= Set::<State>::empty());
                    }
                }
                assert(next =~= head.push(state));
                assert forall|q: State| #[trigger]
                    a.moves(next.to_set(), c).contains(q) <==> (base.contains(q) || found.contains(
                        q,
                    )) by {
                    if a.moves(next.to_set(), c).contains(q) {
                        let p = choose|p: State| next.to_set().contains(p) && a.edge(c, p, q);
                        let k = choose|k: int| 0 <= k < next.len() && next[k] == p;
                        if k < i {
                            assert(head[k] == p);
                            assert(head.to_set().contains(p));
                        } else {
                            let tr = Transition { sym: c, start: state, end: q };
                            let x = choose|x: int| 0 <= x < a.delta.len() && a.delta[x] == tr;
                            assert(a.delta[x].start == state);
                            assert(list_spec.contains(a.delta[x]));
                            let y = choose|y: int| 0 <= y < list_spec.len() && list_spec[y] == tr;
                            assert(list_spec[y].sym == c && list_spec[y].end == q);
                        }
                    }
                    if base.contains(q) {
                        let p = choose|p: State| head.to_set().contains(p) && a.edge(c, p, q);
                        let k = choose|k: int| 0 <= k < head.len() && head[k] == p;
                        assert(next[k] == p);
                        assert(next.to_set().contains(p));
                    }
                    if found.contains(q) {
                        let k = choose|k: int|
                            0 <= k < list_spec.len() && #[trigger] list_spec[k].sym == c
                                && list_spec[k].end == q;
                        assert(list_spec[k].start == state);
                        assert(a.delta.contains(list_spec[k]));
                        assert(list_spec[k] == Transition { sym: c, start: state, end: q });
                        assert(next[i as int] == state);
                        assert(next.to_set().contains(state));
                    }
                }
                assert(res@ =~= a.moves(next.to_set(), c));
            }
            i += 1;
        }
        proof {
            t.lemma_elements();
            res.lemma_elements();
            assert(t.elements().take(n as int) =~= t.elements());
        }
        if res.is_empty() {
            None
        } else {
            Some(res)
        }
    }
}

} // verus!
