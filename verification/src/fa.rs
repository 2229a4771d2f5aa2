//! The executable automaton: the tuple together with an adjacency index.

use crate::automaton::{outgoing, Automaton};
use crate::state_set::State;
use crate::transition::Transition;
use std::collections::HashMap;
use vstd::prelude::*;

verus! {

/// A finite automaton.
///
/// Besides the tuple it models, the automaton keeps for every state the list
/// of transitions that leave it.  The index is derived from the transition
/// list and is kept in step with it by every operation.
#[derive(Debug)]
pub struct FA {
    states: Vec<State>,
    starting: State,
    accepting: Vec<State>,
    delta: Vec<Transition>,
    graph: HashMap<State, Vec<Transition>>,
}

impl View for FA {
    type V = Automaton;

    /// The tuple this automaton stands for.
    closed spec fn view(&self) -> Automaton {
        Automaton {
            states: self.states@,
            starting: self.starting,
            accepting: self.accepting@,
            delta: self.delta@,
        }
    }
}

impl FA {
    /// The representation invariant: the adjacency index holds a list for
    /// exactly the states that were added or that a transition leaves, and
    /// each list holds the transitions leaving its state, in their order in
    /// the transition list.
    pub closed spec fn wf(&self) -> bool {
        &&& forall|s: State| #[trigger]
            self.graph@.contains_key(s) <==> (self.states@.contains(s) || outgoing(
                self.delta@,
                s,
            ).len() > 0)
        &&& forall|s: State| #[trigger]
            self.graph@.contains_key(s) ==> self.graph@[s]@ == outgoing(self.delta@, s)
    }

    /// Creates the automaton without states or transitions, starting in
    /// state 0.
    pub fn new() -> (fa: Self)
        ensures
            fa.wf(),
            fa@ == Automaton::empty(),
    {
        let fa = Self {
            states: Vec::new(),
            starting: 0,
            accepting: Vec::new(),
            delta: Vec::new(),
            graph: HashMap::new(),
        };
        proof {
            assert forall|s: State| outgoing(fa.delta@, s).len() == 0 by {
                fa.delta@.lemma_filter_len(|t: Transition| t.start == s);
            }
        }
        fa
    }

    /// Number of states, counting a state as often as it was added.
    pub fn num_states(&self) -> (n: usize)
        ensures
            n == self@.states.len(),
    {
        self.states.len()
    }

    /// Makes `s` the starting state.
    pub fn set_start(&mut self, s: State)
        ensures
            final(self)@ == (Automaton { starting: s, ..old(self)@ }),
            old(self).wf() ==> final(self).wf(),
    {
        self.starting = s;
    }

    /// Adds the state `s`.
    pub fn add_state(&mut self, s: State)
        requires
            old(self).wf(),
        ensures
            final(self).wf(),
            final(self)@ == (Automaton { states: old(self)@.states.push(s), ..old(self)@ }),
    {
        self.states.push(s);
        if !self.graph.contains_key(&s) {
            self.graph.insert(s, Vec::new());
            proof {
                assert(self.graph@[s]@ =~= outgoing(self.delta@, s));
            }
        }
        proof {
            let old_states = old(self).states@;
            assert(self.states@ == old_states.push(s));
            assert forall|x: State| #[trigger]
                self.graph@.contains_key(x) <==> (self.states@.contains(x) || outgoing(
                    self.delta@,
                    x,
                ).len() > 0) by {
                if x == s {
                    assert(self.states@[old_states.len() as int] == s);
                } else {
                    if old_states.contains(x) {
                        let i = choose|i: int| 0 <= i < old_states.len() && old_states[i] == x;
                        assert(self.states@[i] == x);
                    }
                    if self.states@.contains(x) {
                        let i = choose|i: int| 0 <= i < self.states@.len() && self.states@[i] == x;
                        assert(old_states[i] == x);
                    }
                }
            }
        }
    }

    /// Marks `accept` as an accepting state.
    pub fn add_acceptor(&mut self, accept: State)
        ensures
            final(self)@ == (Automaton {
                accepting: old(self)@.accepting.push(accept),
                ..old(self)@
            }),
            old(self).wf() ==> final(self).wf(),
    {
        self.accepting.push(accept);
    }

    /// Adds the transition `t`.
    pub fn add_transition(&mut self, t: Transition)
        requires
            old(self).wf(),
        ensures
            final(self).wf(),
            final(self)@ == (Automaton { delta: old(self)@.delta.push(t), ..old(self)@ }),
    {
        let ghost old_delta = self.delta@;
        let ghost old_graph = self.graph@;
        self.delta.push(t);
        let mut list = match self.graph.remove(&t.start) {
            Some(list) => list,
            None => Vec::new(),
        };
        let ghost old_list = list@;
        list.push(t);
        self.graph.insert(t.start, list);
        proof {
            assert(self.delta@ == old_delta.push(t));
            assert forall|s: State|
                outgoing(self.delta@, s) == if t.start == s {
                    outgoing(old_delta, s).push(t)
                } else {
                    outgoing(old_delta, s)
                } by {
                old_delta.lemma_filter_push(t, |x: Transition| x.start == s);
            }
            if !old_graph.contains_key(t.start) {
                assert(outgoing(old_delta, t.start).len() == 0);
                assert(old_list =~= outgoing(old_delta, t.start));
            }
            assert(self.graph@[t.start]@ == outgoing(self.delta@, t.start));
            assert forall|s: State| #[trigger]
                self.graph@.contains_key(s) implies self.graph@[s]@ == outgoing(self.delta@, s) by {
                if s != t.start {
                    assert(old_graph.contains_key(s));
                }
            }
            assert forall|s: State| #[trigger]
                self.graph@.contains_key(s) <==> (self.states@.contains(s) || outgoing(
                    self.delta@,
                    s,
                ).len() > 0) by {
                if s != t.start {
                    assert(old_graph.contains_key(s) == self.graph@.contains_key(s));
                }
            }
        }
    }

    /// Tells whether `id` is an accepting state.
    pub fn is_accepting(&self, id: State) -> (b: bool)
        ensures
            b == self@.accepting.contains(id),
    {
        let mut i: usize = 0;
        while i < self.accepting.len()
            invariant
                i <= self.accepting@.len(),
                forall|j: int| 0 <= j < i ==> self.accepting@[j] != id,
            decreases self.accepting@.len() - i,
        {
            if self.accepting[i] == id {
                return true;
            }
            i += 1;
        }
        false
    }

    /// The states, in the order they were added.
    pub fn states(&self) -> (v: &Vec<State>)
        ensures
            v@ == self@.states,
    {
        &self.states
    }

    /// The starting state.
    pub fn starting(&self) -> (s: State)
        ensures
            s == self@.starting,
    {
        self.starting
    }

    /// The accepting states, in the order they were marked.
    pub fn accepting(&self) -> (v: &Vec<State>)
        ensures
            v@ == self@.accepting,
    {
        &self.accepting
    }

    /// Grants write access to the list of accepting states.
    pub fn accepting_mut(&mut self) -> (v: &mut Vec<State>)
        ensures
            v@ == old(self)@.accepting,
            final(self)@ == (Automaton { accepting: final(v)@, ..old(self)@ }),
            old(self).wf() ==> final(self).wf(),
    {
        &mut self.accepting
    }

    /// The transitions, in the order they were added.
    pub fn delta(&self) -> (v: &Vec<Transition>)
        ensures
            v@ == self@.delta,
    {
        &self.delta
    }

    /// The transitions that leave `id`, in the order they were added; `None`
    /// when `id` is not a state and no transition leaves it.
    pub fn transitions_of(&self, id: State) -> (r: Option<&Vec<Transition>>)
        requires
            self.wf(),
        ensures
            match r {
                Some(v) => v@ == outgoing(self@.delta, id),
                None => outgoing(self@.delta, id).len() == 0,
            },
            r is Some <==> (self@.states.contains(id) || outgoing(self@.delta, id).len() > 0),
    {
        self.graph.get(&id)
    }
}

impl Clone for FA {
    /// Copies the tuple and builds the adjacency index anew.
    fn clone(&self) -> (fa: Self)
        ensures
            fa.wf(),
            fa@ == self@,
    {
        let mut fa = FA::new();
        let mut i: usize = 0;
        proof {
            assert(self.states@.take(0) =~= Seq::<State>::empty());
            assert(self.accepting@.take(0) =~= Seq::<State>::empty());
            assert(self.delta@.take(0) =~= Seq::<Transition>::empty());
        }
        while i < self.states.len()
            invariant
                i <= self.states@.len(),
                fa.wf(),
                fa@ == (Automaton { states: self.states@.take(i as int), ..Automaton::empty() }),
            decreases self.states@.len() - i,
        {
            fa.add_state(self.states[i]);
            proof {
                assert(self.states@.take(i + 1) =~= self.states@.take(i as int).push(
                    self.states@[i as int],
                ));
            }
            i += 1;
        }
        let mut j: usize = 0;
        proof {
            assert(self.states@.take(i as int) =~= self.states@);
        }
        while j < self.accepting.len()
            invariant
                j <= self.accepting@.len(),
                fa.wf(),
                fa@ == (Automaton {
                    states: self.states@,
                    accepting: self.accepting@.take(j as int),
                    ..Automaton::empty()
                }),
            decreases self.accepting@.len() - j,
        {
            fa.add_acceptor(self.accepting[j]);
            proof {
                assert(self.accepting@.take(j + 1) =~= self.accepting@.take(j as int).push(
                    self.accepting@[j as int],
                ));
            }
            j += 1;
        }
        let mut k: usize = 0;
        proof {
            assert(self.accepting@.take(j as int) =~= self.accepting@);
        }
        while k < self.delta.len()
            invariant
                k <= self.delta@.len(),
                fa.wf(),
                fa@ == (Automaton {
                    states: self.states@,
                    accepting: self.accepting@,
                    delta: self.delta@.take(k as int),
                    ..Automaton::empty()
                }),
            decreases self.delta@.len() - k,
        {
            fa.add_transition(self.delta[k]);
            proof {
                assert(self.delta@.take(k + 1) =~= self.delta@.take(k as int).push(
                    self.delta@[k as int],
                ));
            }
            k += 1;
        }
        proof {
            assert(self.delta@.take(k as int) =~= self.delta@);
        }
        fa.set_start(self.starting);
        fa
    }
}

} // verus!
