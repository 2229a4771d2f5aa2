//! The textual form of an automaton.
//!
//! Every state that was added or that a transition leaves gets a block: a
//! line with the state, a marker that tells accepting from other states and
//! the number of transitions that leave the state, then one line for each
//! of these transitions, then an empty line.  A comment with the totals
//! closes the text.

use crate::automaton::{outgoing, Automaton};
use crate::fa::FA;
use crate::fa_reader::{ACCEPT_SYMBOL, STATE_SYMBOL};
use crate::state_set::{lemma_push_to_set, ordered, State, StateSet};
use crate::symbol::Symbol;
use crate::text::{decimal, push_decimal, push_str, string_of};
use crate::transition::Transition;
use vstd::prelude::*;

verus! {

/// The states that some transition of `delta` leaves.
pub open spec fn sources(delta: Seq<Transition>) -> Set<State> {
    delta.map_values(|t: Transition| t.start).to_set()
}

/// The states that get a block in the text, in increasing order: those that
/// were added and those that a transition leaves.
pub open spec fn listed_states(a: Automaton) -> Seq<State> {
    ordered(a.states.to_set().union(sources(a.delta)))
}

/// The character that a label is written as: itself, or a space for the
/// empty symbol.
pub open spec fn label_text(sym: Symbol) -> char {
    match sym {
        Symbol::Char(c) => c,
        Symbol::Empty => ' ',
    }
}

/// The line of one transition: its label, an arrow and its end.
pub open spec fn transition_line(t: Transition) -> Seq<char> {
    seq![label_text(t.sym)] + " -> "@ + decimal(t.end as nat) + "\n"@
}

/// The lines of the transitions of `list`.
pub open spec fn transition_lines(list: Seq<Transition>) -> Seq<char>
    decreases list.len(),
{
    if list.len() == 0 {
        Seq::empty()
    } else {
        transition_lines(list.drop_last()) + transition_line(list.last())
    }
}

/// The marker of a state: `=>` for an accepting state, `::` for any other.
pub open spec fn marker(a: Automaton, k: State) -> Seq<char> {
    if a.accepting.contains(k) {
        ACCEPT_SYMBOL@
    } else {
        STATE_SYMBOL@
    }
}

/// The block of the state `k`.
pub open spec fn block(a: Automaton, k: State) -> Seq<char> {
    decimal(k as nat) + " "@ + marker(a, k) + " "@ + decimal(outgoing(a.delta, k).len()) + "\n"@
        + transition_lines(outgoing(a.delta, k)) + "\n"@
}

/// The blocks of the states `keys`.
pub open spec fn blocks(a: Automaton, keys: Seq<State>) -> Seq<char>
    decreases keys.len(),
{
    if keys.len() == 0 {
        Seq::empty()
    } else {
        blocks(a, keys.drop_last()) + block(a, keys.last())
    }
}

/// The text of the automaton `a`.
pub open spec fn text_of(a: Automaton) -> Seq<char> {
    blocks(a, listed_states(a)) + "// "@ + decimal(listed_states(a).len()) + " states, "@
        + decimal(a.delta.len()) + " transitions\n"@
}

impl FA {
    /// The states that were added and those that a transition leaves.
    fn listed(&self) -> (keys: StateSet)
        ensures
            keys.wf(),
            keys.elements() == listed_states(self@),
    {
        let mut keys = StateSet::new();
        let states = self.states();
        let mut i: usize = 0;
        proof {
            assert(states@.take(0).to_set() =~= Set::<State>::empty());
        }
        while i < states.len()
            invariant
                keys.wf(),
                states@ == self@.states,
                i <= states@.len(),
                keys@ == states@.take(i as int).to_set(),
            decreases states@.len() - i,
        {
            keys.insert(states[i]);
            proof {
                assert(states@.take(i + 1) =~= states@.take(i as int).push(states@[i as int]));
                lemma_push_to_set(states@.take(i as int), states@[i as int]);
            }
            i += 1;
        }
        let delta = self.delta();
        let ghost from = delta@.map_values(|t: Transition| t.start);
        let mut j: usize = 0;
        proof {
            assert(states@.take(i as int) =~= states@);
            assert(from.take(0).to_set() =~= Set::<State>::empty());
            assert(keys@ =~= states@.to_set().union(from.take(0).to_set()));
        }
        while j < delta.len()
            invariant
                keys.wf(),
                states@ == self@.states,
                delta@ == self@.delta,
                from == delta@.map_values(|t: Transition| t.start),
                j <= delta@.len(),
                keys@ == states@.to_set().union(from.take(j as int).to_set()),
            decreases delta@.len() - j,
        {
            keys.insert(delta[j].start);
            proof {
                assert(from.take(j + 1) =~= from.take(j as int).push(from[j as int]));
                lemma_push_to_set(from.take(j as int), from[j as int]);
                assert(keys@ =~= states@.to_set().union(from.take(j + 1).to_set()));
            }
            j += 1;
        }
        proof {
            assert(from.take(j as int) =~= from);
            keys.lemma_elements();
        }
        keys
    }

    /// Writes the automaton as text.
    pub fn to_text(&self) -> (text: String)
        requires
            self.wf(),
        ensures
            text@ == text_of(self@),
    {
        let ghost a = self@;
        let keys = self.listed();
        let mut out: Vec<char> = Vec::new();
        let empty: Vec<Transition> = Vec::new();
        let n = keys.len();
        let mut i: usize = 0;
        proof {
            assert(keys.elements().take(0) =~= Seq::<State>::empty());
        }
        while i < n
            invariant
                self.wf(),
                a == self@,
                keys.wf(),
                n == keys.elements().len(),
                i <= n,
                empty@.len() == 0,
                out@ == blocks(a, keys.elements().take(i as int)),
            decreases n - i,
        {
            let k = keys.get(i);
            let list = match self.transitions_of(k) {
                Some(list) => list,
                None => &empty,
            };
            proof {
                assert(list@ =~= outgoing(a.delta, k));
                assert(keys.elements().take(i + 1).drop_last() =~= keys.elements().take(i as int));
                assert(keys.elements().take(i + 1).last() == k);
                assert(list@.take(0) =~= Seq::<Transition>::empty());
            }
            let ghost before = out@;
            push_decimal(&mut out, k);
            push_str(&mut out, " ");
            if self.is_accepting(k) {
                push_str(&mut out, ACCEPT_SYMBOL);
            } else {
                push_str(&mut out, STATE_SYMBOL);
            }
            push_str(&mut out, " ");
            push_decimal(&mut out, list.len());
            push_str(&mut out, "\n");
            let ghost head = out@;
            let mut j: usize = 0;
            while j < list.len()
                invariant
                    j <= list@.len(),
                    out@ == head + transition_lines(list@.take(j as int)),
                decreases list@.len() - j,
            {
                let t = list[j];
                let c = match t.sym {
                    Symbol::Char(c) => c,
                    Symbol::Empty => ' ',
                };
                proof {
                    assert(list@.take(j + 1).drop_last() =~= list@.take(j as int));
                    assert(list@.take(j + 1).last() == t);
                }
                let ghost lines = out@;
                out.push(c);
                push_str(&mut out, " -> ");
                push_decimal(&mut out, t.end);
                push_str(&mut out, "\n");
                proof {
                    assert(out@ =~= lines + transition_line(t));
                    assert(out@ =~= head + transition_lines(list@.take(j + 1)));
                }
                j += 1;
            }
            push_str(&mut out, "\n");
            proof {
                assert(list@.take(j as int) =~= list@);
                assert(out@ =~= before + block(a, k));
            }
            i += 1;
        }
        proof {
            assert(keys.elements().take(i as int) =~= keys.elements());
        }
        let ghost body = out@;
        push_str(&mut out, "// ");
        push_decimal(&mut out, n);
        push_str(&mut out, " states, ");
        push_decimal(&mut out, self.delta().len());
        push_str(&mut out, " transitions\n");
        proof {
            assert(out@ =~= text_of(a));
        }
        string_of(&out)
    }
}

} // verus!
