//! The picture of an automaton, as a graph description in the dot
//! language.

use crate::automaton::Automaton;
use crate::fa::FA;
use crate::state_set::State;
use crate::symbol::Symbol;
use crate::text::{decimal, push_decimal, push_str, string_of};
use crate::transition::Transition;
use vstd::prelude::*;
use vstd::relations::{sorted_by, total_ordering};

verus! {

/// The usual order of state identifiers.
pub open spec fn state_leq() -> spec_fn(State, State) -> bool {
    |a: State, b: State| a <= b
}

/// The character that a label is drawn as: itself, or the Greek letter
/// epsilon for the empty symbol.
pub open spec fn glyph(sym: Symbol) -> char {
    match sym {
        Symbol::Char(c) => c,
        Symbol::Empty => '\u{03B5}',
    }
}

/// The list of accepting states: each preceded by a space.
pub open spec fn acceptors_text(list: Seq<State>) -> Seq<char>
    decreases list.len(),
{
    if list.len() == 0 {
        Seq::empty()
    } else {
        acceptors_text(list.drop_last()) + " "@ + decimal(list.last() as nat)
    }
}

/// The line of one transition: an edge labelled with the quoted glyph.
pub open spec fn edge_line(t: Transition) -> Seq<char> {
    decimal(t.start as nat) + " -> "@ + decimal(t.end as nat) + " [label=\"'"@ + seq![glyph(t.sym)]
        + "'\"]\n"@
}

/// The lines of the transitions of `list`.
pub open spec fn edge_lines(list: Seq<Transition>) -> Seq<char>
    decreases list.len(),
{
    if list.len() == 0 {
        Seq::empty()
    } else {
        edge_lines(list.drop_last()) + edge_line(list.last())
    }
}

/// The graph description of the automaton `a`: the accepting states in
/// increasing order drawn as double circles, and one edge for every
/// transition, in their order.
pub open spec fn dot_of(a: Automaton) -> Seq<char> {
    "digraph {\n"@ + "rankdir=LR\n"@ + "node [shape = doublecircle];"@ + acceptors_text(
        a.accepting.sort_by(state_leq()),
    ) + ";\n"@ + "node [shape = circle];\n"@ + edge_lines(a.delta) + "}\n"@
}

/// The usual order of state identifiers is a total order.
pub proof fn lemma_state_leq_total()
    ensures
        total_ordering(state_leq()),
{
    let r = state_leq();
    assert(vstd::relations::reflexive(r));
    assert(vstd::relations::antisymmetric(r));
    assert(vstd::relations::transitive(r));
    assert(vstd::relations::strongly_connected(r));
}

/// Returns the elements of `v` in increasing order, each as often as it
/// occurs in `v`.
pub fn sorted_copy(v: &Vec<State>) -> (r: Vec<State>)
    ensures
        r@ == v@.sort_by(state_leq()),
{
    let mut out: Vec<State> = Vec::new();
    let mut i: usize = 0;
    proof {
        assert(v@.take(0) =~= out@);
    }
    while i < v.len()
        invariant
            i <= v@.len(),
            sorted_by(out@, state_leq()),
            out@.to_multiset() == v@.take(i as int).to_multiset(),
        decreases v@.len() - i,
    {
        let x = v[i];
        let mut p: usize = 0;
        while p < out.len() && out[p] <= x
            invariant
                p <= out@.len(),
                forall|j: int| 0 <= j < p ==> out@[j] <= x,
            decreases out@.len() - p,
        {
            p += 1;
        }
        let ghost before = out@;
        out.insert(p, x);
        proof {
            broadcast use vstd::seq_lib::group_to_multiset_ensures;

            assert(out@ == before.insert(p as int, x));
            assert forall|a: int, b: int| 0 <= a < b < out@.len() implies (#[trigger] state_leq()(
                out@[a],
                out@[b],
            )) by {
                let a0 = if a < p { a } else { a - 1 };
                let b0 = if b < p { b } else { b - 1 };
                if a != p && b != p {
                    assert(state_leq()(before[a0], before[b0]));
                } else if a == p {
                    if p < before.len() {
                        assert(state_leq()(before[p as int], before[b0]) || p as int == b0);
                    }
                }
            }
            vstd::seq_lib::to_multiset_insert(before, p as int, x);
            assert(v@.take(i + 1) =~= v@.take(i as int).push(x));
            vstd::seq_lib::to_multiset_build(v@.take(i as int), x);
        }
        i += 1;
    }
    proof {
        assert(v@.take(i as int) =~= v@);
        lemma_state_leq_total();
        v@.lemma_sort_by_ensures(state_leq());
        vstd::seq_lib::lemma_sorted_unique(out@, v@.sort_by(state_leq()), state_leq());
    }
    out
}

/// Draws the automaton as a graph description in the dot language.
pub fn draw_fa(fa: FA) -> (dot: String)
    ensures
        dot@ == dot_of(fa@),
{
    let mut out: Vec<char> = Vec::new();
    push_str(&mut out, "digraph {\n");
    push_str(&mut out, "rankdir=LR\n");
    push_str(&mut out, "node [shape = doublecircle];");
    let accepting = sorted_copy(fa.accepting());
    let ghost head = out@;
    let mut i: usize = 0;
    proof {
        assert(accepting@.take(0) =~= Seq::<State>::empty());
        assert(out@ =~= head + acceptors_text(accepting@.take(0)));
    }
    while i < accepting.len()
        invariant
            i <= accepting@.len(),
            out@ == head + acceptors_text(accepting@.take(i as int)),
        decreases accepting@.len() - i,
    {
        proof {
            assert(accepting@.take(i + 1).drop_last() =~= accepting@.take(i as int));
            assert(accepting@.take(i + 1).last() == accepting@[i as int]);
        }
        push_str(&mut out, " ");
        push_decimal(&mut out, accepting[i]);
        proof {
            assert(out@ =~= head + acceptors_text(accepting@.take(i + 1)));
        }
        i += 1;
    }
    push_str(&mut out, ";\n");
    push_str(&mut out, "node [shape = circle];\n");
    let delta = fa.delta();
    let ghost middle = out@;
    let mut j: usize = 0;
    proof {
        assert(accepting@.take(i as int) =~= accepting@);
        assert(delta@.take(0) =~= Seq::<Transition>::empty());
        assert(out@ =~= middle + edge_lines(delta@.take(0)));
    }
    while j < delta.len()
        invariant
            j <= delta@.len(),
            out@ == middle + edge_lines(delta@.take(j as int)),
        decreases delta@.len() - j,
    {
        let t = delta[j];
        let c = match t.sym {
            Symbol::Char(c) => c,
            Symbol::Empty => '\u{03B5}',
        };
        proof {
            assert(delta@.take(j + 1).drop_last() =~= delta@.take(j as int));
            assert(delta@.take(j + 1).last() == t);
        }
        let ghost lines = out@;
        push_decimal(&mut out, t.start);
        push_str(&mut out, " -> ");
        push_decimal(&mut out, t.end);
        push_str(&mut out, " [label=\"'");
        out.push(c);
        push_str(&mut out, "'\"]\n");
        proof {
            assert(out@ =~= lines + edge_line(t));
            assert(out@ =~= middle + edge_lines(delta@.take(j + 1)));
        }
        j += 1;
    }
    push_str(&mut out, "}\n");
    proof {
        assert(delta@.take(j as int) =~= delta@);
        assert(out@ =~= dot_of(fa@));
    }
    string_of(&out)
}

} // verus!
