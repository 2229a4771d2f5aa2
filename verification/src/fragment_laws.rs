//! What holds of every fragment that Thompson's construction builds.

use crate::state_set::{lemma_ordered, State};
use crate::thompsons::{eps, renamed, Expr, Fragment};
use crate::transition::Transition;
use vstd::prelude::*;
use vstd::set_lib::lemma_set_disjoint_lens;

verus! {

/// A leaf fragment has two states and the shape of a fragment.
pub proof fn lemma_single_shaped(sym: crate::symbol::Symbol, n: nat)
    requires
        n + 2 <= usize::MAX,
    ensures
        Fragment::single(sym, n).shaped(n, n + 2),
        Fragment::single(sym, n).states.len() == 2,
{
    let f = Fragment::single(sym, n);
    assert(f.states =~= Set::<State>::empty().insert(n as State).insert((n + 1) as State));
}

/// Wrapping a fragment in a new entry and exit adds two states and keeps
/// the shape, whichever of the four attaching transitions are used.
pub proof fn lemma_wrap_shaped(inner: Fragment, lo: nat, n: nat, extra: Seq<Transition>)
    requires
        inner.shaped(lo, n),
        lo <= n,
        n + 2 <= usize::MAX,
        forall|i: int|
            0 <= i < extra.len() ==> {
                let t = #[trigger] extra[i];
                ||| t == eps(n as State, inner.start)
                ||| t == eps(inner.end, (n + 1) as State)
                ||| t == eps(n as State, (n + 1) as State)
                ||| t == eps(inner.end, inner.start)
            },
    ensures
        Fragment::wrap(inner, n, extra).shaped(lo, n + 2),
        Fragment::wrap(inner, n, extra).states.len() == inner.states.len() + 2,
{
    let f = Fragment::wrap(inner, n, extra);
    let fresh = set![n as State, (n + 1) as State];
    assert(fresh =~= Set::<State>::empty().insert(n as State).insert((n + 1) as State));
    assert(fresh.disjoint(inner.states));
    lemma_set_disjoint_lens(fresh, inner.states);
    assert forall|i: int| 0 <= i < f.delta.len() implies f.states.contains(
        (#[trigger] f.delta[i]).start,
    ) && f.states.contains(f.delta[i].end) && f.delta[i].end != f.start && f.delta[i].start
        != f.end by {
        if i < inner.delta.len() {
            assert(f.delta[i] == inner.delta[i]);
        } else {
            assert(f.delta[i] == extra[i - inner.delta.len()]);
        }
    }
}

/// Alternation adds two states to those of its operands and keeps the
/// shape.
pub proof fn lemma_either_shaped(a: Fragment, b: Fragment, lo: nat, mid: nat, n: nat)
    requires
        a.shaped(lo, mid),
        b.shaped(mid, n),
        lo <= mid <= n,
        n + 2 <= usize::MAX,
    ensures
        Fragment::either(a, b, n).shaped(lo, n + 2),
        Fragment::either(a, b, n).states.len() == a.states.len() + b.states.len() + 2,
{
    let f = Fragment::either(a, b, n);
    let fresh = set![n as State, (n + 1) as State];
    assert(fresh =~= Set::<State>::empty().insert(n as State).insert((n + 1) as State));
    assert(fresh.disjoint(a.states));
    lemma_set_disjoint_lens(fresh, a.states);
    assert(fresh.union(a.states).disjoint(b.states));
    lemma_set_disjoint_lens(fresh.union(a.states), b.states);
    let extra = seq![
        eps(n as State, a.start),
        eps(n as State, b.start),
        eps(a.end, (n + 1) as State),
        eps(b.end, (n + 1) as State),
    ];
    assert forall|i: int| 0 <= i < f.delta.len() implies f.states.contains(
        (#[trigger] f.delta[i]).start,
    ) && f.states.contains(f.delta[i].end) && f.delta[i].end != f.start && f.delta[i].start
        != f.end by {
        if i < a.delta.len() {
            assert(f.delta[i] == a.delta[i]);
        } else if i < a.delta.len() + b.delta.len() {
            assert(f.delta[i] == b.delta[i - a.delta.len()]);
        } else {
            assert(f.delta[i] == extra[i - a.delta.len() - b.delta.len()]);
        }
    }
}

/// Concatenation fuses two states into one: the fused fragment has one
/// state less than its operands together, keeps the shape, and neither its
/// states nor its transitions mention the entry of the second operand.
pub proof fn lemma_fuse_shaped(a: Fragment, b: Fragment, lo: nat, mid: nat, hi: nat)
    requires
        a.shaped(lo, mid),
        b.shaped(mid, hi),
        lo <= mid <= hi,
    ensures
        Fragment::fuse(a, b).shaped(lo, hi),
        Fragment::fuse(a, b).states.len() == a.states.len() + b.states.len() - 1,
        !Fragment::fuse(a, b).states.contains(b.start),
        forall|i: int|
            0 <= i < Fragment::fuse(a, b).delta.len() ==> (#[trigger] Fragment::fuse(
                a,
                b,
            ).delta[i]).start != b.start && Fragment::fuse(a, b).delta[i].end != b.start,
{
    let f = Fragment::fuse(a, b);
    let rest = b.states.remove(b.start);
    assert(f.states =~= a.states.union(rest));
    assert(a.states.disjoint(rest));
    lemma_set_disjoint_lens(a.states, rest);
    assert forall|i: int| 0 <= i < f.delta.len() implies f.states.contains(
        (#[trigger] f.delta[i]).start,
    ) && f.states.contains(f.delta[i].end) && f.delta[i].end != f.start && f.delta[i].start
        != f.end && f.delta[i].start != b.start && f.delta[i].end != b.start by {
        if i < a.delta.len() {
            assert(f.delta[i] == a.delta[i]);
        } else {
            let t = b.delta[i - a.delta.len()];
            assert(f.delta[i] == renamed(t, b.start, a.end));
        }
    }
}

impl Expr {
    /// Every fragment built by the construction has the shape of a
    /// fragment, carries identifiers from its own range only, and has as
    /// many states as its tree calls for.
    pub proof fn lemma_fragment_shaped(self, n: nat)
        requires
            n + self.ids_needed() <= usize::MAX,
        ensures
            self.fragment(n).shaped(n, n + self.ids_needed()),
            self.fragment(n).states.len() == self.state_count(),
        decreases self,
    {
        match self {
            Expr::Empty => {
                lemma_single_shaped(crate::symbol::Symbol::Empty, n);
            },
            Expr::Just(sym) => {
                lemma_single_shaped(sym, n);
            },
            Expr::Or(a, b) => {
                a.lemma_fragment_shaped(n);
                b.lemma_fragment_shaped(n + a.ids_needed());
                lemma_either_shaped(
                    a.fragment(n),
                    b.fragment(n + a.ids_needed()),
                    n,
                    n + a.ids_needed(),
                    n + a.ids_needed() + b.ids_needed(),
                );
            },
            Expr::And(a, b) => {
                a.lemma_fragment_shaped(n);
                b.lemma_fragment_shaped(n + a.ids_needed());
                lemma_fuse_shaped(
                    a.fragment(n),
                    b.fragment(n + a.ids_needed()),
                    n,
                    n + a.ids_needed(),
                    n + a.ids_needed() + b.ids_needed(),
                );
            },
            Expr::Star(a) => {
                a.lemma_fragment_shaped(n);
                let inner = a.fragment(n);
                let m = n + a.ids_needed();
                lemma_wrap_shaped(
                    inner,
                    n,
                    m,
                    seq![
                        eps(m as State, inner.start),
                        eps(inner.end, (m + 1) as State),
                        eps(m as State, (m + 1) as State),
                        eps(inner.end, inner.start),
                    ],
                );
            },
            Expr::Plus(a) => {
                a.lemma_fragment_shaped(n);
                let inner = a.fragment(n);
                let m = n + a.ids_needed();
                lemma_wrap_shaped(
                    inner,
                    n,
                    m,
                    seq![
                        eps(m as State, inner.start),
                        eps(inner.end, (m + 1) as State),
                        eps(inner.end, inner.start),
                    ],
                );
            },
            Expr::QMark(a) => {
                a.lemma_fragment_shaped(n);
                let inner = a.fragment(n);
                let m = n + a.ids_needed();
                lemma_wrap_shaped(
                    inner,
                    n,
                    m,
                    seq![
                        eps(m as State, inner.start),
                        eps(inner.end, (m + 1) as State),
                        eps(m as State, (m + 1) as State),
                    ],
                );
            },
        }
    }
}

/// Fusion preserves the count of states: a concatenation has as many
/// states as its two operands together, less the one that is fused away.
pub proof fn lemma_concat_state_count(a: Expr, b: Expr, n: nat)
    requires
        n + a.ids_needed() + b.ids_needed() <= usize::MAX,
    ensures
        Expr::And(Box::new(a), Box::new(b)).fragment(n).states.len() == a.fragment(n).states.len()
            + b.fragment(n + a.ids_needed()).states.len() - 1,
{
    a.lemma_fragment_shaped(n);
    b.lemma_fragment_shaped(n + a.ids_needed());
    lemma_fuse_shaped(
        a.fragment(n),
        b.fragment(n + a.ids_needed()),
        n,
        n + a.ids_needed(),
        n + a.ids_needed() + b.ids_needed(),
    );
}

/// After fusion the entry of the second operand is gone: it is no state of
/// the concatenation, and no transition leaves or enters it.
pub proof fn lemma_concat_entry_gone(a: Expr, b: Expr, n: nat)
    requires
        n + a.ids_needed() + b.ids_needed() <= usize::MAX,
    ensures
        ({
            let fused = Expr::And(Box::new(a), Box::new(b)).fragment(n);
            let gone = b.fragment(n + a.ids_needed()).start;
            &&& !fused.states.contains(gone)
            &&& forall|i: int|
                0 <= i < fused.delta.len() ==> (#[trigger] fused.delta[i]).start != gone
                    && fused.delta[i].end != gone
        }),
{
    a.lemma_fragment_shaped(n);
    b.lemma_fragment_shaped(n + a.ids_needed());
    lemma_fuse_shaped(
        a.fragment(n),
        b.fragment(n + a.ids_needed()),
        n,
        n + a.ids_needed(),
        n + a.ids_needed() + b.ids_needed(),
    );
}

/// The automaton of a fragment is valid: its states are listed once each,
/// in increasing order, and hold the starting state, the accepting state
/// and the ends of every transition.
pub proof fn lemma_fragment_automaton_valid(f: Fragment, lo: nat, hi: nat)
    requires
        f.shaped(lo, hi),
    ensures
        f.automaton().valid(),
        f.automaton().states.to_set() == f.states,
        f.automaton().states.no_duplicates(),
        f.automaton().states.len() == f.states.len(),
{
    lemma_ordered(f.states);
    let a = f.automaton();
    assert(a.accepting[0] == f.end);
}

} // verus!
