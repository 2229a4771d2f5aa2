//! Thompson's construction builds, for every syntax tree, a fragment whose
//! paths from entry to exit spell exactly the words that match the tree.

use crate::fragment_laws::lemma_fragment_automaton_valid;
use crate::language::{
    chain, cut, follows, label_word, lemma_follows_concat, lemma_follows_push, lemma_spells_concat,
    lemma_spells_empty, lemma_spells_push, lemma_spells_widen, spells, times, within, word_of,
};
use crate::state_set::State;
use crate::symbol::Symbol;
use crate::determinize::label_char;
use crate::symbol::in_alphabet;
use crate::thompsons::{
    apply_token, eps, is_literal, renamed, stack_after, syntax_tree, thompson_automaton, Expr,
    Fragment,
};
use crate::transition::Transition;
use vstd::prelude::*;

verus! {

/// An element of two joined sequences is an element of one of them.
pub proof fn lemma_contains_add<A>(x: Seq<A>, y: Seq<A>, t: A)
    ensures
        (x + y).contains(t) <==> (x.contains(t) || y.contains(t)),
{
    if (x + y).contains(t) {
        let i = choose|i: int| 0 <= i < (x + y).len() && (x + y)[i] == t;
        if i < x.len() {
            assert(x[i] == t);
        } else {
            assert(y[i - x.len()] == t);
        }
    }
    if x.contains(t) {
        let i = choose|i: int| 0 <= i < x.len() && x[i] == t;
        assert((x + y)[i] == t);
    }
    if y.contains(t) {
        let i = choose|i: int| 0 <= i < y.len() && y[i] == t;
        assert((x + y)[i + x.len()] == t);
    }
}

/// A path without its last transition is a path, and the last transition
/// is one of those it runs over.
pub proof fn lemma_within_drop_last(ts: Seq<Transition>, delta: Seq<Transition>)
    requires
        within(ts, delta),
        ts.len() > 0,
    ensures
        within(ts.drop_last(), delta),
        delta.contains(ts.last()),
{
    assert(delta.contains(ts[ts.len() - 1]));
    assert forall|i: int| 0 <= i < ts.drop_last().len() implies delta.contains(
        #[trigger] ts.drop_last()[i],
    ) by {
        assert(ts.drop_last()[i] == ts[i]);
    }
}

/// A path that ends in a state which no transition enters has no
/// transition at all.
pub proof fn lemma_no_return(delta: Seq<Transition>, ts: Seq<Transition>, p: State, q: State)
    requires
        within(ts, delta),
        chain(ts, p, q),
        forall|t: Transition| delta.contains(t) ==> t.end != q,
    ensures
        ts.len() == 0,
        p == q,
{
    if ts.len() > 0 {
        lemma_within_drop_last(ts, delta);
    }
}

/// What the shape of a fragment says of each of its transitions.
pub proof fn lemma_shape_contains(f: Fragment, lo: nat, hi: nat, t: Transition)
    requires
        f.shaped(lo, hi),
        f.delta.contains(t),
    ensures
        f.states.contains(t.start),
        f.states.contains(t.end),
        t.end != f.start,
        t.start != f.end,
        lo <= t.start < hi,
        lo <= t.end < hi,
{
    let i = choose|i: int| 0 <= i < f.delta.len() && f.delta[i] == t;
    assert(f.states.contains(f.delta[i].start));
}

/// The transition into the wrapped fragment.
pub open spec fn enter(inner: Fragment, n: nat) -> Transition {
    eps(n as State, inner.start)
}

/// The transition out of the wrapped fragment.
pub open spec fn leave(inner: Fragment, n: nat) -> Transition {
    eps(inner.end, (n + 1) as State)
}

/// The transition past the wrapped fragment.
pub open spec fn pass(n: nat) -> Transition {
    eps(n as State, (n + 1) as State)
}

/// The transition back to the entry of the wrapped fragment.
pub open spec fn again(inner: Fragment) -> Transition {
    eps(inner.end, inner.start)
}

/// The transitions that attach a new entry and exit to a fragment: into
/// it and out of it, past it if `skip`, and back to its entry if `repeat`.
pub open spec fn attachments(inner: Fragment, n: nat, skip: bool, repeat: bool) -> Seq<Transition> {
    seq![enter(inner, n), leave(inner, n)] + (if skip {
        seq![pass(n)]
    } else {
        Seq::empty()
    }) + (if repeat {
        seq![again(inner)]
    } else {
        Seq::empty()
    })
}

/// The fragment `inner` with a new entry and exit attached.
pub open spec fn wrapped(inner: Fragment, n: nat, skip: bool, repeat: bool) -> Fragment {
    Fragment::wrap(inner, n, attachments(inner, n, skip, repeat))
}

/// `w` is made of some number of words that match `a`: none only if
/// `skip`, more than one only if `repeat`.
pub open spec fn repeated(a: Expr, w: Seq<char>, skip: bool, repeat: bool) -> bool {
    exists|k: nat| #[trigger] times(k) && a.power(w, k) && (k == 0 ==> skip) && (k > 1 ==> repeat)
}

/// Which of the attaching transitions a transition is.
pub proof fn lemma_attachment(inner: Fragment, n: nat, skip: bool, repeat: bool, t: Transition)
    ensures
        attachments(inner, n, skip, repeat).contains(t) <==> (t == enter(inner, n) || t == leave(
            inner,
            n,
        ) || (skip && t == pass(n)) || (repeat && t == again(inner))),
{
    let base = seq![enter(inner, n), leave(inner, n)];
    let s = if skip {
        seq![pass(n)]
    } else {
        Seq::empty()
    };
    let r = if repeat {
        seq![again(inner)]
    } else {
        Seq::empty()
    };
    lemma_contains_add(base + s, r, t);
    lemma_contains_add(base, s, t);
    if base.contains(t) {
        let i = choose|i: int| 0 <= i < base.len() && base[i] == t;
    }
    assert(base[0] == enter(inner, n));
    assert(base[1] == leave(inner, n));
    if skip {
        assert(s[0] == pass(n));
        if s.contains(t) {
            let i = choose|i: int| 0 <= i < s.len() && s[i] == t;
        }
    }
    if repeat {
        assert(r[0] == again(inner));
        if r.contains(t) {
            let i = choose|i: int| 0 <= i < r.len() && r[i] == t;
        }
    }
}

/// Within the wrapping, `k` words that match the operand are spelled from
/// the entry of the operand to its exit.
pub proof fn lemma_wrapped_rounds(
    a: Expr,
    inner: Fragment,
    delta: Seq<Transition>,
    w: Seq<char>,
    k: nat,
)
    requires
        k >= 1,
        a.power(w, k),
        k > 1 ==> delta.contains(again(inner)),
        forall|t: Transition| inner.delta.contains(t) ==> delta.contains(t),
        forall|u: Seq<char>|
            a.matches(u) ==> #[trigger] spells(inner.delta, inner.start, inner.end, u),
    ensures
        spells(delta, inner.start, inner.end, w),
    decreases k,
{
    let j = choose|j: int|
        #[trigger] cut(w, j) && a.matches(w.take(j)) && a.power(w.skip(j), (k - 1) as nat);
    assert(spells(inner.delta, inner.start, inner.end, w.take(j)));
    lemma_spells_widen(inner.delta, delta, inner.start, inner.end, w.take(j));
    if k == 1 {
        assert(w.skip(j) =~= Seq::<char>::empty());
        assert(w.take(j) =~= w);
    } else {
        lemma_wrapped_rounds(a, inner, delta, w.skip(j), (k - 1) as nat);
        lemma_spells_push(delta, inner.start, w.take(j), again(inner));
        lemma_spells_concat(
            delta,
            inner.start,
            inner.start,
            inner.end,
            w.take(j) + label_word(Symbol::Empty),
            w.skip(j),
        );
        assert(w.take(j) + label_word(Symbol::Empty) + w.skip(j) =~= w);
    }
}

/// Every word made of words that match the operand is spelled from the
/// new entry to the new exit.
pub proof fn lemma_wrapped_complete(
    a: Expr,
    inner: Fragment,
    n: nat,
    skip: bool,
    repeat: bool,
    w: Seq<char>,
)
    requires
        repeated(a, w, skip, repeat),
        forall|u: Seq<char>|
            a.matches(u) ==> #[trigger] spells(inner.delta, inner.start, inner.end, u),
    ensures
        spells(wrapped(inner, n, skip, repeat).delta, n as State, (n + 1) as State, w),
{
    let delta = wrapped(inner, n, skip, repeat).delta;
    let k = choose|k: nat|
        #[trigger] times(k) && a.power(w, k) && (k == 0 ==> skip) && (k > 1 ==> repeat);
    assert forall|t: Transition|
        delta.contains(t) <==> (inner.delta.contains(t) || attachments(
            inner,
            n,
            skip,
            repeat,
        ).contains(t)) by {
        lemma_contains_add(inner.delta, attachments(inner, n, skip, repeat), t);
    }
    lemma_attachment(inner, n, skip, repeat, enter(inner, n));
    lemma_attachment(inner, n, skip, repeat, leave(inner, n));
    lemma_attachment(inner, n, skip, repeat, pass(n));
    lemma_attachment(inner, n, skip, repeat, again(inner));
    lemma_spells_empty(delta, n as State);
    if k == 0 {
        lemma_spells_push(delta, n as State, Seq::empty(), pass(n));
        assert(Seq::<char>::empty() + label_word(Symbol::Empty) =~= w);
    } else {
        lemma_spells_push(delta, n as State, Seq::empty(), enter(inner, n));
        lemma_wrapped_rounds(a, inner, delta, w, k);
        lemma_spells_concat(
            delta,
            n as State,
            inner.start,
            inner.end,
            Seq::<char>::empty() + label_word(Symbol::Empty),
            w,
        );
        let so_far = Seq::<char>::empty() + label_word(Symbol::Empty) + w;
        lemma_spells_push(delta, n as State, so_far, leave(inner, n));
        assert(so_far + label_word(Symbol::Empty) =~= w);
    }
}

/// A path from the new entry to a state of the operand spells some words
/// that match the operand, followed by a word spelled from the entry of the
/// operand to that state.
pub proof fn lemma_wrapped_inside(
    a: Expr,
    inner: Fragment,
    lo: nat,
    n: nat,
    skip: bool,
    repeat: bool,
    ts: Seq<Transition>,
    q: State,
) -> (r: (Seq<char>, Seq<char>, nat))
    requires
        inner.shaped(lo, n),
        lo <= n,
        n + 2 <= usize::MAX,
        forall|u: Seq<char>|
            #[trigger] spells(inner.delta, inner.start, inner.end, u) ==> a.matches(u),
        within(ts, wrapped(inner, n, skip, repeat).delta),
        chain(ts, n as State, q),
        inner.states.contains(q),
    ensures
        word_of(ts) == r.0 + r.1,
        a.power(r.0, r.2),
        r.2 > 0 ==> repeat,
        spells(inner.delta, inner.start, q, r.1),
    decreases ts.len(),
{
    let delta = wrapped(inner, n, skip, repeat).delta;
    let t = ts.last();
    let ts0 = ts.drop_last();
    lemma_within_drop_last(ts, delta);
    lemma_contains_add(inner.delta, attachments(inner, n, skip, repeat), t);
    lemma_attachment(inner, n, skip, repeat, t);
    if inner.delta.contains(t) {
        lemma_shape_contains(inner, lo, n, t);
        let (v, u, k) = lemma_wrapped_inside(a, inner, lo, n, skip, repeat, ts0, t.start);
        lemma_spells_push(inner.delta, inner.start, u, t);
        assert(word_of(ts) =~= v + (u + label_word(t.sym)));
        (v, u + label_word(t.sym), k)
    } else if t == enter(inner, n) {
        assert forall|x: Transition| delta.contains(x) implies x.end != n as State by {
            lemma_contains_add(inner.delta, attachments(inner, n, skip, repeat), x);
            lemma_attachment(inner, n, skip, repeat, x);
            if inner.delta.contains(x) {
                lemma_shape_contains(inner, lo, n, x);
            }
        }
        lemma_no_return(delta, ts0, n as State, n as State);
        lemma_spells_empty(inner.delta, inner.start);
        assert(word_of(ts0) =~= Seq::<char>::empty());
        assert(word_of(ts) =~= Seq::<char>::empty() + Seq::<char>::empty());
        (Seq::empty(), Seq::empty(), 0)
    } else {
        assert(t == again(inner));
        let (v, u, k) = lemma_wrapped_inside(a, inner, lo, n, skip, repeat, ts0, inner.end);
        assert(a.matches(u));
        a.lemma_power_append(v, k, u);
        lemma_spells_empty(inner.delta, inner.start);
        assert(word_of(ts) =~= (v + u) + Seq::<char>::empty());
        (v + u, Seq::empty(), k + 1)
    }
}

/// Every word spelled from the new entry to the new exit is made of words
/// that match the operand.
pub proof fn lemma_wrapped_sound(
    a: Expr,
    inner: Fragment,
    lo: nat,
    n: nat,
    skip: bool,
    repeat: bool,
    w: Seq<char>,
)
    requires
        inner.shaped(lo, n),
        lo <= n,
        n + 2 <= usize::MAX,
        forall|u: Seq<char>|
            #[trigger] spells(inner.delta, inner.start, inner.end, u) ==> a.matches(u),
        spells(wrapped(inner, n, skip, repeat).delta, n as State, (n + 1) as State, w),
    ensures
        repeated(a, w, skip, repeat),
{
    let delta = wrapped(inner, n, skip, repeat).delta;
    let entry = n as State;
    let exit = (n + 1) as State;
    let ts = choose|ts: Seq<Transition>| follows(delta, ts, entry, exit, w);
    let t = ts.last();
    let ts0 = ts.drop_last();
    lemma_within_drop_last(ts, delta);
    lemma_contains_add(inner.delta, attachments(inner, n, skip, repeat), t);
    lemma_attachment(inner, n, skip, repeat, t);
    if inner.delta.contains(t) {
        lemma_shape_contains(inner, lo, n, t);
    }
    if t == leave(inner, n) {
        let (v, u, k) = lemma_wrapped_inside(a, inner, lo, n, skip, repeat, ts0, inner.end);
        assert(a.matches(u));
        a.lemma_power_append(v, k, u);
        assert(w =~= v + u);
        assert(times(k + 1));
    } else {
        assert(t == pass(n));
        assert forall|x: Transition| delta.contains(x) implies x.end != n as State by {
            lemma_contains_add(inner.delta, attachments(inner, n, skip, repeat), x);
            lemma_attachment(inner, n, skip, repeat, x);
            if inner.delta.contains(x) {
                lemma_shape_contains(inner, lo, n, x);
            }
        }
        lemma_no_return(delta, ts0, n as State, n as State);
        assert(word_of(ts0) =~= Seq::<char>::empty());
        assert(w =~= Seq::<char>::empty());
        assert(times(0));
        assert(a.power(w, 0));
    }
}

/// The transitions that attach a new entry and exit to two alternatives.
pub open spec fn forks(a: Fragment, b: Fragment, n: nat) -> Seq<Transition> {
    seq![
        eps(n as State, a.start),
        eps(n as State, b.start),
        eps(a.end, (n + 1) as State),
        eps(b.end, (n + 1) as State),
    ]
}

/// Which of the forking transitions a transition is.
pub proof fn lemma_fork(a: Fragment, b: Fragment, n: nat, t: Transition)
    ensures
        forks(a, b, n).contains(t) <==> (t == eps(n as State, a.start) || t == eps(
            n as State,
            b.start,
        ) || t == eps(a.end, (n + 1) as State) || t == eps(b.end, (n + 1) as State)),
{
    let f = forks(a, b, n);
    if f.contains(t) {
        let i = choose|i: int| 0 <= i < f.len() && f[i] == t;
    }
    assert(f[0] == eps(n as State, a.start));
    assert(f[1] == eps(n as State, b.start));
    assert(f[2] == eps(a.end, (n + 1) as State));
    assert(f[3] == eps(b.end, (n + 1) as State));
}

/// The transitions of an alternation are those of its operands and the
/// forks.
pub proof fn lemma_either_contains(a: Fragment, b: Fragment, n: nat, t: Transition)
    ensures
        Fragment::either(a, b, n).delta.contains(t) <==> (a.delta.contains(t) || b.delta.contains(
            t,
        ) || forks(a, b, n).contains(t)),
{
    assert(Fragment::either(a, b, n).delta =~= a.delta + b.delta + forks(a, b, n));
    lemma_contains_add(a.delta + b.delta, forks(a, b, n), t);
    lemma_contains_add(a.delta, b.delta, t);
}

/// A path from the new entry to a state of an operand spells a word that
/// is spelled from the entry of that operand to the state.
pub proof fn lemma_either_inside(
    a: Fragment,
    b: Fragment,
    lo: nat,
    mid: nat,
    n: nat,
    ts: Seq<Transition>,
    q: State,
)
    requires
        a.shaped(lo, mid),
        b.shaped(mid, n),
        lo <= mid <= n,
        n + 2 <= usize::MAX,
        within(ts, Fragment::either(a, b, n).delta),
        chain(ts, n as State, q),
        a.states.contains(q) || b.states.contains(q),
    ensures
        a.states.contains(q) ==> spells(a.delta, a.start, q, word_of(ts)),
        b.states.contains(q) ==> spells(b.delta, b.start, q, word_of(ts)),
    decreases ts.len(),
{
    let delta = Fragment::either(a, b, n).delta;
    let t = ts.last();
    let ts0 = ts.drop_last();
    lemma_within_drop_last(ts, delta);
    lemma_either_contains(a, b, n, t);
    lemma_fork(a, b, n, t);
    if a.delta.contains(t) {
        lemma_shape_contains(a, lo, mid, t);
        lemma_either_inside(a, b, lo, mid, n, ts0, t.start);
        lemma_spells_push(a.delta, a.start, word_of(ts0), t);
    } else if b.delta.contains(t) {
        lemma_shape_contains(b, mid, n, t);
        lemma_either_inside(a, b, lo, mid, n, ts0, t.start);
        lemma_spells_push(b.delta, b.start, word_of(ts0), t);
    } else {
        assert forall|x: Transition| delta.contains(x) implies x.end != n as State by {
            lemma_either_contains(a, b, n, x);
            lemma_fork(a, b, n, x);
            if a.delta.contains(x) {
                lemma_shape_contains(a, lo, mid, x);
            }
            if b.delta.contains(x) {
                lemma_shape_contains(b, mid, n, x);
            }
        }
        lemma_no_return(delta, ts0, n as State, n as State);
        assert(word_of(ts0) =~= Seq::<char>::empty());
        assert(word_of(ts) =~= Seq::<char>::empty());
        if t == eps(n as State, a.start) {
            lemma_spells_empty(a.delta, a.start);
        } else {
            lemma_spells_empty(b.delta, b.start);
        }
    }
}

/// The paths through an alternation spell the words that either operand
/// spells.
pub proof fn lemma_either_language(
    a: Fragment,
    b: Fragment,
    lo: nat,
    mid: nat,
    n: nat,
    w: Seq<char>,
)
    requires
        a.shaped(lo, mid),
        b.shaped(mid, n),
        lo <= mid <= n,
        n + 2 <= usize::MAX,
    ensures
        spells(Fragment::either(a, b, n).delta, n as State, (n + 1) as State, w) <==> (spells(
            a.delta,
            a.start,
            a.end,
            w,
        ) || spells(b.delta, b.start, b.end, w)),
{
    let delta = Fragment::either(a, b, n).delta;
    assert forall|t: Transition|
        delta.contains(t) <==> (a.delta.contains(t) || b.delta.contains(t) || forks(
            a,
            b,
            n,
        ).contains(t)) by {
        lemma_either_contains(a, b, n, t);
    }
    assert forall|t: Transition|
        forks(a, b, n).contains(t) <==> (t == eps(n as State, a.start) || t == eps(
            n as State,
            b.start,
        ) || t == eps(a.end, (n + 1) as State) || t == eps(b.end, (n + 1) as State)) by {
        lemma_fork(a, b, n, t);
    }
    let nothing = Seq::<char>::empty();
    if spells(a.delta, a.start, a.end, w) {
        lemma_spells_empty(delta, n as State);
        lemma_spells_push(delta, n as State, nothing, eps(n as State, a.start));
        lemma_spells_widen(a.delta, delta, a.start, a.end, w);
        lemma_spells_concat(delta, n as State, a.start, a.end, nothing + nothing, w);
        lemma_spells_push(delta, n as State, nothing + nothing + w, eps(a.end, (n + 1) as State));
        assert(nothing + nothing + w + nothing =~= w);
    }
    if spells(b.delta, b.start, b.end, w) {
        lemma_spells_empty(delta, n as State);
        lemma_spells_push(delta, n as State, nothing, eps(n as State, b.start));
        lemma_spells_widen(b.delta, delta, b.start, b.end, w);
        lemma_spells_concat(delta, n as State, b.start, b.end, nothing + nothing, w);
        lemma_spells_push(delta, n as State, nothing + nothing + w, eps(b.end, (n + 1) as State));
        assert(nothing + nothing + w + nothing =~= w);
    }
    if spells(delta, n as State, (n + 1) as State, w) {
        let entry = n as State;
        let exit = (n + 1) as State;
        let ts = choose|ts: Seq<Transition>| follows(delta, ts, entry, exit, w);
        let t = ts.last();
        let ts0 = ts.drop_last();
        lemma_within_drop_last(ts, delta);
        if a.delta.contains(t) {
            lemma_shape_contains(a, lo, mid, t);
        }
        if b.delta.contains(t) {
            lemma_shape_contains(b, mid, n, t);
        }
        if t == eps(a.end, (n + 1) as State) {
            lemma_either_inside(a, b, lo, mid, n, ts0, a.end);
            assert(w =~= word_of(ts0));
        } else {
            assert(t == eps(b.end, (n + 1) as State));
            lemma_either_inside(a, b, lo, mid, n, ts0, b.end);
            assert(w =~= word_of(ts0));
        }
    }
}

/// The state that `q` becomes when `from` is renamed to `to`.
pub open spec fn renamed_state(q: State, from: State, to: State) -> State {
    if q == from {
        to
    } else {
        q
    }
}

/// A path keeps being a path, and spells the same word, when a state is
/// renamed throughout.
pub proof fn lemma_follows_renamed(
    delta: Seq<Transition>,
    ts: Seq<Transition>,
    p: State,
    q: State,
    w: Seq<char>,
    from: State,
    to: State,
)
    requires
        follows(delta, ts, p, q, w),
    ensures
        follows(
            delta.map_values(|t: Transition| renamed(t, from, to)),
            ts.map_values(|t: Transition| renamed(t, from, to)),
            renamed_state(p, from, to),
            renamed_state(q, from, to),
            w,
        ),
    decreases ts.len(),
{
    let f = |t: Transition| renamed(t, from, to);
    let rd = delta.map_values(f);
    let rts = ts.map_values(f);
    if ts.len() == 0 {
        assert(rts =~= Seq::<Transition>::empty());
    } else {
        let t = ts.last();
        let ts0 = ts.drop_last();
        lemma_within_drop_last(ts, delta);
        lemma_follows_renamed(delta, ts0, p, t.start, word_of(ts0), from, to);
        let i = choose|i: int| 0 <= i < delta.len() && delta[i] == t;
        assert(rd[i] == f(t));
        assert(rd.contains(f(t)));
        assert(renamed(t, from, to).start == renamed_state(t.start, from, to));
        lemma_follows_push(
            rd,
            ts0.map_values(f),
            renamed_state(p, from, to),
            word_of(ts0),
            f(t),
        );
        assert(ts0.map_values(f).push(f(t)) =~= rts);
    }
}

/// The transitions of a concatenation are those of the first operand and
/// the renamed ones of the second.
pub proof fn lemma_fuse_contains(a: Fragment, b: Fragment, t: Transition)
    ensures
        Fragment::fuse(a, b).delta.contains(t) <==> (a.delta.contains(t) || exists|x: Transition|
            b.delta.contains(x) && t == renamed(x, b.start, a.end)),
{
    let rb = b.delta.map_values(|x: Transition| renamed(x, b.start, a.end));
    lemma_contains_add(a.delta, rb, t);
    if rb.contains(t) {
        let i = choose|i: int| 0 <= i < rb.len() && rb[i] == t;
        assert(b.delta.contains(b.delta[i]));
        assert(t == renamed(b.delta[i], b.start, a.end));
    }
    if exists|x: Transition| b.delta.contains(x) && t == renamed(x, b.start, a.end) {
        let x = choose|x: Transition| b.delta.contains(x) && t == renamed(x, b.start, a.end);
        let i = choose|i: int| 0 <= i < b.delta.len() && b.delta[i] == x;
        assert(rb[i] == t);
    }
}

/// A path from the entry of a concatenation stays within the first operand
/// until it crosses the fused state, and within the second from then on.
pub proof fn lemma_fuse_inside(
    a: Fragment,
    b: Fragment,
    lo: nat,
    mid: nat,
    hi: nat,
    ts: Seq<Transition>,
    q: State,
) -> (r: (Seq<char>, Seq<char>))
    requires
        a.shaped(lo, mid),
        b.shaped(mid, hi),
        lo <= mid <= hi,
        within(ts, Fragment::fuse(a, b).delta),
        chain(ts, a.start, q),
    ensures
        a.states.contains(q) || (b.states.contains(q) && q != b.start),
        a.states.contains(q) ==> spells(a.delta, a.start, q, word_of(ts)),
        !a.states.contains(q) ==> word_of(ts) == r.0 + r.1 && spells(
            a.delta,
            a.start,
            a.end,
            r.0,
        ) && spells(b.delta, b.start, q, r.1),
    decreases ts.len(),
{
    let delta = Fragment::fuse(a, b).delta;
    if ts.len() == 0 {
        lemma_spells_empty(a.delta, a.start);
        (Seq::empty(), Seq::empty())
    } else {
        let t = ts.last();
        let ts0 = ts.drop_last();
        lemma_within_drop_last(ts, delta);
        lemma_fuse_contains(a, b, t);
        let (u, v) = lemma_fuse_inside(a, b, lo, mid, hi, ts0, t.start);
        if a.delta.contains(t) {
            lemma_shape_contains(a, lo, mid, t);
            lemma_spells_push(a.delta, a.start, word_of(ts0), t);
            (Seq::empty(), Seq::empty())
        } else {
            let x = choose|x: Transition| b.delta.contains(x) && t == renamed(x, b.start, a.end);
            lemma_shape_contains(b, mid, hi, x);
            if x.start == b.start {
                lemma_spells_empty(b.delta, b.start);
                lemma_spells_push(b.delta, b.start, Seq::empty(), x);
                assert(Seq::<char>::empty() + label_word(x.sym) =~= label_word(x.sym));
                (word_of(ts0), label_word(x.sym))
            } else {
                lemma_spells_push(b.delta, b.start, v, x);
                assert(word_of(ts) =~= u + (v + label_word(x.sym)));
                (u, v + label_word(x.sym))
            }
        }
    }
}

/// The paths through a concatenation spell a word of the first operand
/// followed by a word of the second.
pub proof fn lemma_fuse_language(
    a: Fragment,
    b: Fragment,
    lo: nat,
    mid: nat,
    hi: nat,
    w: Seq<char>,
)
    requires
        a.shaped(lo, mid),
        b.shaped(mid, hi),
        lo <= mid <= hi,
    ensures
        spells(Fragment::fuse(a, b).delta, a.start, b.end, w) <==> exists|j: int|
            #[trigger] cut(w, j) && spells(a.delta, a.start, a.end, w.take(j)) && spells(
                b.delta,
                b.start,
                b.end,
                w.skip(j),
            ),
{
    let delta = Fragment::fuse(a, b).delta;
    let f = |t: Transition| renamed(t, b.start, a.end);
    if spells(delta, a.start, b.end, w) {
        let ts = choose|ts: Seq<Transition>| follows(delta, ts, a.start, b.end, w);
        let (u, v) = lemma_fuse_inside(a, b, lo, mid, hi, ts, b.end);
        assert(w =~= u + v);
        assert(w.take(u.len() as int) =~= u);
        assert(w.skip(u.len() as int) =~= v);
        assert(cut(w, u.len() as int));
    }
    if exists|j: int|
        #[trigger] cut(w, j) && spells(a.delta, a.start, a.end, w.take(j)) && spells(
            b.delta,
            b.start,
            b.end,
            w.skip(j),
        ) {
        let j = choose|j: int|
            #[trigger] cut(w, j) && spells(a.delta, a.start, a.end, w.take(j)) && spells(
                b.delta,
                b.start,
                b.end,
                w.skip(j),
            );
        let x = choose|ts: Seq<Transition>| follows(a.delta, ts, a.start, a.end, w.take(j));
        let y = choose|ts: Seq<Transition>| follows(b.delta, ts, b.start, b.end, w.skip(j));
        lemma_follows_renamed(b.delta, y, b.start, b.end, w.skip(j), b.start, a.end);
        let rb = b.delta.map_values(f);
        let ry = y.map_values(f);
        assert(within(x, delta)) by {
            assert forall|i: int| 0 <= i < x.len() implies delta.contains(#[trigger] x[i]) by {
                lemma_contains_add(a.delta, rb, x[i]);
            }
        }
        assert(within(ry, delta)) by {
            assert forall|i: int| 0 <= i < ry.len() implies delta.contains(#[trigger] ry[i]) by {
                lemma_contains_add(a.delta, rb, ry[i]);
            }
        }
        lemma_follows_concat(delta, x, ry, a.start, a.end, b.end, w.take(j), w.skip(j));
        assert(w.take(j) + w.skip(j) =~= w);
    }
}

/// What the construction up to an operand has established: the paths
/// through the fragment `f` spell exactly the words that match `a`.
pub open spec fn speaks(f: Fragment, a: Expr) -> bool {
    forall|w: Seq<char>|
        #![trigger a.matches(w)]
        #![trigger spells(f.delta, f.start, f.end, w)]
        spells(f.delta, f.start, f.end, w) <==> a.matches(w)
}

/// The paths through the fragment of a concatenation spell the words that
/// match it.
pub proof fn lemma_and_language(a: Expr, b: Expr, n: nat, w: Seq<char>)
    requires
        n + a.ids_needed() + b.ids_needed() <= usize::MAX,
        speaks(a.fragment(n), a),
        speaks(b.fragment(n + a.ids_needed()), b),
    ensures
        spells(
            Fragment::fuse(a.fragment(n), b.fragment(n + a.ids_needed())).delta,
            a.fragment(n).start,
            b.fragment(n + a.ids_needed()).end,
            w,
        ) <==> exists|j: int| #[trigger] cut(w, j) && a.matches(w.take(j)) && b.matches(w.skip(j)),
{
    let m = n + a.ids_needed();
    let fa = a.fragment(n);
    let fb = b.fragment(m);
    a.lemma_fragment_shaped(n);
    b.lemma_fragment_shaped(m);
    lemma_fuse_language(fa, fb, n, m, m + b.ids_needed(), w);
    if exists|j: int| #[trigger] cut(w, j) && a.matches(w.take(j)) && b.matches(w.skip(j)) {
        let j = choose|j: int| #[trigger] cut(w, j) && a.matches(w.take(j)) && b.matches(w.skip(j));
        assert(spells(fa.delta, fa.start, fa.end, w.take(j)));
        assert(spells(fb.delta, fb.start, fb.end, w.skip(j)));
    }
    if spells(Fragment::fuse(fa, fb).delta, fa.start, fb.end, w) {
        let j = choose|j: int|
            #[trigger] cut(w, j) && spells(fa.delta, fa.start, fa.end, w.take(j)) && spells(
                fb.delta,
                fb.start,
                fb.end,
                w.skip(j),
            );
        assert(a.matches(w.take(j)));
        assert(b.matches(w.skip(j)));
    }
}

/// The paths through the fragment of an alternation spell the words that
/// match one of its operands.
pub proof fn lemma_or_language(a: Expr, b: Expr, n: nat, w: Seq<char>)
    requires
        n + a.ids_needed() + b.ids_needed() + 2 <= usize::MAX,
        speaks(a.fragment(n), a),
        speaks(b.fragment(n + a.ids_needed()), b),
    ensures
        ({
            let f = Fragment::either(
                a.fragment(n),
                b.fragment(n + a.ids_needed()),
                n + a.ids_needed() + b.ids_needed(),
            );
            spells(f.delta, f.start, f.end, w) <==> (a.matches(w) || b.matches(w))
        }),
{
    let m = n + a.ids_needed();
    a.lemma_fragment_shaped(n);
    b.lemma_fragment_shaped(m);
    lemma_either_language(a.fragment(n), b.fragment(m), n, m, m + b.ids_needed(), w);
}

/// The paths through the fragment of a repetition or an option spell the
/// words made of words that match the operand.
pub proof fn lemma_repeat_language(a: Expr, n: nat, skip: bool, repeat: bool, w: Seq<char>)
    requires
        n + a.ids_needed() + 2 <= usize::MAX,
        speaks(a.fragment(n), a),
    ensures
        ({
            let f = wrapped(a.fragment(n), n + a.ids_needed(), skip, repeat);
            spells(f.delta, f.start, f.end, w) <==> repeated(a, w, skip, repeat)
        }),
{
    a.lemma_fragment_shaped(n);
    lemma_wrapped_language(a, a.fragment(n), n, n + a.ids_needed(), skip, repeat, w);
}

/// A word matches a repetition that may be empty when it is made of any
/// number of words that match the operand.
pub proof fn lemma_star_matches(a: Expr, w: Seq<char>)
    ensures
        (exists|k: nat| #[trigger] times(k) && a.power(w, k)) <==> repeated(a, w, true, true),
{
    if exists|k: nat| #[trigger] times(k) && a.power(w, k) {
        let k = choose|k: nat| #[trigger] times(k) && a.power(w, k);
        assert(times(k) && a.power(w, k) && (k == 0 ==> true) && (k > 1 ==> true));
    }
    if repeated(a, w, true, true) {
        let k = choose|k: nat|
            #[trigger] times(k) && a.power(w, k) && (k == 0 ==> true) && (k > 1 ==> true);
        assert(times(k) && a.power(w, k));
    }
}

/// A word matches a repetition that may not be empty when it is made of at
/// least one word that matches the operand.
pub proof fn lemma_plus_matches(a: Expr, w: Seq<char>)
    ensures
        (exists|k: nat| #[trigger] times(k) && k >= 1 && a.power(w, k)) <==> repeated(
            a,
            w,
            false,
            true,
        ),
{
    if exists|k: nat| #[trigger] times(k) && k >= 1 && a.power(w, k) {
        let k = choose|k: nat| #[trigger] times(k) && k >= 1 && a.power(w, k);
        assert(times(k) && a.power(w, k) && (k == 0 ==> false) && (k > 1 ==> true));
    }
    if repeated(a, w, false, true) {
        let k = choose|k: nat|
            #[trigger] times(k) && a.power(w, k) && (k == 0 ==> false) && (k > 1 ==> true);
        assert(times(k) && k >= 1 && a.power(w, k));
    }
}

/// A word matches an option when it is empty or matches the operand.
pub proof fn lemma_option_matches(a: Expr, w: Seq<char>)
    ensures
        (w == Seq::<char>::empty() || a.matches(w)) <==> repeated(a, w, true, false),
{
    a.lemma_power_one(w);
    if w == Seq::<char>::empty() {
        assert(times(0) && a.power(w, 0) && (0nat == 0 ==> true) && (0nat > 1 ==> false));
    } else if a.matches(w) {
        assert(times(1) && a.power(w, 1) && (1nat == 0 ==> true) && (1nat > 1 ==> false));
    }
    if repeated(a, w, true, false) {
        let k = choose|k: nat|
            #[trigger] times(k) && a.power(w, k) && (k == 0 ==> true) && (k > 1 ==> false);
        assert(k == 0 || k == 1);
    }
}

impl Expr {
    /// Thompson's construction is correct: the paths from the entry of the
    /// fragment of a tree to its exit spell exactly the words that match
    /// the tree.
    pub proof fn lemma_fragment_language(self, n: nat)
        requires
            n + self.ids_needed() <= usize::MAX,
        ensures
            speaks(self.fragment(n), self),
        decreases self,
    {
        let f = self.fragment(n);
        match self {
            Expr::Empty => {
                assert forall|w: Seq<char>|
                    spells(f.delta, f.start, f.end, w) <==> self.matches(w) by {
                    lemma_single_language(Symbol::Empty, n, w);
                }
            },
            Expr::Just(sym) => {
                assert forall|w: Seq<char>|
                    spells(f.delta, f.start, f.end, w) <==> self.matches(w) by {
                    lemma_single_language(sym, n, w);
                }
            },
            Expr::Or(a, b) => {
                a.lemma_fragment_language(n);
                b.lemma_fragment_language(n + a.ids_needed());
                assert forall|w: Seq<char>|
                    spells(f.delta, f.start, f.end, w) <==> self.matches(w) by {
                    lemma_or_language(*a, *b, n, w);
                }
            },
            Expr::And(a, b) => {
                a.lemma_fragment_language(n);
                b.lemma_fragment_language(n + a.ids_needed());
                assert forall|w: Seq<char>|
                    spells(f.delta, f.start, f.end, w) <==> self.matches(w) by {
                    lemma_and_language(*a, *b, n, w);
                }
            },
            Expr::Star(a) => {
                a.lemma_fragment_language(n);
                assert(f.delta =~= wrapped(a.fragment(n), n + a.ids_needed(), true, true).delta);
                assert forall|w: Seq<char>|
                    spells(f.delta, f.start, f.end, w) <==> self.matches(w) by {
                    lemma_repeat_language(*a, n, true, true, w);
                    lemma_star_matches(*a, w);
                }
            },
            Expr::Plus(a) => {
                a.lemma_fragment_language(n);
                assert(f.delta =~= wrapped(a.fragment(n), n + a.ids_needed(), false, true).delta);
                assert forall|w: Seq<char>|
                    spells(f.delta, f.start, f.end, w) <==> self.matches(w) by {
                    lemma_repeat_language(*a, n, false, true, w);
                    lemma_plus_matches(*a, w);
                }
            },
            Expr::QMark(a) => {
                a.lemma_fragment_language(n);
                assert(f.delta =~= wrapped(a.fragment(n), n + a.ids_needed(), true, false).delta);
                assert forall|w: Seq<char>|
                    spells(f.delta, f.start, f.end, w) <==> self.matches(w) by {
                    lemma_repeat_language(*a, n, true, false, w);
                    lemma_option_matches(*a, w);
                }
            },
        }
    }
}

/// The paths through a wrapped fragment spell the words made of words of
/// the operand.
pub proof fn lemma_wrapped_language(
    a: Expr,
    inner: Fragment,
    lo: nat,
    n: nat,
    skip: bool,
    repeat: bool,
    w: Seq<char>,
)
    requires
        inner.shaped(lo, n),
        lo <= n,
        n + 2 <= usize::MAX,
        forall|u: Seq<char>|
            #![trigger a.matches(u)]
            #![trigger spells(inner.delta, inner.start, inner.end, u)]
            spells(inner.delta, inner.start, inner.end, u) <==> a.matches(u),
    ensures
        spells(wrapped(inner, n, skip, repeat).delta, n as State, (n + 1) as State, w)
            <==> repeated(a, w, skip, repeat),
{
    if repeated(a, w, skip, repeat) {
        lemma_wrapped_complete(a, inner, n, skip, repeat, w);
    }
    if spells(wrapped(inner, n, skip, repeat).delta, n as State, (n + 1) as State, w) {
        lemma_wrapped_sound(a, inner, lo, n, skip, repeat, w);
    }
}

/// The one path through a leaf spells its label.
pub proof fn lemma_single_language(sym: Symbol, n: nat, w: Seq<char>)
    requires
        n + 2 <= usize::MAX,
    ensures
        spells(
            Fragment::single(sym, n).delta,
            n as State,
            (n + 1) as State,
            w,
        ) <==> w == label_word(sym),
{
    let f = Fragment::single(sym, n);
    let t = Transition { sym, start: n as State, end: (n + 1) as State };
    assert(f.delta[0] == t);
    if w == label_word(sym) {
        lemma_spells_empty(f.delta, n as State);
        lemma_spells_push(f.delta, n as State, Seq::empty(), t);
        assert(Seq::<char>::empty() + label_word(sym) =~= w);
    }
    if spells(f.delta, n as State, (n + 1) as State, w) {
        let entry = n as State;
        let exit = (n + 1) as State;
        let ts = choose|ts: Seq<Transition>| follows(f.delta, ts, entry, exit, w);
        let ts0 = ts.drop_last();
        lemma_within_drop_last(ts, f.delta);
        assert forall|x: Transition| f.delta.contains(x) implies x == t by {
            let i = choose|i: int| 0 <= i < f.delta.len() && f.delta[i] == x;
        }
        lemma_no_return(f.delta, ts0, n as State, n as State);
        assert(word_of(ts0) =~= Seq::<char>::empty());
        assert(w =~= label_word(sym));
    }
}

impl Expr {
    /// Every leaf of the tree is the empty symbol or a literal character.
    pub open spec fn literal_leaves(self) -> bool
        decreases self,
    {
        match self {
            Expr::Empty => true,
            Expr::Just(sym) => match sym {
                Symbol::Empty => true,
                Symbol::Char(c) => is_literal(c),
            },
            Expr::Or(a, b) => a.literal_leaves() && b.literal_leaves(),
            Expr::And(a, b) => a.literal_leaves() && b.literal_leaves(),
            Expr::Star(a) => a.literal_leaves(),
            Expr::Plus(a) => a.literal_leaves(),
            Expr::QMark(a) => a.literal_leaves(),
        }
    }

    /// The transitions of the fragment of a tree with literal leaves are
    /// labelled with the empty symbol or a literal character.
    pub proof fn lemma_fragment_labels(self, n: nat)
        requires
            self.literal_leaves(),
        ensures
            literal_labels(self.fragment(n).delta),
        decreases self,
    {
        let f = self.fragment(n);
        match self {
            Expr::Empty => {},
            Expr::Just(sym) => {},
            Expr::Or(a, b) => {
                let m = n + a.ids_needed();
                a.lemma_fragment_labels(n);
                b.lemma_fragment_labels(m);
                lemma_labels_add(a.fragment(n).delta, b.fragment(m).delta);
                lemma_labels_add(
                    a.fragment(n).delta + b.fragment(m).delta,
                    forks(a.fragment(n), b.fragment(m), m + b.ids_needed()),
                );
                assert(f.delta =~= a.fragment(n).delta + b.fragment(m).delta + forks(
                    a.fragment(n),
                    b.fragment(m),
                    m + b.ids_needed(),
                ));
            },
            Expr::And(a, b) => {
                let m = n + a.ids_needed();
                a.lemma_fragment_labels(n);
                b.lemma_fragment_labels(m);
                let fa = a.fragment(n);
                let fb = b.fragment(m);
                let rb = fb.delta.map_values(|t: Transition| renamed(t, fb.start, fa.end));
                assert(literal_labels(rb)) by {
                    assert forall|i: int| 0 <= i < rb.len() implies literal_label(
                        (#[trigger] rb[i]).sym,
                    ) by {
                        assert(rb[i].sym == fb.delta[i].sym);
                    }
                }
                lemma_labels_add(fa.delta, rb);
            },
            Expr::Star(a) => {
                a.lemma_fragment_labels(n);
                let inner = a.fragment(n);
                let m = n + a.ids_needed();
                assert(f.delta =~= inner.delta + attachments(inner, m, true, true));
                lemma_labels_add(inner.delta, attachments(inner, m, true, true));
            },
            Expr::Plus(a) => {
                a.lemma_fragment_labels(n);
                let inner = a.fragment(n);
                let m = n + a.ids_needed();
                assert(f.delta =~= inner.delta + attachments(inner, m, false, true));
                lemma_labels_add(inner.delta, attachments(inner, m, false, true));
            },
            Expr::QMark(a) => {
                a.lemma_fragment_labels(n);
                let inner = a.fragment(n);
                let m = n + a.ids_needed();
                assert(f.delta =~= inner.delta + attachments(inner, m, true, false));
                lemma_labels_add(inner.delta, attachments(inner, m, true, false));
            },
        }
    }
}

/// `sym` is the empty symbol or a literal character.
pub open spec fn literal_label(sym: Symbol) -> bool {
    match sym {
        Symbol::Empty => true,
        Symbol::Char(c) => is_literal(c),
    }
}

/// Every transition of `delta` is labelled with the empty symbol or a
/// literal character.
pub open spec fn literal_labels(delta: Seq<Transition>) -> bool {
    forall|i: int| 0 <= i < delta.len() ==> literal_label((#[trigger] delta[i]).sym)
}

/// Joining two lists of transitions keeps their labels.
pub proof fn lemma_labels_add(x: Seq<Transition>, y: Seq<Transition>)
    requires
        literal_labels(x),
        forall|i: int| 0 <= i < y.len() ==> literal_label((#[trigger] y[i]).sym),
    ensures
        literal_labels(x + y),
{
    assert forall|i: int| 0 <= i < (x + y).len() implies literal_label(
        (#[trigger] (x + y)[i]).sym,
    ) by {
        if i < x.len() {
            assert((x + y)[i] == x[i]);
        } else {
            assert((x + y)[i] == y[i - x.len()]);
        }
    }
}

/// Every tree on the stack of the syntax-tree machine has literal leaves.
pub proof fn lemma_stack_literal(tokens: Seq<char>)
    ensures
        stack_after(tokens) matches Some(stack) ==> forall|i: int|
            0 <= i < stack.len() ==> (#[trigger] stack[i]).literal_leaves(),
    decreases tokens.len(),
{
    if tokens.len() > 0 {
        lemma_stack_literal(tokens.drop_last());
        match stack_after(tokens.drop_last()) {
            None => {},
            Some(before) => {
                let c = tokens.last();
                let n = before.len() as int;
                match apply_token(before, c) {
                    None => {},
                    Some(stack) => {
                        assert forall|i: int| 0 <= i < stack.len() implies (
                        #[trigger] stack[i]).literal_leaves() by {
                            if i < stack.len() - 1 {
                                assert(stack[i] == before[i]);
                            } else {
                                if n >= 1 {
                                    assert(before[n - 1].literal_leaves());
                                }
                                if n >= 2 {
                                    assert(before[n - 2].literal_leaves());
                                }
                            }
                        }
                    },
                }
            },
        }
    }
}

/// The automaton of a postfix pattern is labelled with characters of the
/// alphabet only.
pub proof fn lemma_thompson_labels(postfix: Seq<char>)
    requires
        thompson_automaton(postfix) is Some,
    ensures
        thompson_automaton(postfix)->0.labelled_within_alphabet(),
{
    let expr = syntax_tree(postfix)->0;
    lemma_stack_literal(postfix);
    let stack = stack_after(postfix)->0;
    assert(stack[0].literal_leaves());
    expr.lemma_fragment_labels(0);
    let a = thompson_automaton(postfix)->0;
    assert forall|i: int| 0 <= i < a.delta.len() implies in_alphabet(
        label_char((#[trigger] a.delta[i]).sym),
    ) by {
        assert(literal_label(a.delta[i].sym));
    }
}

/// The automaton of a postfix pattern accepts exactly the words that match
/// the syntax tree of the pattern.
pub proof fn lemma_thompson_language(postfix: Seq<char>, w: Seq<char>)
    requires
        thompson_automaton(postfix) is Some,
    ensures
        thompson_automaton(postfix)->0.accepts(w) == syntax_tree(postfix)->0.matches(w),
{
    let expr = syntax_tree(postfix)->0;
    let f = expr.fragment(0);
    let a = f.automaton();
    expr.lemma_fragment_language(0);
    expr.lemma_fragment_shaped(0);
    lemma_fragment_automaton_valid(f, 0, expr.ids_needed());
    a.lemma_accepts_spelled(w);
    assert(a.accepting[0] == f.end);
    assert(spells(f.delta, f.start, f.end, w) <==> expr.matches(w));
    if expr.matches(w) {
        assert(spells(f.delta, f.start, f.end, w));
        assert(a.accepting.contains(f.end) && spells(a.delta, a.starting, f.end, w));
    }
    if a.accepts(w) {
        let q = choose|q: State| a.accepting.contains(q) && spells(a.delta, a.starting, q, w);
        let i = choose|i: int| 0 <= i < a.accepting.len() && a.accepting[i] == q;
        assert(q == f.end);
    }
}

} // verus!
