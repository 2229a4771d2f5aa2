//! The language of an automaton as the words spelled along its paths, and
//! the language of a syntax tree.

use crate::automaton::Automaton;
use crate::state_set::State;
use crate::symbol::Symbol;
use crate::thompsons::Expr;
use crate::transition::Transition;
use vstd::prelude::*;

verus! {

/// What a label contributes to the word spelled along a path: nothing for
/// the empty symbol, the character itself otherwise.
pub open spec fn label_word(sym: Symbol) -> Seq<char> {
    match sym {
        Symbol::Empty => Seq::empty(),
        Symbol::Char(c) => seq![c],
    }
}

/// The transitions `ts` lead from `p` to `q`, each starting where the one
/// before it ends.
pub open spec fn chain(ts: Seq<Transition>, p: State, q: State) -> bool
    decreases ts.len(),
{
    if ts.len() == 0 {
        p == q
    } else {
        chain(ts.drop_last(), p, ts.last().start) && ts.last().end == q
    }
}

/// The word spelled by the labels of `ts`.
pub open spec fn word_of(ts: Seq<Transition>) -> Seq<char>
    decreases ts.len(),
{
    if ts.len() == 0 {
        Seq::empty()
    } else {
        word_of(ts.drop_last()) + label_word(ts.last().sym)
    }
}

/// Every transition of `ts` is one of `delta`.
pub open spec fn within(ts: Seq<Transition>, delta: Seq<Transition>) -> bool {
    forall|i: int| 0 <= i < ts.len() ==> delta.contains(#[trigger] ts[i])
}

/// `ts` is a path over `delta` from `p` to `q` that spells `w`.
pub open spec fn follows(
    delta: Seq<Transition>,
    ts: Seq<Transition>,
    p: State,
    q: State,
    w: Seq<char>,
) -> bool {
    within(ts, delta) && chain(ts, p, q) && word_of(ts) == w
}

/// Some path over `delta` from `p` to `q` spells `w`.
pub open spec fn spells(delta: Seq<Transition>, p: State, q: State, w: Seq<char>) -> bool {
    exists|ts: Seq<Transition>| follows(delta, ts, p, q, w)
}

/// The empty path spells the empty word.
pub proof fn lemma_spells_empty(delta: Seq<Transition>, p: State)
    ensures
        spells(delta, p, p, Seq::empty()),
{
    assert(follows(delta, Seq::<Transition>::empty(), p, p, Seq::empty()));
}

/// A path followed by one more transition is a path.
pub proof fn lemma_follows_push(
    delta: Seq<Transition>,
    ts: Seq<Transition>,
    p: State,
    w: Seq<char>,
    t: Transition,
)
    requires
        follows(delta, ts, p, t.start, w),
        delta.contains(t),
    ensures
        follows(delta, ts.push(t), p, t.end, w + label_word(t.sym)),
{
    let longer = ts.push(t);
    assert(longer.drop_last() =~= ts);
    assert forall|i: int| 0 <= i < longer.len() implies delta.contains(#[trigger] longer[i]) by {
        if i < ts.len() {
            assert(longer[i] == ts[i]);
        }
    }
}

/// A word spelled up to the start of a transition is spelled, with the
/// label appended, up to its end.
pub proof fn lemma_spells_push(
    delta: Seq<Transition>,
    p: State,
    w: Seq<char>,
    t: Transition,
)
    requires
        spells(delta, p, t.start, w),
        delta.contains(t),
    ensures
        spells(delta, p, t.end, w + label_word(t.sym)),
{
    let ts = choose|ts: Seq<Transition>| follows(delta, ts, p, t.start, w);
    lemma_follows_push(delta, ts, p, w, t);
}

/// Two paths that meet can be joined, and the joined path spells the two
/// words one after the other.
pub proof fn lemma_follows_concat(
    delta: Seq<Transition>,
    x: Seq<Transition>,
    y: Seq<Transition>,
    p: State,
    q: State,
    r: State,
    u: Seq<char>,
    v: Seq<char>,
)
    requires
        follows(delta, x, p, q, u),
        follows(delta, y, q, r, v),
    ensures
        follows(delta, x + y, p, r, u + v),
    decreases y.len(),
{
    if y.len() == 0 {
        assert(x + y =~= x);
        assert(u + v =~= u);
    } else {
        let t = y.last();
        let y0 = y.drop_last();
        assert(within(y0, delta)) by {
            assert forall|i: int| 0 <= i < y0.len() implies delta.contains(#[trigger] y0[i]) by {
                assert(y0[i] == y[i]);
            }
        }
        lemma_follows_concat(delta, x, y0, p, q, t.start, u, word_of(y0));
        assert(delta.contains(y[y.len() - 1]));
        lemma_follows_push(delta, x + y0, p, u + word_of(y0), t);
        assert((x + y0).push(t) =~= x + y);
        assert(u + word_of(y0) + label_word(t.sym) =~= u + v);
    }
}

/// Words spelled along two paths that meet are spelled, one after the
/// other, along the joined path.
pub proof fn lemma_spells_concat(
    delta: Seq<Transition>,
    p: State,
    q: State,
    r: State,
    u: Seq<char>,
    v: Seq<char>,
)
    requires
        spells(delta, p, q, u),
        spells(delta, q, r, v),
    ensures
        spells(delta, p, r, u + v),
{
    let x = choose|ts: Seq<Transition>| follows(delta, ts, p, q, u);
    let y = choose|ts: Seq<Transition>| follows(delta, ts, q, r, v);
    lemma_follows_concat(delta, x, y, p, q, r, u, v);
}

/// A path over some transitions is a path over more transitions.
pub proof fn lemma_spells_widen(
    small: Seq<Transition>,
    large: Seq<Transition>,
    p: State,
    q: State,
    w: Seq<char>,
)
    requires
        spells(small, p, q, w),
        forall|t: Transition| small.contains(t) ==> large.contains(t),
    ensures
        spells(large, p, q, w),
{
    let ts = choose|ts: Seq<Transition>| follows(small, ts, p, q, w);
    assert(follows(large, ts, p, q, w));
}

impl Automaton {
    /// A path of empty transitions spells the empty word.
    pub proof fn lemma_eps_path_spells(self, p: State, q: State, n: nat)
        requires
            self.eps_path(p, q, n),
        ensures
            spells(self.delta, p, q, Seq::empty()),
        decreases n,
    {
        if n == 0 {
            lemma_spells_empty(self.delta, p);
        } else {
            let r = choose|r: State|
                self.eps_path(p, r, (n - 1) as nat) && #[trigger] self.edge(Symbol::Empty, r, q);
            self.lemma_eps_path_spells(p, r, (n - 1) as nat);
            let t = Transition { sym: Symbol::Empty, start: r, end: q };
            lemma_spells_push(self.delta, p, Seq::empty(), t);
            assert(Seq::<char>::empty() + label_word(Symbol::Empty) =~= Seq::<char>::empty());
        }
    }

    /// Every state the automaton may be in after reading `w` is reached by
    /// a path from the starting state that spells `w`.
    pub proof fn lemma_run_spelled(self, w: Seq<char>, q: State)
        requires
            self.run(w).contains(q),
        ensures
            spells(self.delta, self.starting, q, w),
        decreases w.len(),
    {
        if w.len() == 0 {
            let p = choose|p: State| set![self.starting].contains(p) && self.eps_reach(p, q);
            let n = choose|n: nat| self.eps_path(p, q, n);
            self.lemma_eps_path_spells(p, q, n);
            assert(w =~= Seq::<char>::empty());
        } else {
            let head = w.drop_last();
            let sym = Symbol::Char(w.last());
            let moved = self.moves(self.run(head), sym);
            let target = choose|target: State| moved.contains(target) && self.eps_reach(target, q);
            let source = choose|source: State| self.run(head).contains(source) && self.edge(sym, source, target);
            self.lemma_run_spelled(head, source);
            let t = Transition { sym, start: source, end: target };
            lemma_spells_push(self.delta, self.starting, head, t);
            let n = choose|n: nat| self.eps_path(target, q, n);
            self.lemma_eps_path_spells(target, q, n);
            lemma_spells_concat(
                self.delta,
                self.starting,
                target,
                q,
                head + label_word(sym),
                Seq::empty(),
            );
            assert(head + label_word(sym) + Seq::<char>::empty() =~= w);
        }
    }

    /// The set of states after reading a word is closed under empty
    /// transitions.
    pub proof fn lemma_run_closed(self, w: Seq<char>)
        ensures
            self.eps_closed(self.run(w)),
    {
        if w.len() == 0 {
            self.lemma_closure_closed(set![self.starting]);
        } else {
            self.lemma_closure_closed(self.moves(self.run(w.drop_last()), Symbol::Char(w.last())));
        }
    }

    /// Every state reached by a path from the starting state that spells
    /// `w` is one the automaton may be in after reading `w`.
    pub proof fn lemma_path_run(self, ts: Seq<Transition>, q: State, w: Seq<char>)
        requires
            follows(self.delta, ts, self.starting, q, w),
        ensures
            self.run(w).contains(q),
        decreases ts.len(),
    {
        if ts.len() == 0 {
            assert(w =~= Seq::<char>::empty());
            self.lemma_closure_extensive(set![self.starting]);
            assert(set![self.starting].contains(self.starting));
        } else {
            let t = ts.last();
            let ts0 = ts.drop_last();
            let w0 = word_of(ts0);
            assert(within(ts0, self.delta)) by {
                assert forall|i: int| 0 <= i < ts0.len() implies self.delta.contains(
                    #[trigger] ts0[i],
                ) by {
                    assert(ts0[i] == ts[i]);
                }
            }
            self.lemma_path_run(ts0, t.start, w0);
            assert(self.delta.contains(ts[ts.len() - 1]));
            assert(t == Transition { sym: t.sym, start: t.start, end: q });
            assert(self.edge(t.sym, t.start, q));
            match t.sym {
                Symbol::Empty => {
                    assert(w =~= w0);
                    self.lemma_run_closed(w0);
                },
                Symbol::Char(c) => {
                    assert(w =~= w0.push(c));
                    assert(w.drop_last() =~= w0);
                    let moved = self.moves(self.run(w0), Symbol::Char(c));
                    assert(moved.contains(q));
                    self.lemma_closure_extensive(moved);
                },
            }
        }
    }

    /// The language of an automaton: a word is accepted when a path from
    /// the starting state to an accepting state spells it.
    pub proof fn lemma_accepts_spelled(self, w: Seq<char>)
        ensures
            self.accepts(w) <==> exists|q: State|
                self.accepting.contains(q) && spells(self.delta, self.starting, q, w),
    {
        if self.accepts(w) {
            let q = choose|q: State| self.run(w).contains(q) && self.accepting.contains(q);
            self.lemma_run_spelled(w, q);
        }
        if exists|q: State| self.accepting.contains(q) && spells(self.delta, self.starting, q, w) {
            let q = choose|q: State|
                self.accepting.contains(q) && spells(self.delta, self.starting, q, w);
            let ts = choose|ts: Seq<Transition>| follows(self.delta, ts, self.starting, q, w);
            self.lemma_path_run(ts, q, w);
        }
    }
}

/// `j` is a position at which `w` can be cut in two.
pub open spec fn cut(w: Seq<char>, j: int) -> bool {
    0 <= j <= w.len()
}

/// `k` is a number of repetitions.
pub open spec fn times(k: nat) -> bool {
    true
}

impl Expr {
    /// The language of a syntax tree: whether the word `w` matches.
    pub open spec fn matches(self, w: Seq<char>) -> bool
        decreases self, 0nat,
    {
        match self {
            Expr::Empty => w == Seq::<char>::empty(),
            Expr::Just(sym) => w == label_word(sym),
            Expr::Or(a, b) => a.matches(w) || b.matches(w),
            Expr::And(a, b) => exists|j: int|
                #[trigger] cut(w, j) && a.matches(w.take(j)) && b.matches(w.skip(j)),
            Expr::Star(a) => exists|k: nat| #[trigger] times(k) && a.power(w, k),
            Expr::Plus(a) => exists|k: nat| #[trigger] times(k) && k >= 1 && a.power(w, k),
            Expr::QMark(a) => w == Seq::<char>::empty() || a.matches(w),
        }
    }

    /// Whether `w` is made of `k` words that each match, one after the
    /// other.
    pub open spec fn power(self, w: Seq<char>, k: nat) -> bool
        decreases self, k + 1,
    {
        if k == 0 {
            w == Seq::<char>::empty()
        } else {
            exists|j: int|
                #[trigger] cut(w, j) && self.matches(w.take(j)) && self.power(
                    w.skip(j),
                    (k - 1) as nat,
                )
        }
    }

    /// One word that matches is a power of one.
    pub proof fn lemma_power_one(self, w: Seq<char>)
        ensures
            self.power(w, 1) <==> self.matches(w),
    {
        if self.matches(w) {
            assert(w.take(w.len() as int) =~= w);
            assert(w.skip(w.len() as int) =~= Seq::<char>::empty());
            assert(self.power(w.skip(w.len() as int), 0));
            assert(cut(w, w.len() as int));
        }
        if self.power(w, 1) {
            let j = choose|j: int|
                #[trigger] cut(w, j) && self.matches(w.take(j)) && self.power(w.skip(j), 0);
            assert(w.skip(j) =~= Seq::<char>::empty());
            assert(w.take(j) =~= w);
        }
    }

    /// A power followed by one more word that matches is the next power.
    pub proof fn lemma_power_append(self, v: Seq<char>, k: nat, u: Seq<char>)
        requires
            self.power(v, k),
            self.matches(u),
        ensures
            self.power(v + u, k + 1),
        decreases k,
    {
        if k == 0 {
            assert(v + u =~= u);
            self.lemma_power_one(u);
        } else {
            let j = choose|j: int|
                #[trigger] cut(v, j) && self.matches(v.take(j)) && self.power(
                    v.skip(j),
                    (k - 1) as nat,
                );
            self.lemma_power_append(v.skip(j), (k - 1) as nat, u);
            assert((v + u).take(j) =~= v.take(j));
            assert((v + u).skip(j) =~= v.skip(j) + u);
            assert(cut(v + u, j));
        }
    }
}

} // verus!
