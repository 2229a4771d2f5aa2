//! Canonical sets of automaton states.
//!
//! A [`StateSet`] keeps its members in a strictly increasing vector, so two
//! sets with the same members are stored identically.  That makes a set usable
//! as the identity of a deterministic state.

use vstd::prelude::*;

verus! {

/// Identifier of an automaton state.
pub type State = usize;

/// True when every element of `s` is smaller than each element after it.
pub open spec fn strictly_increasing(s: Seq<State>) -> bool {
    forall|i: int, j: int| 0 <= i < j < s.len() ==> s[i] < s[j]
}

/// A strictly increasing sequence repeats no element, so it is as long as
/// its set of elements is large.
pub proof fn lemma_increasing_len(s: Seq<State>)
    requires
        strictly_increasing(s),
    ensures
        s.no_duplicates(),
        s.to_set().finite(),
        s.to_set().len() == s.len(),
{
    s.unique_seq_to_set();
    vstd::seq_lib::seq_to_set_is_finite(s);
}

/// Two strictly increasing sequences with the same elements are equal.
pub proof fn lemma_increasing_canonical(a: Seq<State>, b: Seq<State>)
    requires
        strictly_increasing(a),
        strictly_increasing(b),
        a.to_set() == b.to_set(),
    ensures
        a == b,
    decreases a.len(),
{
    lemma_increasing_len(a);
    lemma_increasing_len(b);
    if a.len() > 0 {
        let x = a.last();
        let y = b.last();
        assert(a.contains(x));
        assert(b.contains(y));
        assert(a.to_set().contains(x));
        assert(b.to_set().contains(y));
        assert(b.contains(x));
        assert(a.contains(y));
        assert(x == y);
        let a0 = a.drop_last();
        let b0 = b.drop_last();
        assert forall|v: State| a0.to_set().contains(v) <==> b0.to_set().contains(v) by {
            if a0.contains(v) {
                let i = choose|i: int| 0 <= i < a0.len() && a0[i] == v;
                assert(a[i] == v);
                assert(v < x);
                assert(a.contains(v));
                assert(b.to_set().contains(v));
                let j = choose|j: int| 0 <= j < b.len() && b[j] == v;
                assert(j < b.len() - 1);
                assert(b0[j] == v);
            }
            if b0.contains(v) {
                let i = choose|i: int| 0 <= i < b0.len() && b0[i] == v;
                assert(b[i] == v);
                assert(v < y);
                assert(b.contains(v));
                assert(a.to_set().contains(v));
                let j = choose|j: int| 0 <= j < a.len() && a[j] == v;
                assert(j < a.len() - 1);
                assert(a0[j] == v);
            }
        }
        assert(a0.to_set() =~= b0.to_set());
        lemma_increasing_canonical(a0, b0);
        assert(a =~= a0.push(x));
        assert(b =~= b0.push(y));
    } else {
        assert(a =~= b);
    }
}

/// Appending an element to a sequence adds it to the set of elements.
pub proof fn lemma_push_to_set<A>(s: Seq<A>, x: A)
    ensures
        s.push(x).to_set() == s.to_set().insert(x),
{
    let next = s.push(x);
    assert forall|v: A| next.to_set().contains(v) <==> s.to_set().insert(x).contains(v) by {
        if next.contains(v) {
            let k = choose|k: int| 0 <= k < next.len() && next[k] == v;
            if k < s.len() {
                assert(s[k] == v);
            }
        }
        if s.contains(v) {
            let k = choose|k: int| 0 <= k < s.len() && s[k] == v;
            assert(next[k] == v);
        }
        assert(next[s.len() as int] == x);
    }
    assert(next.to_set() =~= s.to_set().insert(x));
}

/// The members of `s` in increasing order.
pub open spec fn ordered(s: Set<State>) -> Seq<State> {
    choose|q: Seq<State>| strictly_increasing(q) && q.to_set() == s
}

/// Every set of states below `bound` is the set of elements of some
/// strictly increasing sequence.
pub proof fn lemma_increasing_listing(s: Set<State>, bound: nat)
    requires
        bound <= usize::MAX + 1,
        forall|v: State| s.contains(v) ==> v < bound,
    ensures
        exists|q: Seq<State>| strictly_increasing(q) && q.to_set() == s,
    decreases bound,
{
    if bound == 0 {
        let q = Seq::<State>::empty();
        assert(q.to_set() =~= s);
        assert(strictly_increasing(q) && q.to_set() == s);
    } else {
        let top = (bound - 1) as State;
        let rest = s.remove(top);
        lemma_increasing_listing(rest, (bound - 1) as nat);
        let q0 = choose|q: Seq<State>| strictly_increasing(q) && q.to_set() == rest;
        let q = if s.contains(top) {
            q0.push(top)
        } else {
            q0
        };
        assert forall|i: int, j: int| 0 <= i < j < q.len() implies q[i] < q[j] by {
            assert(q[i] == q0[i]);
            assert(q0.contains(q0[i]));
            assert(rest.contains(q0[i]));
            if j < q0.len() {
                assert(q[j] == q0[j]);
            }
        }
        if s.contains(top) {
            lemma_push_to_set(q0, top);
            assert(q.to_set() =~= s);
        } else {
            assert(q.to_set() =~= s);
        }
        assert(strictly_increasing(q) && q.to_set() == s);
    }
}

/// The ordered listing of a set of states is strictly increasing and holds
/// exactly the members of the set.
pub proof fn lemma_ordered(s: Set<State>)
    ensures
        strictly_increasing(ordered(s)),
        ordered(s).to_set() == s,
        ordered(s).no_duplicates(),
        s.finite(),
        ordered(s).len() == s.len(),
{
    lemma_increasing_listing(s, (usize::MAX + 1) as nat);
    lemma_increasing_len(ordered(s));
}

/// A finite set of states, stored in increasing order.
#[derive(Debug, Hash)]
pub struct StateSet {
    items: Vec<State>,
}

impl View for StateSet {
    type V = Set<State>;

    /// The members of the set.
    closed spec fn view(&self) -> Set<State> {
        self.items@.to_set()
    }
}

impl StateSet {
    /// The representation invariant: members are stored in increasing order.
    pub closed spec fn wf(&self) -> bool {
        strictly_increasing(self.items@)
    }

    /// The members in increasing order.
    pub closed spec fn elements(&self) -> Seq<State> {
        self.items@
    }

    /// Relates the ordered sequence of members to the set they form.
    pub proof fn lemma_elements(&self)
        requires
            self.wf(),
        ensures
            strictly_increasing(self.elements()),
            self.elements().no_duplicates(),
            self.elements().to_set() == self@,
            self.elements().len() == self@.len(),
            self@.finite(),
            forall|x: State| self@.contains(x) <==> self.elements().contains(x),
            self.elements() == ordered(self@),
    {
        lemma_increasing_len(self.items@);
        lemma_ordered(self@);
        lemma_increasing_canonical(self.items@, ordered(self@));
    }

    /// Sets with the same members have the same ordered sequence of members.
    pub proof fn lemma_canonical(&self, other: &StateSet)
        requires
            self.wf(),
            other.wf(),
            self@ == other@,
        ensures
            self.elements() == other.elements(),
    {
        lemma_increasing_canonical(self.items@, other.items@);
    }

    /// Creates the empty set.
    pub fn new() -> (s: Self)
        ensures
            s.wf(),
            s@ == Set::<State>::empty(),
    {
        let s = StateSet { items: Vec::new() };
        assert(s.items@.to_set() =~= Set::<State>::empty());
        s
    }

    /// Number of members.
    pub fn len(&self) -> (n: usize)
        requires
            self.wf(),
        ensures
            n == self@.len(),
            n == self.elements().len(),
    {
        proof {
            self.lemma_elements();
        }
        self.items.len()
    }

    /// True when the set has no member.
    pub fn is_empty(&self) -> (b: bool)
        requires
            self.wf(),
        ensures
            b == (self@ == Set::<State>::empty()),
            b == (self@.len() == 0),
    {
        proof {
            self.lemma_elements();
            if self.items@.len() == 0 {
                assert(self@ =~= Set::<State>::empty());
            } else {
                assert(self.items@.contains(self.items@[0]));
                assert(self@.contains(self.items@[0]));
            }
        }
        self.items.len() == 0
    }

    /// The `i`-th smallest member, counted from zero.
    pub fn get(&self, i: usize) -> (x: State)
        requires
            self.wf(),
            i < self.elements().len(),
        ensures
            x == self.elements()[i as int],
            self@.contains(x),
    {
        proof {
            assert(self.items@.contains(self.items@[i as int]));
        }
        self.items[i]
    }

    /// Index of the first member that is not smaller than `item`.
    fn lower_bound(&self, item: State) -> (i: usize)
        requires
            self.wf(),
        ensures
            i <= self.items@.len(),
            forall|j: int| 0 <= j < i ==> self.items@[j] < item,
            forall|j: int| i <= j < self.items@.len() ==> self.items@[j] >= item,
    {
        let mut lo: usize = 0;
        let mut hi: usize = self.items.len();
        while lo < hi
            invariant
                self.wf(),
                lo <= hi <= self.items@.len(),
                forall|j: int| 0 <= j < lo ==> self.items@[j] < item,
                forall|j: int| hi <= j < self.items@.len() ==> self.items@[j] >= item,
            decreases hi - lo,
        {
            let mid: usize = lo + (hi - lo) / 2;
            if self.items[mid] < item {
                lo = mid + 1;
            } else {
                hi = mid;
            }
        }
        lo
    }

    /// Membership test.
    pub fn contains(&self, item: &State) -> (b: bool)
        requires
            self.wf(),
        ensures
            b == self@.contains(*item),
    {
        let i = self.lower_bound(*item);
        let b = i < self.items.len() && self.items[i] == *item;
        proof {
            if b {
                assert(self.items@.contains(self.items@[i as int]));
            } else if self.items@.contains(*item) {
                let j = choose|j: int| 0 <= j < self.items@.len() && self.items@[j] == *item;
                assert(j >= i);
                assert(self.items@[i as int] <= self.items@[j]);
            }
        }
        b
    }

    /// Adds `item`; returns whether it was absent before.
    pub fn insert(&mut self, item: State) -> (fresh: bool)
        requires
            old(self).wf(),
        ensures
            final(self).wf(),
            final(self)@ == old(self)@.insert(item),
            fresh == !old(self)@.contains(item),
    {
        let i = self.lower_bound(item);
        if i < self.items.len() && self.items[i] == item {
            proof {
                assert(self.items@.contains(self.items@[i as int]));
                assert(self@ =~= self@.insert(item));
            }
            return false;
        }
        let ghost before = self.items@;
        self.items.insert(i, item);
        proof {
            let after = self.items@;
            assert(after == before.insert(i as int, item));
            assert forall|a: int, b: int| 0 <= a < b < after.len() implies after[a] < after[b] by {
                if b < i {
                    assert(after[a] == before[a] && after[b] == before[b]);
                } else if b == i {
                    assert(after[a] == before[a]);
                } else if a < i {
                    assert(after[a] == before[a] && after[b] == before[b - 1]);
                } else if a == i {
                    assert(after[b] == before[b - 1]);
                    assert(before[b - 1] >= item);
                    assert(before[i as int] != item);
                    assert(before[i as int] <= before[b - 1]) by {
                        if i as int != b - 1 {
                            assert(before[i as int] < before[b - 1]);
                        }
                    }
                } else {
                    assert(after[a] == before[a - 1] && after[b] == before[b - 1]);
                }
            }
            assert forall|v: State| after.to_set().contains(v) <==> before.to_set().insert(
                item,
            ).contains(v) by {
                if after.contains(v) {
                    let k = choose|k: int| 0 <= k < after.len() && after[k] == v;
                    if k < i {
                        assert(before[k] == v);
                        assert(before.contains(v));
                    } else if k > i {
                        assert(before[k - 1] == v);
                        assert(before.contains(v));
                    }
                }
                if before.contains(v) {
                    let k = choose|k: int| 0 <= k < before.len() && before[k] == v;
                    if k < i {
                        assert(after[k] == v);
                    } else {
                        assert(after[k + 1] == v);
                    }
                    assert(after.contains(v));
                }
                if v == item {
                    assert(after[i as int] == v);
                    assert(after.contains(v));
                }
            }
            assert(after.to_set() =~= before.to_set().insert(item));
            if before.contains(item) {
                let k = choose|k: int| 0 <= k < before.len() && before[k] == item;
                assert(k >= i);
                if k > i {
                    assert(before[i as int] < before[k]);
                }
            }
        }
        true
    }

    /// Removes `item`; returns whether it was present.
    pub fn remove(&mut self, item: &State) -> (present: bool)
        requires
            old(self).wf(),
        ensures
            final(self).wf(),
            final(self)@ == old(self)@.remove(*item),
            present == old(self)@.contains(*item),
    {
        let i = self.lower_bound(*item);
        if i < self.items.len() && self.items[i] == *item {
            let ghost before = self.items@;
            self.items.remove(i);
            proof {
                let after = self.items@;
                assert(after == before.remove(i as int));
                assert(before.contains(before[i as int]));
                assert forall|a: int, b: int| 0 <= a < b < after.len() implies after[a]
                    < after[b] by {
                    let a0 = if a < i { a } else { a + 1 };
                    let b0 = if b < i { b } else { b + 1 };
                    assert(after[a] == before[a0] && after[b] == before[b0]);
                }
                assert forall|v: State| after.to_set().contains(v) <==> before.to_set().remove(
                    *item,
                ).contains(v) by {
                    if after.contains(v) {
                        let k = choose|k: int| 0 <= k < after.len() && after[k] == v;
                        let k0 = if k < i { k } else { k + 1 };
                        assert(before[k0] == v);
                        assert(before.contains(v));
                        if k0 < i {
                            assert(before[k0] < before[i as int]);
                        } else {
                            assert(before[i as int] < before[k0]);
                        }
                    }
                    if before.contains(v) && v != *item {
                        let k = choose|k: int| 0 <= k < before.len() && before[k] == v;
                        if k < i {
                            assert(after[k] == v);
                        } else {
                            assert(after[k - 1] == v);
                        }
                        assert(after.contains(v));
                    }
                }
                assert(after.to_set() =~= before.to_set().remove(*item));
            }
            true
        } else {
            proof {
                if self.items@.contains(*item) {
                    let k = choose|k: int| 0 <= k < self.items@.len() && self.items@[k] == *item;
                    assert(k >= i);
                    assert(self.items@[i as int] <= self.items@[k]);
                }
                assert(self@ =~= self@.remove(*item));
            }
            false
        }
    }

    /// Adds every member of `other`.
    pub fn extend(&mut self, other: &StateSet)
        requires
            old(self).wf(),
            other.wf(),
        ensures
            final(self).wf(),
            final(self)@ == old(self)@.union(other@),
    {
        let mut i: usize = 0;
        while i < other.items.len()
            invariant
                self.wf(),
                other.wf(),
                i <= other.items@.len(),
                self@ == old(self)@.union(other.items@.take(i as int).to_set()),
            decreases other.items@.len() - i,
        {
            let ghost before = self@;
            self.insert(other.items[i]);
            proof {
                let head = other.items@.take(i as int);
                let next = other.items@.take(i + 1);
                assert(next =~= head.push(other.items@[i as int]));
                assert forall|v: State| next.to_set().contains(v) <==> head.to_set().insert(
                    other.items@[i as int],
                ).contains(v) by {
                    if next.contains(v) {
                        let k = choose|k: int| 0 <= k < next.len() && next[k] == v;
                        if k < i {
                            assert(head[k] == v);
                        }
                    }
                    if head.contains(v) {
                        let k = choose|k: int| 0 <= k < head.len() && head[k] == v;
                        assert(next[k] == v);
                    }
                    assert(next[i as int] == other.items@[i as int]);
                }
                assert(self@ =~= old(self)@.union(next.to_set()));
            }
            i += 1;
        }
        proof {
            assert(other.items@.take(i as int) =~= other.items@);
        }
    }

    /// The members in increasing order, as a vector.
    pub fn to_vec(&self) -> (v: Vec<State>)
        requires
            self.wf(),
        ensures
            v@ == self.elements(),
    {
        let v = self.items.clone();
        assert(v@ =~= self.items@);
        v
    }

    /// Decides whether both sets have the same members.
    pub fn equals(&self, other: &StateSet) -> (b: bool)
        requires
            self.wf(),
            other.wf(),
        ensures
            b == (self@ == other@),
    {
        if self.items.len() != other.items.len() {
            proof {
                lemma_increasing_len(self.items@);
                lemma_increasing_len(other.items@);
            }
            return false;
        }
        let mut i: usize = 0;
        while i < self.items.len()
            invariant
                self.wf(),
                other.wf(),
                self.items@.len() == other.items@.len(),
                i <= self.items@.len(),
                forall|j: int| 0 <= j < i ==> self.items@[j] == other.items@[j],
            decreases self.items@.len() - i,
        {
            if self.items[i] != other.items[i] {
                proof {
                    if self@ == other@ {
                        lemma_increasing_canonical(self.items@, other.items@);
                    }
                }
                return false;
            }
            i += 1;
        }
        assert(self.items@ =~= other.items@);
        true
    }
}

impl PartialEq for StateSet {
    /// Sets are equal when they hold the same members.
    fn eq(&self, other: &Self) -> (r: bool) {
        if self.items.len() != other.items.len() {
            return false;
        }
        let mut i: usize = 0;
        while i < self.items.len()
            invariant
                self.items@.len() == other.items@.len(),
                i <= self.items@.len(),
                forall|j: int| 0 <= j < i ==> self.items@[j] == other.items@[j],
            decreases self.items@.len() - i,
        {
            if self.items[i] != other.items[i] {
                return false;
            }
            i += 1;
        }
        assert(self.items@ =~= other.items@);
        true
    }
}

impl vstd::std_specs::cmp::PartialEqSpecImpl for StateSet {
    open spec fn obeys_eq_spec() -> bool {
        true
    }

    /// Sets in canonical form are equal when their ordered sequences of
    /// members are.
    open spec fn eq_spec(&self, other: &Self) -> bool {
        self.elements() == other.elements()
    }
}

impl Eq for StateSet {

}

impl Clone for StateSet {
    fn clone(&self) -> (s: Self)
        ensures
            s@ == self@,
            s.elements() == self.elements(),
            self.wf() ==> s.wf(),
    {
        let items = self.items.clone();
        assert(items@ =~= self.items@);
        StateSet { items }
    }
}

} // verus!
