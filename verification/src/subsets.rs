//! Counting the subsets of a finite set.

use crate::state_set::State;
use vstd::arithmetic::power2::{lemma_pow2_pos, lemma_pow2_unfold, pow2};
use vstd::prelude::*;
use vstd::set_lib::{lemma_len_subset, lemma_map_size, lemma_set_disjoint_lens};

verus! {

/// No set occurs twice in `table`.
pub open spec fn distinct(table: Seq<Set<State>>) -> bool {
    forall|i: int, j: int| 0 <= i < j < table.len() ==> table[i] != table[j]
}

/// Every set of `table` is part of `u`.
pub open spec fn all_within(table: Seq<Set<State>>, u: Set<State>) -> bool {
    forall|i: int| 0 <= i < table.len() ==> (#[trigger] table[i]).subset_of(u)
}

/// A family of subsets of a set with `n` members has at most `2^n` members.
pub proof fn lemma_family_bound(family: Set<Set<State>>, u: Set<State>)
    requires
        u.finite(),
        family.finite(),
        forall|s: Set<State>| family.contains(s) ==> s.subset_of(u),
    ensures
        family.len() <= pow2(u.len()),
    decreases u.len(),
{
    if u.len() == 0 {
        assert(u =~= Set::<State>::empty());
        let only = set![Set::<State>::empty()];
        assert forall|s: Set<State>| family.contains(s) implies only.contains(s) by {
            assert(s.subset_of(u));
            assert(s =~= Set::<State>::empty());
        }
        lemma_len_subset(family, only);
        assert(only.len() == 1);
        assert(pow2(0) == 1) by {
            lemma_pow2_pos(0);
            reveal(pow2);
            reveal(vstd::arithmetic::power::pow);
        }
    } else {
        let x = u.choose();
        let rest = u.remove(x);
        let with_x = family.filter(|s: Set<State>| s.contains(x));
        let without_x = family.filter(|s: Set<State>| !s.contains(x));
        family.lemma_len_filter(|s: Set<State>| s.contains(x));
        family.lemma_len_filter(|s: Set<State>| !s.contains(x));
        assert(family =~= with_x + without_x);
        assert(with_x.disjoint(without_x));
        lemma_set_disjoint_lens(with_x, without_x);
        assert(family.len() == with_x.len() + without_x.len());

        assert forall|s: Set<State>| without_x.contains(s) implies s.subset_of(rest) by {
            assert(s.subset_of(u));
        }
        lemma_family_bound(without_x, rest);

        let strip = |s: Set<State>| s.remove(x);
        let stripped = with_x.map(strip);
        assert(vstd::relations::injective_on(strip, with_x)) by {
            assert forall|s1: Set<State>, s2: Set<State>|
                with_x.contains(s1) && with_x.contains(s2) && #[trigger] strip(s1) == #[trigger] strip(
                    s2,
                ) implies s1 == s2 by {
                assert(s1 =~= s1.remove(x).insert(x));
                assert(s2 =~= s2.remove(x).insert(x));
            }
        }
        lemma_map_size(with_x, stripped, strip);
        assert forall|s: Set<State>| stripped.contains(s) implies s.subset_of(rest) by {
            let s0 = choose|s0: Set<State>| with_x.contains(s0) && s == strip(s0);
            assert(s0.subset_of(u));
        }
        lemma_family_bound(stripped, rest);
        lemma_pow2_unfold(u.len());
    }
}

/// A duplicate-free sequence of subsets of a set with `n` members has at
/// most `2^n` entries.
pub proof fn lemma_distinct_subsets_bound(table: Seq<Set<State>>, u: Set<State>)
    requires
        u.finite(),
        distinct(table),
        all_within(table, u),
    ensures
        table.len() <= pow2(u.len()),
{
    assert(table.no_duplicates());
    table.unique_seq_to_set();
    vstd::seq_lib::seq_to_set_is_finite(table);
    assert forall|s: Set<State>| table.to_set().contains(s) implies s.subset_of(u) by {
        let i = choose|i: int| 0 <= i < table.len() && table[i] == s;
        assert(table[i].subset_of(u));
    }
    lemma_family_bound(table.to_set(), u);
}

/// The bound grows with the size of the underlying set.
pub proof fn lemma_pow2_monotone(a: nat, b: nat)
    requires
        a <= b,
    ensures
        pow2(a) <= pow2(b),
{
    if a < b {
        vstd::arithmetic::power2::lemma_pow2_strictly_increases(a, b);
    }
}

} // verus!
