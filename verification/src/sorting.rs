//! Exchanging two places of a sequence keeps what the sequence holds.

use vstd::prelude::*;

verus! {

/// The sequence `s` with the values at the places `i` and `j` exchanged.
pub open spec fn exchanged<A>(s: Seq<A>, i: int, j: int) -> Seq<A> {
    s.update(i, s[j]).update(j, s[i])
}

/// Exchanging two places keeps the values, each as often as it was there.
pub proof fn lemma_exchange_keeps<A>(s: Seq<A>, i: int, j: int)
    requires
        0 <= i < s.len(),
        0 <= j < s.len(),
    ensures
        exchanged(s, i, j).to_multiset() == s.to_multiset(),
        exchanged(s, i, j).len() == s.len(),
{
    broadcast use vstd::multiset::group_multiset_axioms;

    let once = s.update(i, s[j]);
    vstd::seq_lib::to_multiset_update(s, i, s[j]);
    vstd::seq_lib::to_multiset_update(once, j, s[i]);
    s.to_multiset_ensures();
    assert(s.contains(s[i]));
    assert(s.contains(s[j]));
    if i == j {
        assert(exchanged(s, i, j) =~= s);
    } else {
        assert(once[j] == s[j]);
        assert(exchanged(s, i, j).to_multiset() =~= s.to_multiset());
    }
}

/// Exchanging two places under a function that is applied to every value.
pub proof fn lemma_exchange_mapped<A, B>(s: Seq<A>, i: int, j: int, f: spec_fn(A) -> B)
    requires
        0 <= i < s.len(),
        0 <= j < s.len(),
    ensures
        exchanged(s, i, j).map_values(f) == exchanged(s.map_values(f), i, j),
{
    assert(exchanged(s, i, j).map_values(f) =~= exchanged(s.map_values(f), i, j));
}

} // verus!
