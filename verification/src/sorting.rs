//! Sorting by integer keys. A key is a triple of integers; triples are
//! ordered by their first component, then the second, then the third.

use vstd::prelude::*;

verus! {

/// A key of three integers.
pub type Key = (usize, u32, usize);

/// The order of keys: `a` comes before `b` or is `b`.
pub open spec fn key_le(a: Key, b: Key) -> bool {
    a.0 < b.0 || (a.0 == b.0 && (a.1 < b.1 || (a.1 == b.1 && a.2 <= b.2)))
}

/// The keys of the sequence ascend.
pub open spec fn ascending(s: Seq<Key>) -> bool {
    forall|a: int, b: int| 0 <= a < b < s.len() ==> key_le(#[trigger] s[a], #[trigger] s[b])
}

/// The third component of each key is its position.
pub open spec fn numbered(keys: Seq<Key>) -> bool {
    forall|i: int| 0 <= i < keys.len() ==> (#[trigger] keys[i]).2 == i
}

/// Sorts the keys in place. Calls `sort_unstable` of slices, which puts the
/// elements of the slice in ascending order. The contract states that the
/// result holds the same keys as often as before and that they ascend.
#[verifier::external_body]
pub(crate) fn sort_keys(v: &mut Vec<Key>)
    ensures
        final(v)@.to_multiset() == old(v)@.to_multiset(),
        ascending(final(v)@),
{
    v.sort_unstable();
}

/// What sorting makes of keys that carry their positions: each sorted key is
/// one of the keys, each key is among the sorted ones, and the sorted keys
/// ascend strictly.
pub proof fn lemma_sorted_keys(keys: Seq<Key>, s: Seq<Key>)
    requires
        numbered(keys),
        s.to_multiset() == keys.to_multiset(),
        ascending(s),
    ensures
        s.len() == keys.len(),
        forall|p: int| 0 <= p < s.len() ==> (#[trigger] s[p]).2 < keys.len() && keys[s[p].2 as int] == s[p],
        forall|i: int| 0 <= i < keys.len() ==> s.contains(#[trigger] keys[i]),
        forall|p: int, q: int| 0 <= p < q < s.len() ==> #[trigger] s[p] != #[trigger] s[q],
{
    broadcast use vstd::seq_lib::group_to_multiset_ensures;

    assert(s.to_multiset().len() == s.len());
    assert(keys.to_multiset().len() == keys.len());
    assert forall|p: int| 0 <= p < s.len() implies (#[trigger] s[p]).2 < keys.len() && keys[s[p].2 as int] == s[p] by {
        assert(s.contains(s[p]));
        assert(keys.to_multiset().count(s[p]) > 0);
        assert(keys.contains(s[p]));
        let i = choose|i: int| 0 <= i < keys.len() && keys[i] == s[p];
        assert(keys[i].2 == i);
    }
    assert(keys.no_duplicates()) by {
        assert forall|i: int, j: int| 0 <= i < keys.len() && 0 <= j < keys.len() && i != j implies keys[i] != keys[j] by {
            assert(keys[i].2 == i && keys[j].2 == j);
        }
    }
    keys.lemma_multiset_has_no_duplicates();
    s.lemma_multiset_has_no_duplicates_conv();
    assert forall|i: int| 0 <= i < keys.len() implies s.contains(#[trigger] keys[i]) by {
        assert(keys.contains(keys[i]));
        assert(s.to_multiset().count(keys[i]) > 0);
    }
}

} // verus!
