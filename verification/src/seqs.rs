//! Lemmas on sequences that the proofs of the editor share.

use vstd::prelude::*;

verus! {

/// Filtering one element more keeps it or drops it.
pub proof fn lemma_filter_step<A>(s: Seq<A>, pred: spec_fn(A) -> bool, i: int)
    requires
        0 <= i < s.len(),
    ensures
        s.take(i + 1).filter(pred) == (if pred(s[i]) {
            s.take(i).filter(pred).push(s[i])
        } else {
            s.take(i).filter(pred)
        }),
{
    reveal(Seq::filter);
    assert(s.take(i + 1).drop_last() =~= s.take(i));
}

/// Nothing is left of an empty prefix.
pub proof fn lemma_filter_start<A>(s: Seq<A>, pred: spec_fn(A) -> bool)
    ensures
        s.take(0).filter(pred) == Seq::<A>::empty(),
        s.take(s.len() as int) == s,
{
    reveal(Seq::filter);
    assert(s.take(s.len() as int) =~= s);
}

/// A filter keeps a sequence whose elements all pass.
pub proof fn lemma_filter_all<A>(s: Seq<A>, pred: spec_fn(A) -> bool)
    requires
        forall|i: int| 0 <= i < s.len() ==> pred(#[trigger] s[i]),
    ensures
        s.filter(pred) == s,
    decreases s.len(),
{
    reveal(Seq::filter);
    if s.len() > 0 {
        lemma_filter_all(s.drop_last(), pred);
        assert(s.drop_last().push(s.last()) =~= s);
    }
}

/// Each element that a filter keeps passes, and is an element of the sequence.
pub proof fn lemma_filter_kept<A>(s: Seq<A>, pred: spec_fn(A) -> bool)
    ensures
        forall|j: int|
            0 <= j < s.filter(pred).len() ==> pred(#[trigger] s.filter(pred)[j]) && s.contains(
                s.filter(pred)[j],
            ),
    decreases s.len(),
{
    reveal(Seq::filter);
    if s.len() > 0 {
        let rest = s.drop_last();
        lemma_filter_kept(rest, pred);
        assert forall|j: int| 0 <= j < s.filter(pred).len() implies pred(
            #[trigger] s.filter(pred)[j],
        ) && s.contains(s.filter(pred)[j]) by {
            if j < rest.filter(pred).len() {
                let x = rest.filter(pred)[j];
                assert(rest.contains(x));
                let k = choose|k: int| 0 <= k < rest.len() && rest[k] == x;
                assert(s[k] == x);
            } else {
                assert(s[s.len() - 1] == s.last());
            }
        }
    }
}

/// The set of a prefix grows by the element that follows it.
pub proof fn lemma_prefix_set_step<A>(s: Seq<A>, i: int)
    requires
        0 <= i < s.len(),
    ensures
        s.take(i + 1).to_set() == s.take(i).to_set().insert(s[i]),
{
    let a = s.take(i + 1);
    let b = s.take(i);
    assert forall|x: A| a.to_set().contains(x) <==> b.to_set().insert(s[i]).contains(x) by {
        if a.contains(x) {
            let k = choose|k: int| 0 <= k < a.len() && a[k] == x;
            if k < i {
                assert(b[k] == x);
            }
        }
        if b.contains(x) {
            let k = choose|k: int| 0 <= k < b.len() && b[k] == x;
            assert(a[k] == x);
        }
        if x == s[i] {
            assert(a[i] == x);
        }
    }
    assert(a.to_set() =~= b.to_set().insert(s[i]));
}

/// The empty prefix has the empty set, the whole prefix the whole set.
pub proof fn lemma_prefix_set_ends<A>(s: Seq<A>)
    ensures
        s.take(0).to_set() == Set::<A>::empty(),
        s.take(s.len() as int) == s,
{
    assert(s.take(0).to_set() =~= Set::<A>::empty());
    assert(s.take(s.len() as int) =~= s);
}

} // verus!
