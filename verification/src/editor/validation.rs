//! Validation: a merge is valid where the token that it produces is in the
//! vocabulary.

use vstd::prelude::*;
use vstd::string::*;
use crate::editor::{BPETokenizerEditor, GraphView};
use crate::tokenizer::{merge_pairs, Merge};

verus! {

/// The merge at index `i` produces a token of the vocabulary.
pub open spec fn is_valid_merge(g: GraphView, i: int) -> bool {
    0 <= i < g.merges.len() && g.vocab.contains_key(g.merges[i].0 + g.merges[i].1)
}

/// The merge at index `i` produces a token that the vocabulary lacks.
pub open spec fn is_dangling_merge(g: GraphView, i: int) -> bool {
    0 <= i < g.merges.len() && !g.vocab.contains_key(g.merges[i].0 + g.merges[i].1)
}

/// The test for a merge whose production is in the vocabulary.
pub open spec fn produced_in(vocab: Map<Seq<char>, u32>) -> spec_fn((Seq<char>, Seq<char>)) -> bool {
    |p: (Seq<char>, Seq<char>)| vocab.contains_key(p.0 + p.1)
}

/// The graph without its dangling merges.
pub open spec fn repaired(g: GraphView) -> GraphView {
    GraphView { merges: g.merges.filter(produced_in(g.vocab)), ..g }
}

/// The number of dangling merges.
pub open spec fn dangling_count(g: GraphView) -> nat {
    (g.merges.len() - g.merges.filter(produced_in(g.vocab)).len()) as nat
}

/// The indices ascend.
pub open spec fn ascending_indices(l: Seq<usize>) -> bool {
    forall|a: int, b: int| 0 <= a < b < l.len() ==> l[a] < l[b]
}

/// The indices of the invalid merges.
pub open spec fn invalid_indices(l: Seq<(usize, Merge)>) -> Seq<usize> {
    l.map_values(|e: (usize, Merge)| e.0)
}

/// A repaired graph has no dangling merge, and repairing it again changes nothing.
pub proof fn lemma_repaired_is_valid(g: GraphView)
    ensures
        forall|j: int| 0 <= j < repaired(g).merges.len() ==> #[trigger] is_valid_merge(repaired(g), j),
        dangling_count(repaired(g)) == 0,
        repaired(repaired(g)) == repaired(g),
{
    crate::seqs::lemma_filter_kept(g.merges, produced_in(g.vocab));
    crate::seqs::lemma_filter_all(repaired(g).merges, produced_in(g.vocab));
}

impl BPETokenizerEditor {
    /// Partitions the merges: the indices of the valid ones, and the invalid
    /// ones with their indices, both in the order of the list.
    pub fn validate_merges(&self) -> (r: (Vec<usize>, Vec<(usize, Merge)>))
        requires
            self.vocab.wf(),
        ensures
            ascending_indices(r.0@),
            forall|a: int| 0 <= a < r.0@.len() ==> is_valid_merge(self@, #[trigger] r.0@[a] as int),
            forall|i: int| #[trigger] is_valid_merge(self@, i) ==> r.0@.contains(i as usize),
            ascending_indices(invalid_indices(r.1@)),
            forall|a: int|
                0 <= a < r.1@.len() ==> is_dangling_merge(self@, (#[trigger] r.1@[a]).0 as int)
                    && r.1@[a].1.pair() == self@.merges[r.1@[a].0 as int],
            forall|i: int| #[trigger]
                is_dangling_merge(self@, i) ==> invalid_indices(r.1@).contains(i as usize),
            r.0@.len() + r.1@.len() == self@.merges.len(),
            r.1@.len() == dangling_count(self@),
    {
        let ghost g = self@;
        let ghost test = produced_in(g.vocab);
        let mut valid: Vec<usize> = Vec::new();
        let mut invalid: Vec<(usize, Merge)> = Vec::new();
        let mut i: usize = 0;
        proof {
            crate::seqs::lemma_filter_start(g.merges, test);
        }
        while i < self.merges.len()
            invariant
                i <= self.merges@.len(),
                g == self@,
                test == produced_in(g.vocab),
                self.vocab.wf(),
                ascending_indices(valid@),
                ascending_indices(invalid_indices(invalid@)),
                forall|a: int| 0 <= a < valid@.len() ==> #[trigger] valid@[a] < i,
                forall|a: int| 0 <= a < invalid@.len() ==> (#[trigger] invalid@[a]).0 < i,
                forall|a: int| 0 <= a < valid@.len() ==> is_valid_merge(g, #[trigger] valid@[a] as int),
                forall|j: int| 0 <= j < i && #[trigger] is_valid_merge(g, j) ==> valid@.contains(j as usize),
                forall|a: int|
                    0 <= a < invalid@.len() ==> is_dangling_merge(g, (#[trigger] invalid@[a]).0 as int)
                        && invalid@[a].1.pair() == g.merges[invalid@[a].0 as int],
                forall|j: int|
                    0 <= j < i && #[trigger] is_dangling_merge(g, j) ==> invalid_indices(
                        invalid@,
                    ).contains(j as usize),
                valid@.len() + invalid@.len() == i,
                valid@.len() == g.merges.take(i as int).filter(test).len(),
            decreases self.merges@.len() - i,
        {
            let merge = &self.merges[i];
            assert(g.merges[i as int] == merge.pair());
            let product = merge.result();
            proof {
                crate::seqs::lemma_filter_step(g.merges, test, i as int);
            }
            let ghost valid0 = valid@;
            let ghost invalid0 = invalid@;
            if self.vocab.contains(product.as_str()) {
                valid.push(i);
                proof {
                    assert(valid@[valid0.len() as int] == i);
                    assert forall|j: int| 0 <= j < i + 1 && #[trigger] is_valid_merge(g, j) implies valid@.contains(j as usize) by {
                        if j < i {
                            let a = choose|a: int| 0 <= a < valid0.len() && valid0[a] == j as usize;
                            assert(valid@[a] == j as usize);
                        }
                    }
                }
            } else {
                invalid.push((i, merge.duplicate()));
                proof {
                    let ids0 = invalid_indices(invalid0);
                    let ids = invalid_indices(invalid@);
                    assert(ids[invalid0.len() as int] == i);
                    assert forall|a: int, b: int| 0 <= a < b < ids.len() implies ids[a] < ids[b] by {
                        assert(ids[a] == invalid@[a].0);
                        assert(ids[b] == invalid@[b].0);
                        if b < invalid0.len() {
                            assert(ids0[a] == invalid0[a].0 && ids0[b] == invalid0[b].0);
                        }
                    }
                    assert forall|j: int|
                        0 <= j < i + 1 && #[trigger] is_dangling_merge(g, j) implies ids.contains(j as usize) by {
                        if j < i {
                            let a = choose|a: int| 0 <= a < ids0.len() && ids0[a] == j as usize;
                            assert(ids[a] == j as usize);
                        }
                    }
                }
            }
            i = i + 1;
        }
        proof {
            crate::seqs::lemma_filter_start(g.merges, test);
        }
        (valid, invalid)
    }

    /// Removes the dangling merges and returns how many there were. The
    /// vocabulary is not touched.
    pub fn remove_invalid_merges(&mut self) -> (removed: usize)
        requires
            old(self).wf(),
        ensures
            final(self).wf(),
            final(self)@ == repaired(old(self)@),
            removed == dangling_count(old(self)@),
            forall|j: int| 0 <= j < final(self)@.merges.len() ==> #[trigger] is_valid_merge(final(self)@, j),
    {
        let ghost g = self@;
        let ghost test = produced_in(g.vocab);
        let mut kept: Vec<Merge> = Vec::new();
        let mut removed: usize = 0;
        let mut i: usize = 0;
        proof {
            crate::seqs::lemma_filter_start(g.merges, test);
            assert(merge_pairs(kept@) =~= g.merges.take(0));
        }
        while i < self.merges.len()
            invariant
                i <= self.merges@.len(),
                g == self@,
                test == produced_in(g.vocab),
                self.wf(),
                merge_pairs(kept@) == g.merges.take(i as int).filter(test),
                kept@.len() + removed == i,
                removed == 0 ==> merge_pairs(kept@) == g.merges.take(i as int),
            decreases self.merges@.len() - i,
        {
            let merge = &self.merges[i];
            assert(g.merges[i as int] == merge.pair());
            let product = merge.result();
            proof {
                crate::seqs::lemma_filter_step(g.merges, test, i as int);
            }
            let ghost kept0 = merge_pairs(kept@);
            if self.vocab.contains(product.as_str()) {
                kept.push(merge.duplicate());
                proof {
                    assert(merge_pairs(kept@) =~= kept0.push(g.merges[i as int]));
                    if removed == 0 {
                        assert(g.merges.take(i + 1) =~= g.merges.take(i as int).push(g.merges[i as int]));
                    }
                }
            } else {
                removed = removed + 1;
            }
            i = i + 1;
        }
        proof {
            crate::seqs::lemma_filter_start(g.merges, test);
        }
        if removed > 0 {
            self.merges = kept;
            self.rebuild_indices();
        }
        proof {
            lemma_repaired_is_valid(g);
        }
        removed
    }
}

} // verus!
