//! Listings of what an editor holds.

use vstd::prelude::*;
use vstd::string::*;
use crate::editor::reindex::{comes_before, has_id, id_order, listed_at};
use crate::editor::BPETokenizerEditor;
use crate::merge_set::MergeSet;
use crate::sorting::{key_le, Key};
use crate::text::lex_lt;
use crate::types::{entry_views, pair_views};
use crate::vocab::{entries_map, entry_index, lemma_entry_in_map, lemma_map_size, sorted_entries};

verus! {

/// The list names the token.
pub open spec fn lists_entry(l: Seq<(Seq<char>, u32)>, t: Seq<char>) -> bool {
    exists|k: int| 0 <= k < l.len() && (#[trigger] l[k]).0 == t
}

/// `l` lists the vocabulary by id: each token once with its id, in the
/// order of the ids, and in the order of the tokens where two have the same id.
pub open spec fn lists_by_id(vocab: Map<Seq<char>, u32>, l: Seq<(Seq<char>, u32)>) -> bool {
    &&& l.len() == vocab.len()
    &&& forall|k: int|
        0 <= k < l.len() ==> vocab.contains_key((#[trigger] l[k]).0) && vocab[l[k].0] == l[k].1
    &&& forall|j: int, k: int|
        0 <= j < k < l.len() ==> comes_before(vocab, (#[trigger] l[j]).0, (#[trigger] l[k]).0)
    &&& forall|t: Seq<char>| #[trigger] vocab.contains_key(t) ==> lists_entry(l, t)
}

proof fn lemma_lists_by_id(es: Seq<(Seq<char>, u32)>, s: Seq<Key>, l: Seq<(Seq<char>, u32)>)
    requires
        sorted_entries(es),
        id_order(es, s),
        l.len() == s.len(),
        forall|p: int| 0 <= p < s.len() ==> #[trigger] l[p] == es[s[p].2 as int],
    ensures
        lists_by_id(entries_map(es), l),
{
    let vocab = entries_map(es);
    lemma_map_size(es);
    assert forall|k: int| 0 <= k < l.len() implies vocab.contains_key((#[trigger] l[k]).0)
        && vocab[l[k].0] == l[k].1 by {
        lemma_entry_in_map(es, s[k].2 as int);
    }
    assert forall|j: int, k: int| 0 <= j < k < l.len() implies comes_before(
        vocab,
        (#[trigger] l[j]).0,
        (#[trigger] l[k]).0,
    ) by {
        let a = s[j].2 as int;
        let b = s[k].2 as int;
        lemma_entry_in_map(es, a);
        lemma_entry_in_map(es, b);
        assert(key_le(s[j], s[k]));
        assert(a != b);
        if a < b {
            assert(lex_lt(es[a].0, es[b].0));
        }
    }
    assert forall|t: Seq<char>| #[trigger] vocab.contains_key(t) implies lists_entry(l, t) by {
        let i = entry_index(es, t);
        let p = listed_at(s, i);
        assert(s[p].2 == i);
        assert(l[p].0 == t);
    }
}

impl BPETokenizerEditor {
    /// The vocabulary in the order of the ids, as it is written out.
    pub fn vocab_by_id(&self) -> (r: Vec<(String, u32)>)
        requires
            self.vocab.wf(),
        ensures
            lists_by_id(self@.vocab, entry_views(r@)),
    {
        let ghost es = self.vocab.entries();
        let s = self.sorted_ids();
        let mut r: Vec<(String, u32)> = Vec::new();
        let mut p: usize = 0;
        while p < s.len()
            invariant
                p <= s@.len(),
                es == self.vocab.entries(),
                id_order(es, s@),
                r@.len() == p,
                forall|q: int| 0 <= q < p ==> #[trigger] entry_views(r@)[q] == es[s@[q].2 as int],
            decreases s@.len() - p,
        {
            let at = s[p].2;
            let ghost listed = entry_views(r@);
            r.push((String::from_str(self.vocab.token_at(at)), self.vocab.id_at(at)));
            assert(entry_views(r@) =~= listed.push(es[at as int]));
            p = p + 1;
        }
        proof {
            lemma_lists_by_id(es, s@, entry_views(r@));
        }
        r
    }

    /// The merges as pairs of tokens, in their order.
    pub fn get_merges(&self) -> (r: Vec<(String, String)>)
        ensures
            pair_views(r@) == self@.merges,
    {
        let mut r: Vec<(String, String)> = Vec::new();
        let mut i: usize = 0;
        while i < self.merges.len()
            invariant
                i <= self.merges@.len(),
                r@.len() == i,
                forall|j: int| 0 <= j < i ==> #[trigger] pair_views(r@)[j] == self@.merges[j],
            decreases self.merges@.len() - i,
        {
            let ghost listed = pair_views(r@);
            let pair = self.merges[i].to_pair();
            r.push(pair);
            assert(pair_views(r@) =~= listed.push(self@.merges[i as int]));
            i = i + 1;
        }
        assert(pair_views(r@) =~= self@.merges);
        r
    }

    /// The merges as a set of pairs.
    pub fn get_merge_set(&self) -> (r: MergeSet)
        ensures
            r.wf(),
            r@ == self@.merges.to_set(),
    {
        let ghost m = self@.merges;
        let mut r = MergeSet::new();
        let mut i: usize = 0;
        proof {
            crate::seqs::lemma_prefix_set_ends(m);
        }
        while i < self.merges.len()
            invariant
                i <= self.merges@.len(),
                m == self@.merges,
                r.wf(),
                r@ == m.take(i as int).to_set(),
            decreases self.merges@.len() - i,
        {
            proof {
                crate::seqs::lemma_prefix_set_step(m, i as int);
            }
            let merge = &self.merges[i];
            assert(m[i as int] == merge.pair());
            r.insert(merge.0.as_str(), merge.1.as_str());
            i = i + 1;
        }
        proof {
            crate::seqs::lemma_prefix_set_ends(m);
        }
        r
    }

    /// The token with the id; where several have it, the first in the
    /// lexicographic order.
    pub fn token_by_id(&self, id: u32) -> (r: Option<String>)
        requires
            self.vocab.wf(),
        ensures
            match r {
                Some(t) => self@.vocab.contains_key(t@) && self@.vocab[t@] == id && forall|
                    s: Seq<char>,
                | #[trigger]
                    self@.vocab.contains_key(s) && self@.vocab[s] == id && s != t@ ==> lex_lt(t@, s),
                None => !has_id(self@.vocab, id),
            },
    {
        let ghost es = self.vocab.entries();
        let n = self.vocab.len();
        let mut i: usize = 0;
        while i < n
            invariant
                i <= n,
                n == es.len(),
                es == self.vocab.entries(),
                self.vocab.wf(),
                forall|j: int| 0 <= j < i ==> (#[trigger] es[j]).1 != id,
            decreases n - i,
        {
            if self.vocab.id_at(i) == id {
                proof {
                    lemma_entry_in_map(es, i as int);
                    assert forall|s: Seq<char>| #[trigger]
                        self@.vocab.contains_key(s) && self@.vocab[s] == id && s != es[i as int].0 implies lex_lt(
                        es[i as int].0,
                        s,
                    ) by {
                        let j = entry_index(es, s);
                        lemma_entry_in_map(es, j);
                        assert(es[j].1 == id);
                    }
                }
                return Some(String::from_str(self.vocab.token_at(i)));
            }
            i = i + 1;
        }
        proof {
            assert forall|t: Seq<char>| !(#[trigger] self@.vocab.contains_key(t) && self@.vocab[t] == id) by {
                if self@.vocab.contains_key(t) {
                    let j = entry_index(es, t);
                    lemma_entry_in_map(es, j);
                    assert(es[j].1 != id);
                }
            }
        }
        None
    }
}

} // verus!
