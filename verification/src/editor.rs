//! The editor of a BPE tokenizer: its vocabulary and merge list, the index
//! derived from the merges, and the allocator of ids.

use vstd::prelude::*;
use vstd::string::*;
use crate::ids::IdAllocator;
use crate::index::{is_first_producer, lists_users, produces, uses, DependencyIndex};
use crate::tokenizer::{merge_pairs, Merge};
use crate::vocab::Vocabulary;

pub mod addition;
pub mod batch;
pub mod bulk;
pub mod invariants;
pub mod listing;
pub mod protection;
pub mod reindex;
pub mod removal;
pub mod shrink;
pub mod stats;
pub mod sync;
pub mod validation;

verus! {

/// What an editor holds, as mathematical values.
pub struct GraphView {
    /// The id of each token of the vocabulary.
    pub vocab: Map<Seq<char>, u32>,
    /// The merge rules in their order.
    pub merges: Seq<(Seq<char>, Seq<char>)>,
    /// The ids that the allocator holds as in use.
    pub used: Set<u32>,
    /// The allocator's cursor.
    pub next_id: nat,
}

impl GraphView {
    /// Whether `k` more ids can be handed out.
    pub open spec fn has_room(self, k: nat) -> bool {
        self.next_id + k <= u32::MAX + 1
    }
}

/// The graph with the token in its vocabulary: a token that is new gets the
/// id under the cursor.
pub open spec fn with_token(g: GraphView, t: Seq<char>) -> GraphView {
    if g.vocab.contains_key(t) {
        g
    } else {
        GraphView {
            vocab: g.vocab.insert(t, g.next_id as u32),
            used: g.used.insert(g.next_id as u32),
            next_id: g.next_id + 1,
            ..g
        }
    }
}

/// The graph with the merge in its list: a merge that is new goes to the end.
pub open spec fn with_merge(g: GraphView, a: Seq<char>, b: Seq<char>) -> GraphView {
    if g.merges.contains((a, b)) {
        g
    } else {
        GraphView { merges: g.merges.push((a, b)), ..g }
    }
}

/// A BPE tokenizer under edit.
pub struct BPETokenizerEditor {
    /// The vocabulary.
    pub vocab: Vocabulary,
    /// The merge rules in their order.
    pub merges: Vec<Merge>,
    /// The index of the merge list.
    pub index: DependencyIndex,
    /// The allocator of ids.
    pub ids: IdAllocator,
}

impl View for BPETokenizerEditor {
    type V = GraphView;

    open spec fn view(&self) -> GraphView {
        GraphView {
            vocab: self.vocab@,
            merges: merge_pairs(self.merges@),
            used: self.ids.used(),
            next_id: self.ids.next(),
        }
    }
}

impl BPETokenizerEditor {
    /// The vocabulary and the allocator are valid, and every id of the
    /// vocabulary lies below the allocator's cursor.
    pub open spec fn data_wf(&self) -> bool {
        &&& self.vocab.wf()
        &&& self.ids.wf()
        &&& forall|t: Seq<char>| #[trigger]
            self.vocab@.contains_key(t) ==> self.vocab@[t] < self.ids.next()
    }

    /// The index reflects the merge list as it stands.
    pub open spec fn index_fresh(&self) -> bool {
        &&& self.index.wf()
        &&& self.index.merges() == merge_pairs(self.merges@)
    }

    /// The editor is valid: its data is, and its index is not stale.
    pub open spec fn wf(&self) -> bool {
        &&& self.data_wf()
        &&& self.index_fresh()
    }

    /// An editor of the given vocabulary and merges. The ids of the
    /// vocabulary are in use, and the cursor stands one past the largest of
    /// them, at 1 where there is none.
    pub fn new(vocab: Vocabulary, merges: Vec<Merge>) -> (r: BPETokenizerEditor)
        requires
            vocab.wf(),
        ensures
            r.wf(),
            r@.vocab == vocab@,
            r@.merges == merge_pairs(merges@),
            forall|i: u32|
                r@.used.contains(i) <==> exists|t: Seq<char>| #[trigger]
                    vocab@.contains_key(t) && vocab@[t] == i,
            r@.next_id == 1 || exists|t: Seq<char>| #[trigger]
                vocab@.contains_key(t) && vocab@[t] + 1 == r@.next_id,
            r@.next_id >= 1,
    {
        let mut ids = IdAllocator::new();
        let n = vocab.len();
        let ghost es = vocab.entries();
        let mut i: usize = 0;
        while i < n
            invariant
                vocab.wf(),
                es == vocab.entries(),
                n == es.len(),
                i <= n,
                ids.wf(),
                ids.next() >= 1,
                forall|j: int| 0 <= j < i ==> #[trigger] es[j].1 < ids.next(),
                forall|x: u32|
                    ids.used().contains(x) <==> exists|j: int| 0 <= j < i && #[trigger] es[j].1 == x,
                ids.next() == 1 || exists|j: int| 0 <= j < i && #[trigger] es[j].1 + 1 == ids.next(),
            decreases n - i,
        {
            let id = vocab.id_at(i);
            let ghost before = ids.used();
            ids.reserve(id);
            proof {
                assert forall|x: u32|
                    ids.used().contains(x) <==> exists|j: int|
                        0 <= j < i + 1 && #[trigger] es[j].1 == x by {
                    if before.contains(x) {
                        let j = choose|j: int| 0 <= j < i && #[trigger] es[j].1 == x;
                        assert(0 <= j < i + 1 && es[j].1 == x);
                    }
                    if x == id {
                        assert(es[i as int].1 == x);
                    }
                    if exists|j: int| 0 <= j < i + 1 && #[trigger] es[j].1 == x {
                        let j = choose|j: int| 0 <= j < i + 1 && #[trigger] es[j].1 == x;
                        if j < i {
                            assert(before.contains(x));
                        }
                    }
                }
                if ids.next() != 1 {
                    if id as nat + 1 == ids.next() {
                        assert(es[i as int].1 + 1 == ids.next());
                    } else {
                        let j = choose|j: int| 0 <= j < i && #[trigger] es[j].1 + 1 == ids.next();
                        assert(0 <= j < i + 1 && es[j].1 + 1 == ids.next());
                    }
                }
            }
            i = i + 1;
        }
        let index = DependencyIndex::build(&merges);
        let r = BPETokenizerEditor { vocab, merges, index, ids };
        proof {
            assert forall|t: Seq<char>| #[trigger] r.vocab@.contains_key(t) implies r.vocab@[t]
                < r.ids.next() by {
                let j = crate::vocab::entry_index(es, t);
                crate::vocab::lemma_entry_in_map(es, j);
            }
            assert forall|x: u32|
                r@.used.contains(x) <==> exists|t: Seq<char>| #[trigger]
                    vocab@.contains_key(t) && vocab@[t] == x by {
                if r@.used.contains(x) {
                    let j = choose|j: int| 0 <= j < n && #[trigger] es[j].1 == x;
                    crate::vocab::lemma_entry_in_map(es, j);
                    assert(vocab@.contains_key(es[j].0) && vocab@[es[j].0] == x);
                }
                if exists|t: Seq<char>| #[trigger] vocab@.contains_key(t) && vocab@[t] == x {
                    let t = choose|t: Seq<char>| #[trigger]
                        vocab@.contains_key(t) && vocab@[t] == x;
                    let j = crate::vocab::entry_index(es, t);
                    crate::vocab::lemma_entry_in_map(es, j);
                    assert(es[j].1 == x);
                }
            }
            if r@.next_id != 1 {
                let j = choose|j: int| 0 <= j < n && #[trigger] es[j].1 + 1 == r.ids.next();
                crate::vocab::lemma_entry_in_map(es, j);
                assert(vocab@.contains_key(es[j].0) && vocab@[es[j].0] + 1 == r@.next_id);
            }
        }
        r
    }

    /// Builds the index anew from the merge list.
    pub fn rebuild_indices(&mut self)
        ensures
            final(self).index_fresh(),
            final(self).vocab == old(self).vocab,
            final(self).merges == old(self).merges,
            final(self).ids == old(self).ids,
    {
        self.index = DependencyIndex::build(&self.merges);
    }

    /// The number of tokens in the vocabulary.
    pub fn vocab_size(&self) -> (n: usize)
        requires
            self.vocab.wf(),
        ensures
            n == self@.vocab.len(),
            n == self.vocab.entries().len(),
    {
        proof {
            self.vocab.lemma_size();
        }
        self.vocab.len()
    }

    /// The number of merges.
    pub fn merges_count(&self) -> (n: usize)
        ensures
            n == self@.merges.len(),
    {
        self.merges.len()
    }

    /// Whether the token is in the vocabulary.
    pub fn has_token(&self, token: &str) -> (r: bool)
        requires
            self.vocab.wf(),
        ensures
            r == self@.vocab.contains_key(token@),
    {
        self.vocab.contains(token)
    }

    /// The id of the token, if it is in the vocabulary.
    pub fn token_id(&self, token: &str) -> (r: Option<u32>)
        requires
            self.vocab.wf(),
        ensures
            r == (if self@.vocab.contains_key(token@) {
                Some(self@.vocab[token@])
            } else {
                None
            }),
    {
        self.vocab.get(token)
    }

    /// The first merge in the list that produces the token, if any does.
    pub fn producer_of(&self, token: &str) -> (r: Option<usize>)
        requires
            self.index_fresh(),
        ensures
            match r {
                Some(i) => is_first_producer(self@.merges, token@, i as int),
                None => forall|i: int| !produces(self@.merges, i, token@),
            },
            forall|i: int| #[trigger] produces(self@.merges, i, token@) ==> r is Some && r.unwrap() <= i,
    {
        self.index.producer(token)
    }

    /// The merges that have the token as an operand, in ascending order.
    pub fn users_of(&self, token: &str) -> (r: Vec<usize>)
        requires
            self.index_fresh(),
        ensures
            lists_users(r@, self@.merges, token@),
    {
        match self.index.users(token) {
            Some(l) => l.clone(),
            None => {
                let r: Vec<usize> = Vec::new();
                assert forall|i: int| #[trigger] uses(self@.merges, i, token@) implies exists|
                    a: int,
                | 0 <= a < r@.len() && r@[a] == i by {}
                r
            },
        }
    }

    /// Whether the merge list holds the pair.
    pub fn has_merge(&self, a: &str, b: &str) -> (r: bool)
        ensures
            r == self@.merges.contains((a@, b@)),
    {
        let mut i: usize = 0;
        while i < self.merges.len()
            invariant
                i <= self.merges.len(),
                forall|j: int| 0 <= j < i ==> merge_pairs(self.merges@)[j] != (a@, b@),
            decreases self.merges.len() - i,
        {
            let m = &self.merges[i];
            assert(merge_pairs(self.merges@)[i as int] == m.pair());
            if crate::text::same_token(m.0.as_str(), a) && crate::text::same_token(m.1.as_str(), b) {
                return true;
            }
            i = i + 1;
        }
        false
    }

    /// Puts the token into the vocabulary under a fresh id, unless it is there.
    pub fn add_token_atomic(&mut self, token: &str) -> (added: bool)
        requires
            old(self).data_wf(),
            old(self)@.vocab.contains_key(token@) || old(self)@.has_room(1),
        ensures
            final(self).data_wf(),
            final(self)@ == with_token(old(self)@, token@),
            added == !old(self)@.vocab.contains_key(token@),
            final(self).index == old(self).index,
            final(self).merges == old(self).merges,
            final(self).vocab.entries().len() - old(self).vocab.entries().len() == final(self)@.next_id - old(self)@.next_id,
    {
        if self.has_token(token) {
            return false;
        }
        let id = self.ids.allocate();
        self.vocab.insert(String::from_str(token), id);
        true
    }
}

} // verus!
