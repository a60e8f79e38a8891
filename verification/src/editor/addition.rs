//! Token addition: a token that is new comes with the merges that build it.

use vstd::prelude::*;
use vstd::string::*;
use crate::editor::{with_merge, with_token, BPETokenizerEditor, GraphView};
use crate::text::{char_len, char_token_at, prefix_of, suffix_of};
use crate::tokenizer::{merge_pairs, Merge};
use crate::types::{pair_views, AdditionResult};

verus! {

/// One step of a character chain: character `k` of the token becomes a
/// token, the merge of the first `k` characters with it joins the list, and
/// the first `k + 1` characters become a token.
pub open spec fn chain_step(g: GraphView, t: Seq<char>, k: int) -> GraphView {
    let ch = t.subrange(k, k + 1);
    with_token(with_merge(with_token(g, ch), t.take(k), ch), t.take(k + 1))
}

/// The character chain of the first `k` characters of a token.
pub open spec fn chain_upto(g: GraphView, t: Seq<char>, k: nat) -> GraphView
    decreases k,
{
    if k == 0 {
        g
    } else if k == 1 {
        with_token(g, t.take(1))
    } else {
        chain_step(chain_upto(g, t, (k - 1) as nat), t, k - 1)
    }
}

/// The graph after a token was built from its characters, left to right.
pub open spec fn with_char_chain(g: GraphView, t: Seq<char>) -> GraphView {
    chain_upto(g, t, t.len())
}

/// The length of the longest prefix of at most `k` characters that is in
/// the vocabulary, or 0 where there is none.
pub open spec fn longest_prefix(vocab: Map<Seq<char>, u32>, t: Seq<char>, k: nat) -> nat
    decreases k,
{
    if k == 0 {
        0
    } else if vocab.contains_key(t.take(k as int)) {
        k
    } else {
        longest_prefix(vocab, t, (k - 1) as nat)
    }
}

/// The graph after the suffix was made a token, unless it was one, and the
/// merge of prefix and suffix joined the list.
pub open spec fn with_suffix_merge(g: GraphView, prefix: Seq<char>, suffix: Seq<char>) -> GraphView {
    let built = if g.vocab.contains_key(suffix) {
        g
    } else {
        with_char_chain(g, suffix)
    };
    with_merge(built, prefix, suffix)
}

/// The graph after the addition of a token.
pub open spec fn with_added_token(g: GraphView, t: Seq<char>) -> GraphView {
    if g.vocab.contains_key(t) {
        g
    } else if t.len() == 1 {
        with_token(g, t)
    } else {
        let k = longest_prefix(g.vocab, t, t.len());
        if k > 0 {
            with_token(with_suffix_merge(g, t.take(k as int), t.skip(k as int)), t)
        } else {
            with_token(with_char_chain(g, t), t)
        }
    }
}

/// The name of the strategy by which a token is added.
pub open spec fn addition_method(g: GraphView, t: Seq<char>) -> Seq<char> {
    if g.vocab.contains_key(t) {
        "already_exists"@
    } else if t.len() == 1 {
        "single_char"@
    } else if longest_prefix(g.vocab, t, t.len()) > 0 {
        "longest_prefix"@
    } else {
        "char_chain"@
    }
}

/// The ids that a character chain needs at most.
pub open spec fn chain_demand(t: Seq<char>) -> nat {
    if t.len() == 0 {
        0
    } else {
        (2 * t.len() - 1) as nat
    }
}

/// The ids that the addition of a token needs at most.
pub open spec fn id_demand(t: Seq<char>) -> nat {
    if t.len() <= 1 {
        1
    } else {
        (2 * t.len() - 1) as nat
    }
}

/// The longest prefix in the vocabulary is one, is proper where the token
/// itself is none, and no longer prefix is in the vocabulary.
pub proof fn lemma_longest_prefix(vocab: Map<Seq<char>, u32>, t: Seq<char>, k: nat)
    requires
        k <= t.len(),
    ensures
        longest_prefix(vocab, t, k) <= k,
        longest_prefix(vocab, t, k) > 0 ==> vocab.contains_key(
            t.take(longest_prefix(vocab, t, k) as int),
        ),
        forall|j: int|
            longest_prefix(vocab, t, k) < j <= k ==> !vocab.contains_key(#[trigger] t.take(j)),
    decreases k,
{
    if k > 0 && !vocab.contains_key(t.take(k as int)) {
        lemma_longest_prefix(vocab, t, (k - 1) as nat);
    }
}

/// The merges of the character chain of a token: each proper prefix with
/// the character that follows it.
pub open spec fn chain_merges(t: Seq<char>, k: nat) -> Seq<(Seq<char>, Seq<char>)> {
    Seq::new((k - 1) as nat, |j: int| (t.take(j + 1), t.subrange(j + 1, j + 2)))
}

/// A token of the character chain of the first `k` characters: a prefix of
/// at most `k` characters, or one of the first `k` characters.
pub open spec fn is_chain_token(t: Seq<char>, k: nat, x: Seq<char>) -> bool {
    (exists|j: int| 1 <= j <= k && x == #[trigger] t.take(j)) || (exists|j: int|
        0 <= j < k && x == #[trigger] t.subrange(j, j + 1))
}

/// How many of the first `k` characters occur there for the first time: the
/// number of different characters among them.
pub open spec fn first_occurrences(t: Seq<char>, k: nat) -> nat
    decreases k,
{
    if k == 0 {
        0
    } else {
        first_occurrences(t, (k - 1) as nat) + if t.take(k - 1).contains(t[k - 1]) {
            0nat
        } else {
            1nat
        }
    }
}

/// The number of different characters lies between 1 and the number of characters.
pub proof fn lemma_first_occurrences_bounds(t: Seq<char>, k: nat)
    requires
        1 <= k <= t.len(),
    ensures
        1 <= first_occurrences(t, k) <= k,
    decreases k,
{
    if k > 1 {
        lemma_first_occurrences_bounds(t, (k - 1) as nat);
    } else {
        assert(!t.take(0).contains(t[0]));
        assert(first_occurrences(t, 0) == 0);
    }
}

/// No prefix is in an empty vocabulary.
proof fn lemma_no_prefix(vocab: Map<Seq<char>, u32>, t: Seq<char>, k: nat)
    requires
        forall|x: Seq<char>| !vocab.contains_key(x),
    ensures
        longest_prefix(vocab, t, k) == 0,
    decreases k,
{
    if k > 0 {
        lemma_no_prefix(vocab, t, (k - 1) as nat);
    }
}

/// What the character chain of the first `k` characters makes of a graph
/// with an empty vocabulary that holds none of the merges of the chain.
proof fn lemma_chain_on_empty(g: GraphView, t: Seq<char>, k: nat)
    requires
        forall|x: Seq<char>| !g.vocab.contains_key(x),
        1 <= k <= t.len(),
        forall|j: int| 1 <= j < t.len() ==> !g.merges.contains((#[trigger] t.take(j), t.subrange(j, j + 1))),
    ensures
        forall|x: Seq<char>| chain_upto(g, t, k).vocab.contains_key(x) <==> is_chain_token(t, k, x),
        chain_upto(g, t, k).merges == g.merges + chain_merges(t, k),
        chain_upto(g, t, k).next_id == g.next_id + (k - 1) + first_occurrences(t, k),
        chain_upto(g, t, k).vocab.dom().finite(),
        chain_upto(g, t, k).vocab.len() == (k - 1) + first_occurrences(t, k),
    decreases k,
{
    if k == 1 {
        let a = chain_upto(g, t, 1);
        assert(g.vocab.dom() =~= Set::empty());
        assert(a.vocab.dom() =~= Set::empty().insert(t.take(1)));
        assert(t.take(1) =~= t.subrange(0, 1));
        assert forall|x: Seq<char>| a.vocab.contains_key(x) <==> is_chain_token(t, 1, x) by {
            if is_chain_token(t, 1, x) {
                assert(x == t.take(1));
            }
            if x == t.take(1) {
                assert(1 <= 1 <= k && x == t.take(1));
            }
        }
        assert(a.merges =~= g.merges + chain_merges(t, 1));
        assert(!t.take(0).contains(t[0]));
        assert(first_occurrences(t, 0) == 0);
    } else {
        let i = (k - 1) as int;
        let s = chain_upto(g, t, (k - 1) as nat);
        lemma_chain_on_empty(g, t, (k - 1) as nat);
        let ch = t.subrange(i, i + 1);
        let left = t.take(i);
        let next = t.take(i + 1);
        let s1 = with_token(s, ch);
        let s2 = with_merge(s1, left, ch);
        let s3 = with_token(s2, next);
        assert(chain_upto(g, t, k) == s3);
        // the character is new where it did not occur before
        assert(s.vocab.contains_key(ch) <==> t.take(i).contains(t[i])) by {
            if is_chain_token(t, i as nat, ch) {
                if exists|j: int| 1 <= j <= i && ch == #[trigger] t.take(j) {
                    let j = choose|j: int| 1 <= j <= i && ch == #[trigger] t.take(j);
                    assert(t.take(j).len() == j);
                    assert(ch.len() == 1);
                    assert(t.take(1)[0] == ch[0]);
                    assert(t.take(i)[0] == t[i]);
                } else {
                    let j = choose|j: int| 0 <= j < i && ch == #[trigger] t.subrange(j, j + 1);
                    assert(t.subrange(j, j + 1)[0] == ch[0]);
                    assert(t.take(i)[j] == t[i]);
                }
            }
            if t.take(i).contains(t[i]) {
                let j = choose|j: int| 0 <= j < t.take(i).len() && t.take(i)[j] == t[i];
                assert(ch =~= t.subrange(j, j + 1));
                assert(is_chain_token(t, i as nat, ch));
            }
        }
        // the merge is new
        assert(!s1.merges.contains((left, ch))) by {
            assert(!g.merges.contains((t.take(i), t.subrange(i, i + 1))));
            if s1.merges.contains((left, ch)) {
                let j = choose|j: int| 0 <= j < s1.merges.len() && s1.merges[j] == (left, ch);
                if j < g.merges.len() {
                    assert(g.merges[j] == (left, ch));
                } else {
                    let q = j - g.merges.len();
                    assert(chain_merges(t, (k - 1) as nat)[q].0.len() == q + 1);
                    assert(left.len() == i);
                }
            }
        }
        // the prefix is new
        assert(!s2.vocab.contains_key(next)) by {
            assert(next.len() == i + 1);
            assert(ch.len() == 1);
            if s.vocab.contains_key(next) {
                assert(is_chain_token(t, i as nat, next));
                if exists|j: int| 1 <= j <= i && next == #[trigger] t.take(j) {
                    let j = choose|j: int| 1 <= j <= i && next == #[trigger] t.take(j);
                    assert(t.take(j).len() == j);
                } else {
                    let j = choose|j: int| 0 <= j < i && next == #[trigger] t.subrange(j, j + 1);
                    assert(t.subrange(j, j + 1).len() == 1);
                }
            }
        }
        assert(s3.merges =~= g.merges + chain_merges(t, k)) by {
            assert(s3.merges == s.merges.push((left, ch)));
            assert(chain_merges(t, k) =~= chain_merges(t, (k - 1) as nat).push((left, ch)));
        }
        assert forall|x: Seq<char>| s3.vocab.contains_key(x) <==> is_chain_token(t, k, x) by {
            if s3.vocab.contains_key(x) {
                if x == next {
                    assert(1 <= i + 1 <= k && x == t.take(i + 1));
                } else if x == ch {
                    assert(0 <= i < k && x == t.subrange(i, i + 1));
                } else {
                    assert(is_chain_token(t, i as nat, x));
                    if exists|j: int| 1 <= j <= i && x == #[trigger] t.take(j) {
                        let j = choose|j: int| 1 <= j <= i && x == #[trigger] t.take(j);
                        assert(1 <= j <= k && x == t.take(j));
                    } else {
                        let j = choose|j: int| 0 <= j < i && x == #[trigger] t.subrange(j, j + 1);
                        assert(0 <= j < k && x == t.subrange(j, j + 1));
                    }
                }
            }
            if is_chain_token(t, k, x) {
                if exists|j: int| 1 <= j <= k && x == #[trigger] t.take(j) {
                    let j = choose|j: int| 1 <= j <= k && x == #[trigger] t.take(j);
                    if j <= i {
                        assert(is_chain_token(t, i as nat, x));
                    }
                } else {
                    let j = choose|j: int| 0 <= j < k && x == #[trigger] t.subrange(j, j + 1);
                    if j < i {
                        assert(is_chain_token(t, i as nat, x));
                    }
                }
            }
        }
    }
}

/// On an empty vocabulary a token of two or more characters is built by a
/// character chain. Where the list holds none of the merges of the chain,
/// one merge is new for each character but the first, and the vocabulary
/// gains the prefixes of the token and its characters: one token for each
/// character but the first, and one for each different character. Where
/// the allocator has the ids that the addition needs, no two of these
/// tokens have the same id.
pub proof fn lemma_char_chain_on_empty(g: GraphView, t: Seq<char>)
    requires
        forall|x: Seq<char>| !g.vocab.contains_key(x),
        t.len() >= 2,
        forall|j: int| 1 <= j < t.len() ==> !g.merges.contains((#[trigger] t.take(j), t.subrange(j, j + 1))),
    ensures
        addition_method(g, t) == "char_chain"@,
        with_added_token(g, t).merges == g.merges + chain_merges(t, t.len()),
        with_added_token(g, t).merges.len() == g.merges.len() + t.len() - 1,
        forall|x: Seq<char>|
            with_added_token(g, t).vocab.contains_key(x) <==> is_chain_token(t, t.len(), x),
        with_added_token(g, t).vocab.len() == t.len() - 1 + first_occurrences(t, t.len()),
        with_added_token(g, t).next_id - g.next_id == with_added_token(g, t).vocab.len(),
        t.len() <= with_added_token(g, t).vocab.len() <= 2 * t.len() - 1,
        first_occurrences(t, t.len()) == 2 ==> with_added_token(g, t).vocab.len() == t.len() + 1,
        g.has_room(id_demand(t)) ==> crate::editor::invariants::ids_in_order(with_added_token(g, t)),
{
    if g.has_room(id_demand(t)) {
        crate::editor::invariants::lemma_addition_keeps_ids(g, t);
    }
    lemma_no_prefix(g.vocab, t, t.len());
    lemma_chain_on_empty(g, t, t.len());
    lemma_first_occurrences_bounds(t, t.len());
    let a = with_char_chain(g, t);
    assert(t.take(t.len() as int) =~= t);
    assert(is_chain_token(t, t.len(), t)) by {
        assert(1 <= t.len() <= t.len() && t == t.take(t.len() as int));
    }
    assert(a.vocab.contains_key(t));
    assert(with_added_token(g, t) == a);
}

impl BPETokenizerEditor {
    /// Appends the merge to the list unless the list holds it. The index is
    /// left as it was.
    fn push_merge_if_missing(&mut self, a: &str, b: &str) -> (added: bool)
        ensures
            final(self)@ == with_merge(old(self)@, a@, b@),
            added == !old(self)@.merges.contains((a@, b@)),
            final(self).vocab == old(self).vocab,
            final(self).ids == old(self).ids,
            final(self).index == old(self).index,
            !added ==> final(self).merges == old(self).merges,
    {
        if self.has_merge(a, b) {
            false
        } else {
            let ghost before = merge_pairs(self.merges@);
            self.merges.push(Merge::new(String::from_str(a), String::from_str(b)));
            assert(merge_pairs(self.merges@) =~= before.push((a@, b@)));
            true
        }
    }

    /// Builds a token from its characters: each character and each prefix
    /// becomes a token, and each prefix is merged with the character that
    /// follows it. Returns the merges that were new. The index is left stale.
    pub(crate) fn build_char_chain(&mut self, token: &str) -> (added: Vec<(String, String)>)
        requires
            old(self).data_wf(),
            old(self)@.has_room(chain_demand(token@)),
        ensures
            final(self).data_wf(),
            final(self)@ == with_char_chain(old(self)@, token@),
            final(self)@.merges == old(self)@.merges + pair_views(added@),
            final(self)@.next_id <= old(self)@.next_id + chain_demand(token@),
            added@.len() < token@.len() || added@.len() == 0,
            final(self).vocab.entries().len() - old(self).vocab.entries().len() == final(self)@.next_id - old(self)@.next_id,
    {
        let ghost g = self@;
        let ghost t = token@;
        let ghost size = self.vocab.entries().len();
        let mut added: Vec<(String, String)> = Vec::new();
        let n = char_len(token);
        if n == 0 {
            assert(g.merges + pair_views(added@) =~= g.merges);
            return added;
        }
        self.add_token_atomic(prefix_of(token, 1));
        let mut k: usize = 1;
        assert(g.merges + pair_views(added@) =~= g.merges);
        while k < n
            invariant
                1 <= k <= n,
                n == t.len(),
                t == token@,
                g.has_room(chain_demand(t)),
                self.data_wf(),
                self@ == chain_upto(g, t, k as nat),
                self@.merges == g.merges + pair_views(added@),
                self@.next_id <= g.next_id + 2 * k - 1,
                added@.len() < k,
                self.vocab.entries().len() - size == self@.next_id - g.next_id,
            decreases n - k,
        {
            let ch = char_token_at(token, k);
            let current = prefix_of(token, k);
            let next = prefix_of(token, k + 1);
            self.add_token_atomic(ch);
            let ghost listed = pair_views(added@);
            if self.push_merge_if_missing(current, ch) {
                added.push((String::from_str(current), String::from_str(ch)));
                assert(pair_views(added@) =~= listed.push((current@, ch@)));
                assert(self@.merges =~= g.merges + pair_views(added@));
            }
            self.add_token_atomic(next);
            k = k + 1;
        }
        added
    }

    /// Makes the suffix a token, by a character chain, unless it is one, and
    /// appends the merge of prefix and suffix unless the list holds it.
    /// Returns the merges that were new. The index is left stale.
    fn build_suffix_and_merge(&mut self, prefix: &str, suffix: &str) -> (added: Vec<
        (String, String),
    >)
        requires
            old(self).data_wf(),
            old(self)@.has_room(chain_demand(suffix@)),
        ensures
            final(self).data_wf(),
            final(self)@ == with_suffix_merge(old(self)@, prefix@, suffix@),
            final(self)@.merges == old(self)@.merges + pair_views(added@),
            final(self)@.next_id <= old(self)@.next_id + chain_demand(suffix@),
            added@.len() <= suffix@.len() || added@.len() <= 1,
            final(self).vocab.entries().len() - old(self).vocab.entries().len() == final(self)@.next_id - old(self)@.next_id,
    {
        let ghost g = self@;
        let mut added: Vec<(String, String)> = if !self.has_token(suffix) {
            self.build_char_chain(suffix)
        } else {
            let none: Vec<(String, String)> = Vec::new();
            assert(g.merges + pair_views(none@) =~= g.merges);
            none
        };
        let ghost listed = pair_views(added@);
        if self.push_merge_if_missing(prefix, suffix) {
            added.push((String::from_str(prefix), String::from_str(suffix)));
            assert(pair_views(added@) =~= listed.push((prefix@, suffix@)));
            assert(self@.merges =~= g.merges + pair_views(added@));
        }
        added
    }

    /// The length of the longest proper prefix of the token that is in the
    /// vocabulary, or 0.
    fn find_longest_prefix(&self, token: &str, n: usize) -> (k: usize)
        requires
            self.vocab.wf(),
            n == token@.len(),
        ensures
            k == longest_prefix(self@.vocab, token@, n as nat),
    {
        let mut k: usize = n;
        while k > 0
            invariant
                k <= n,
                n == token@.len(),
                self.vocab.wf(),
                longest_prefix(self@.vocab, token@, n as nat) == longest_prefix(
                    self@.vocab,
                    token@,
                    k as nat,
                ),
            decreases k,
        {
            if self.has_token(prefix_of(token, k)) {
                return k;
            }
            k = k - 1;
        }
        0
    }

    /// Adds a token. A token of one character goes in alone. Another one is
    /// joined from its longest prefix in the vocabulary and the rest, or,
    /// where no prefix is in the vocabulary, built from its characters.
    pub fn add_token_with_merges(&mut self, token: &str) -> (r: AdditionResult)
        requires
            old(self).wf(),
            old(self)@.vocab.contains_key(token@) || old(self)@.has_room(id_demand(token@)),
        ensures
            final(self).wf(),
            final(self)@ == with_added_token(old(self)@, token@),
            r.token@ == token@,
            r.added == !old(self)@.vocab.contains_key(token@),
            r.method@ == addition_method(old(self)@, token@),
            final(self)@.merges == old(self)@.merges + pair_views(r.added_merges@),
            final(self)@.vocab.contains_key(token@),
            final(self)@.next_id <= old(self)@.next_id + id_demand(token@),
            r.added_merges@.len() <= token@.len(),
            final(self)@.vocab.len() - old(self)@.vocab.len() == final(self)@.next_id - old(self)@.next_id,
    {
        proof {
            self.vocab.lemma_size();
        }
        let ghost g = self@;
        if self.has_token(token) {
            let none: Vec<(String, String)> = Vec::new();
            assert(g.merges + pair_views(none@) =~= g.merges);
            return AdditionResult {
                token: String::from_str(token),
                added: false,
                method: String::from_str("already_exists"),
                added_merges: none,
            };
        }
        let n = char_len(token);
        if n == 1 {
            self.add_token_atomic(token);
            let none: Vec<(String, String)> = Vec::new();
            assert(g.merges + pair_views(none@) =~= g.merges);
            proof {
                self.vocab.lemma_size();
            }
            return AdditionResult {
                token: String::from_str(token),
                added: true,
                method: String::from_str("single_char"),
                added_merges: none,
            };
        }
        let k = self.find_longest_prefix(token, n);
        proof {
            lemma_longest_prefix(g.vocab, token@, n as nat);
            assert(token@.take(n as int) =~= token@);
        }
        let added_merges = if k > 0 {
            self.build_suffix_and_merge(prefix_of(token, k), suffix_of(token, k))
        } else {
            self.build_char_chain(token)
        };
        self.add_token_atomic(token);
        self.rebuild_indices();
        proof {
            self.vocab.lemma_size();
        }
        AdditionResult {
            token: String::from_str(token),
            added: true,
            method: if k > 0 {
                String::from_str("longest_prefix")
            } else {
                String::from_str("char_chain")
            },
            added_merges,
        }
    }

    /// Appends the merge of `a` and `b` to the list unless the list holds it.
    pub fn add_merge_if_missing(&mut self, a: &str, b: &str) -> (added: bool)
        requires
            old(self).wf(),
        ensures
            final(self).wf(),
            final(self)@ == with_merge(old(self)@, a@, b@),
            added == !old(self)@.merges.contains((a@, b@)),
            final(self).vocab == old(self).vocab,
            final(self).ids == old(self).ids,
    {
        if self.push_merge_if_missing(a, b) {
            self.rebuild_indices();
            true
        } else {
            false
        }
    }
}

} // verus!
