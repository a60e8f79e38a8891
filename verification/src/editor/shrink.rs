//! Shrinking: the longest tokens with the highest ids leave first.

use vstd::prelude::*;
use vstd::string::*;
use crate::editor::removal::{cascade_set, leaves, without_token};
use crate::editor::{BPETokenizerEditor, GraphView};
use crate::sorting::{ascending, key_le, lemma_sorted_keys, numbered, sort_keys, Key};
use crate::text::{char_len, is_special, is_special_token, lemma_lex_asymmetric, lex_lt};
use crate::types::{entry_views, info_views, InfoView, ShrinkResult, TokenRemovalInfo};
use crate::vocab::{entries_map, entry_index, lemma_entry_in_map, sorted_entries};

verus! {

/// A token with its id and its length in characters, as strings and numbers.
pub type CandidateView = (Seq<char>, u32, usize);

/// The strings, ids and lengths of a list of candidates.
pub open spec fn candidate_views(cands: Seq<(String, u32, usize)>) -> Seq<CandidateView> {
    cands.map_values(|c: (String, u32, usize)| (c.0@, c.1, c.2))
}

/// A token that shrinking may remove: its id is not below `min_id`, it has
/// more than one character, and it is not special.
pub open spec fn shrink_eligible(t: Seq<char>, id: u32, min_id: u32) -> bool {
    id >= min_id && t.len() > 1 && !is_special(t)
}

/// The first token leaves before the second: it is longer, or as long with
/// the higher id, or as long with the same id and first in the
/// lexicographic order.
pub open spec fn goes_before(a: Seq<char>, a_id: u32, b: Seq<char>, b_id: u32) -> bool {
    a.len() > b.len() || (a.len() == b.len() && (a_id > b_id || (a_id == b_id && lex_lt(a, b))))
}

/// The list names the token.
pub open spec fn lists_token(r: Seq<CandidateView>, t: Seq<char>) -> bool {
    exists|k: int| 0 <= k < r.len() && (#[trigger] r[k]).0 == t
}

/// Every candidate of the list leaves before the token.
pub open spec fn all_go_before(r: Seq<CandidateView>, t: Seq<char>, id: u32) -> bool {
    forall|k: int| 0 <= k < r.len() ==> goes_before((#[trigger] r[k]).0, r[k].1, t, id)
}

/// `r` lists the first `count` of the eligible tokens in the order in
/// which they leave, or all of them where they are fewer.
pub open spec fn is_shrink_selection(
    vocab: Map<Seq<char>, u32>,
    count: nat,
    min_id: u32,
    r: Seq<CandidateView>,
) -> bool {
    &&& r.len() <= count
    &&& forall|k: int|
        0 <= k < r.len() ==> vocab.contains_key((#[trigger] r[k]).0) && vocab[r[k].0] == r[k].1
            && r[k].2 == r[k].0.len() && shrink_eligible(r[k].0, r[k].1, min_id)
    &&& forall|j: int, k: int|
        0 <= j < k < r.len() ==> goes_before(
            (#[trigger] r[j]).0,
            r[j].1,
            (#[trigger] r[k]).0,
            r[k].1,
        )
    &&& forall|t: Seq<char>| #[trigger]
        vocab.contains_key(t) && shrink_eligible(t, vocab[t], min_id) ==> lists_token(r, t) || (
        r.len() == count && all_go_before(r, t, vocab[t]))
}

/// Of two tokens at most one leaves before the other.
pub proof fn lemma_goes_before_asymmetric(a: Seq<char>, a_id: u32, b: Seq<char>, b_id: u32)
    requires
        goes_before(a, a_id, b, b_id),
    ensures
        !goes_before(b, b_id, a, a_id),
{
    if lex_lt(a, b) {
        lemma_lex_asymmetric(a, b);
    }
}

/// Of two different tokens one leaves before the other.
pub proof fn lemma_goes_before_connected(a: Seq<char>, a_id: u32, b: Seq<char>, b_id: u32)
    requires
        a != b,
    ensures
        goes_before(a, a_id, b, b_id) || goes_before(b, b_id, a, a_id),
{
    crate::text::lemma_lex_connected(a, b);
}

/// Two selections agree on the positions that both have.
proof fn lemma_selections_agree(
    vocab: Map<Seq<char>, u32>,
    count: nat,
    min_id: u32,
    r1: Seq<CandidateView>,
    r2: Seq<CandidateView>,
    k: int,
)
    requires
        is_shrink_selection(vocab, count, min_id, r1),
        is_shrink_selection(vocab, count, min_id, r2),
        0 <= k <= r1.len(),
        k <= r2.len(),
    ensures
        forall|j: int| 0 <= j < k ==> r1[j] == r2[j],
    decreases k,
{
    if k > 0 {
        lemma_selections_agree(vocab, count, min_id, r1, r2, k - 1);
        let a = r1[k - 1];
        let b = r2[k - 1];
        assert(vocab.contains_key(a.0) && vocab.contains_key(b.0));
        if a.0 != b.0 {
            lemma_goes_before_connected(a.0, a.1, b.0, b.1);
            if goes_before(a.0, a.1, b.0, b.1) {
                lemma_misplaced(vocab, count, min_id, r1, r2, k - 1);
            } else {
                lemma_misplaced(vocab, count, min_id, r2, r1, k - 1);
            }
        }
    }
}

/// Where two selections agree before position `i`, the candidate of the
/// first at `i` does not leave before that of the second.
proof fn lemma_misplaced(
    vocab: Map<Seq<char>, u32>,
    count: nat,
    min_id: u32,
    r1: Seq<CandidateView>,
    r2: Seq<CandidateView>,
    i: int,
)
    requires
        is_shrink_selection(vocab, count, min_id, r1),
        is_shrink_selection(vocab, count, min_id, r2),
        0 <= i < r1.len(),
        i < r2.len(),
        forall|j: int| 0 <= j < i ==> r1[j] == r2[j],
        r1[i].0 != r2[i].0,
    ensures
        !goes_before(r1[i].0, r1[i].1, r2[i].0, r2[i].1),
{
    let a = r1[i];
    let b = r2[i];
    if goes_before(a.0, a.1, b.0, b.1) {
        lemma_goes_before_asymmetric(a.0, a.1, b.0, b.1);
        assert(vocab.contains_key(a.0) && shrink_eligible(a.0, vocab[a.0], min_id));
        if lists_token(r2, a.0) {
            let m = choose|m: int| 0 <= m < r2.len() && (#[trigger] r2[m]).0 == a.0;
            if m < i {
                assert(r1[m] == r2[m]);
                assert(goes_before(r1[m].0, r1[m].1, r1[i].0, r1[i].1));
                lemma_goes_before_asymmetric(r1[m].0, r1[m].1, r1[i].0, r1[i].1);
            } else if m > i {
                assert(goes_before(r2[i].0, r2[i].1, r2[m].0, r2[m].1));
                assert(r2[m].1 == vocab[a.0]);
            }
        } else {
            assert(all_go_before(r2, a.0, vocab[a.0]));
            assert(goes_before(r2[i].0, r2[i].1, a.0, vocab[a.0]));
        }
    }
}

/// The selection is determined: two lists that are selections of the same
/// vocabulary for the same count and smallest id are the same list.
pub proof fn lemma_shrink_selection_unique(
    vocab: Map<Seq<char>, u32>,
    count: nat,
    min_id: u32,
    r1: Seq<CandidateView>,
    r2: Seq<CandidateView>,
)
    requires
        is_shrink_selection(vocab, count, min_id, r1),
        is_shrink_selection(vocab, count, min_id, r2),
    ensures
        r1 == r2,
{
    let k = if r1.len() <= r2.len() {
        r1.len() as int
    } else {
        r2.len() as int
    };
    lemma_selections_agree(vocab, count, min_id, r1, r2, k);
    if r1.len() < r2.len() {
        lemma_longer_selection(vocab, count, min_id, r1, r2);
    } else if r2.len() < r1.len() {
        lemma_longer_selection(vocab, count, min_id, r2, r1);
    }
    assert(r1 =~= r2);
}

/// A selection that is a prefix of another one is as long.
proof fn lemma_longer_selection(
    vocab: Map<Seq<char>, u32>,
    count: nat,
    min_id: u32,
    r1: Seq<CandidateView>,
    r2: Seq<CandidateView>,
)
    requires
        is_shrink_selection(vocab, count, min_id, r1),
        is_shrink_selection(vocab, count, min_id, r2),
        r1.len() <= r2.len(),
        forall|j: int| 0 <= j < r1.len() ==> r1[j] == r2[j],
    ensures
        r1.len() == r2.len(),
{
    if r1.len() < r2.len() {
        let n = r1.len() as int;
        let t = r2[n].0;
        assert(vocab.contains_key(t) && shrink_eligible(t, vocab[t], min_id));
        if lists_token(r1, t) {
            let m = choose|m: int| 0 <= m < r1.len() && (#[trigger] r1[m]).0 == t;
            assert(r1[m] == r2[m]);
            assert(goes_before(r2[m].0, r2[m].1, r2[n].0, r2[n].1));
            lemma_goes_before_asymmetric(r2[m].0, r2[m].1, r2[n].0, r2[n].1);
        }
    }
}

/// The keys by which the entries are sorted for shrinking: an eligible
/// entry has its length and id counted down from the largest number, and
/// another one the largest number in the first place.
spec fn shrink_keys(es: Seq<(Seq<char>, u32)>, min_id: u32, keys: Seq<Key>) -> bool {
    &&& keys.len() == es.len()
    &&& forall|i: int|
        0 <= i < es.len() ==> (#[trigger] keys[i]).2 == i && es[i].0.len() <= usize::MAX && (
        if shrink_eligible(es[i].0, es[i].1, min_id) {
            keys[i].0 == usize::MAX - es[i].0.len() && keys[i].1 == u32::MAX - es[i].1
        } else {
            keys[i].0 == usize::MAX
        })
}

proof fn lemma_shrink_selection(
    es: Seq<(Seq<char>, u32)>,
    min_id: u32,
    keys: Seq<Key>,
    s: Seq<Key>,
    count: nat,
    r: Seq<CandidateView>,
)
    requires
        sorted_entries(es),
        shrink_keys(es, min_id, keys),
        s.to_multiset() == keys.to_multiset(),
        ascending(s),
        r.len() <= count,
        r.len() <= es.len(),
        forall|p: int|
            0 <= p < r.len() ==> (#[trigger] s[p]).0 != usize::MAX && s[p].2 < es.len() && r[p] == (
                es[s[p].2 as int].0,
                es[s[p].2 as int].1,
                (usize::MAX - s[p].0) as usize,
            ),
        r.len() == count || r.len() == es.len() || s[r.len() as int].0 == usize::MAX,
    ensures
        is_shrink_selection(entries_map(es), count, min_id, r),
{
    let vocab = entries_map(es);
    assert(numbered(keys));
    lemma_sorted_keys(keys, s);
    assert forall|k: int| 0 <= k < r.len() implies vocab.contains_key((#[trigger] r[k]).0)
        && vocab[r[k].0] == r[k].1 && r[k].2 == r[k].0.len() && shrink_eligible(
        r[k].0,
        r[k].1,
        min_id,
    ) by {
        let i = s[k].2 as int;
        assert(keys[i] == s[k]);
        lemma_entry_in_map(es, i);
    }
    assert forall|j: int, k: int| 0 <= j < k < r.len() implies goes_before(
        (#[trigger] r[j]).0,
        r[j].1,
        (#[trigger] r[k]).0,
        r[k].1,
    ) by {
        let a = s[j].2 as int;
        let b = s[k].2 as int;
        assert(keys[a] == s[j]);
        assert(keys[b] == s[k]);
        assert(key_le(s[j], s[k]));
        assert(s[j] != s[k]);
        if a < b {
            assert(lex_lt(es[a].0, es[b].0));
        }
    }
    assert forall|t: Seq<char>| #[trigger]
        vocab.contains_key(t) && shrink_eligible(t, vocab[t], min_id) implies lists_token(r, t) || (
    r.len() == count && all_go_before(r, t, vocab[t])) by {
        let i = entry_index(es, t);
        lemma_entry_in_map(es, i);
        assert(s.contains(keys[i]));
        let p = choose|p: int| 0 <= p < s.len() && s[p] == keys[i];
        if p < r.len() {
            assert(r[p].0 == t);
        } else {
            if r.len() < s.len() && s[r.len() as int].0 == usize::MAX {
                if r.len() < p {
                    assert(key_le(s[r.len() as int], s[p]));
                }
                assert(s[p].0 == usize::MAX);
            }
            assert forall|k: int| 0 <= k < r.len() implies goes_before(
                (#[trigger] r[k]).0,
                r[k].1,
                t,
                vocab[t],
            ) by {
                let a = s[k].2 as int;
                assert(keys[a] == s[k]);
                assert(key_le(s[k], s[p]));
                assert(s[k] != s[p]);
                if a < i {
                    assert(lex_lt(es[a].0, es[i].0));
                }
            }
        }
    }
}

/// The graph after the first `k` candidates were removed in turn, each with
/// what was built from it. A candidate that has left the vocabulary by its
/// turn is passed over.
pub open spec fn removal_steps(g: GraphView, cands: Seq<CandidateView>, k: nat) -> GraphView
    decreases k,
{
    if k == 0 {
        g
    } else {
        let prev = removal_steps(g, cands, (k - 1) as nat);
        if prev.vocab.contains_key(cands[k - 1].0) {
            without_token(prev, cands[k - 1].0)
        } else {
            prev
        }
    }
}

/// What is reported of the removal of the first `k` candidates: for each
/// that was in the vocabulary at its turn its token, id and length, the
/// number of tokens that left with it, itself counted, and the number of
/// merges that left.
pub open spec fn removal_infos(g: GraphView, cands: Seq<CandidateView>, k: nat) -> Seq<InfoView>
    decreases k,
{
    if k == 0 {
        Seq::empty()
    } else {
        let prev = removal_steps(g, cands, (k - 1) as nat);
        let infos = removal_infos(g, cands, (k - 1) as nat);
        let c = cands[k - 1];
        if prev.vocab.contains_key(c.0) {
            let gone = cascade_set(prev.merges, c.0);
            infos.push(
                (c.0, c.1, c.2, gone.len() as usize, prev.merges.filter(leaves(gone)).len() as usize),
            )
        } else {
            infos
        }
    }
}

/// The tokens that left, over all reports.
pub open spec fn sum_cascade(infos: Seq<InfoView>) -> nat
    decreases infos.len(),
{
    if infos.len() == 0 {
        0
    } else {
        sum_cascade(infos.drop_last()) + infos.last().3 as nat
    }
}

/// The merges that left, over all reports.
pub open spec fn sum_merges(infos: Seq<InfoView>) -> nat
    decreases infos.len(),
{
    if infos.len() == 0 {
        0
    } else {
        sum_merges(infos.drop_last()) + infos.last().4 as nat
    }
}

/// What shrinking by `count` makes of a graph, and what it reports, where
/// `cands` are the tokens that were chosen.
pub open spec fn shrink_outcome(
    before: GraphView,
    count: usize,
    min_id: u32,
    cands: Seq<CandidateView>,
    after: GraphView,
    r: ShrinkResult,
) -> bool {
    &&& is_shrink_selection(before.vocab, count as nat, min_id, cands)
    &&& after == removal_steps(before, cands, cands.len())
    &&& r.tokens_found == cands.len()
    &&& info_views(r.tokens_removed@) == removal_infos(before, cands, cands.len())
}

/// The test for an entry whose token has between `min_len` and `max_len`
/// characters.
pub open spec fn length_within(min_len: usize, max_len: usize) -> spec_fn((Seq<char>, u32)) -> bool {
    |e: (Seq<char>, u32)| min_len <= e.0.len() <= max_len
}

impl BPETokenizerEditor {
    /// The tokens to remove when the vocabulary is to shrink by `count`:
    /// of the tokens with an id of at least `min_id` that have more than one
    /// character and are not special, the longest, and of those as long the
    /// ones with the highest ids. Each comes with its id and its length.
    pub fn find_tokens_to_shrink(&self, count: usize, min_id: u32) -> (r: Vec<(String, u32, usize)>)
        requires
            self.vocab.wf(),
        ensures
            is_shrink_selection(self@.vocab, count as nat, min_id, candidate_views(r@)),
            r@.len() <= self@.vocab.len(),
    {
        let ghost es = self.vocab.entries();
        let n = self.vocab.len();
        let mut keys: Vec<Key> = Vec::new();
        let mut i: usize = 0;
        while i < n
            invariant
                i <= n,
                n == es.len(),
                es == self.vocab.entries(),
                keys@.len() == i,
                forall|j: int|
                    0 <= j < i ==> (#[trigger] keys@[j]).2 == j && es[j].0.len() <= usize::MAX && (
                    if shrink_eligible(es[j].0, es[j].1, min_id) {
                        keys@[j].0 == usize::MAX - es[j].0.len() && keys@[j].1 == u32::MAX - es[j].1
                    } else {
                        keys@[j].0 == usize::MAX
                    }),
            decreases n - i,
        {
            let token = self.vocab.token_at(i);
            let id = self.vocab.id_at(i);
            let len = char_len(token);
            if id >= min_id && len > 1 && !is_special_token(token) {
                keys.push((usize::MAX - len, u32::MAX - id, i));
            } else {
                keys.push((usize::MAX, 0, i));
            }
            i = i + 1;
        }
        let ghost unsorted = keys@;
        sort_keys(&mut keys);
        proof {
            assert(numbered(unsorted));
            lemma_sorted_keys(unsorted, keys@);
        }
        let mut found: Vec<(String, u32, usize)> = Vec::new();
        let mut p: usize = 0;
        while p < n && p < count && keys[p].0 != usize::MAX
            invariant
                p <= n,
                p <= count,
                n == es.len(),
                n == keys@.len(),
                es == self.vocab.entries(),
                forall|q: int| 0 <= q < n ==> (#[trigger] keys@[q]).2 < n,
                found@.len() == p,
                forall|q: int|
                    0 <= q < p ==> (#[trigger] keys@[q]).0 != usize::MAX && candidate_views(
                        found@,
                    )[q] == (
                        es[keys@[q].2 as int].0,
                        es[keys@[q].2 as int].1,
                        (usize::MAX - keys@[q].0) as usize,
                    ),
            decreases n - p,
        {
            let at = keys[p].2;
            let ghost listed = candidate_views(found@);
            found.push(
                (String::from_str(self.vocab.token_at(at)), self.vocab.id_at(at), usize::MAX - keys[p].0),
            );
            proof {
                assert(candidate_views(found@) =~= listed.push(
                    (es[at as int].0, es[at as int].1, (usize::MAX - keys@[p as int].0) as usize),
                ));
            }
            p = p + 1;
        }
        proof {
            lemma_shrink_selection(es, min_id, unsorted, keys@, count as nat, candidate_views(found@));
            self.vocab.lemma_size();
        }
        found
    }

    /// Removes the candidates in turn, each with what was built from it,
    /// and passes over one that has left the vocabulary by its turn. Returns
    /// the reports, the number of tokens that left and the number of merges
    /// that left.
    pub fn remove_candidates(&mut self, cands: &Vec<(String, u32, usize)>) -> (r: (
        Vec<TokenRemovalInfo>,
        usize,
        usize,
    ))
        requires
            old(self).wf(),
            cands@.len() + old(self)@.merges.len() <= usize::MAX,
        ensures
            final(self).wf(),
            final(self)@ == removal_steps(old(self)@, candidate_views(cands@), cands@.len()),
            info_views(r.0@) == removal_infos(old(self)@, candidate_views(cands@), cands@.len()),
            r.1 == sum_cascade(info_views(r.0@)),
            r.2 == sum_merges(info_views(r.0@)),
            r.2 + final(self)@.merges.len() == old(self)@.merges.len(),
            r.0@.len() <= cands@.len(),
            final(self)@.vocab.len() <= old(self)@.vocab.len(),
            final(self)@.next_id == old(self)@.next_id,
    {
        let ghost g = self@;
        let ghost cv = candidate_views(cands@);
        let mut infos: Vec<TokenRemovalInfo> = Vec::new();
        let mut total_tokens: usize = 0;
        let mut total_merges: usize = 0;
        let mut i: usize = 0;
        assert(info_views(infos@) =~= Seq::empty());
        while i < cands.len()
            invariant
                i <= cands@.len(),
                cv == candidate_views(cands@),
                cands@.len() + g.merges.len() <= usize::MAX,
                self.wf(),
                self@ == removal_steps(g, cv, i as nat),
                info_views(infos@) == removal_infos(g, cv, i as nat),
                total_tokens == sum_cascade(info_views(infos@)),
                total_merges == sum_merges(info_views(infos@)),
                total_merges + self@.merges.len() == g.merges.len(),
                total_tokens <= i + total_merges,
                infos@.len() <= i,
                self@.vocab.len() <= g.vocab.len(),
                self@.next_id == g.next_id,
            decreases cands@.len() - i,
        {
            let token = cands[i].0.as_str();
            assert(cv[i as int] == (cands@[i as int].0@, cands@[i as int].1, cands@[i as int].2));
            if self.has_token(token) {
                let removal = self.remove_token_and_dependencies(token);
                let ghost listed = info_views(infos@);
                let info = TokenRemovalInfo {
                    token: String::from_str(token),
                    id: cands[i].1,
                    length: cands[i].2,
                    cascade_tokens_removed: removal.removed_tokens.len(),
                    merges_removed: removal.removed_merges.len(),
                };
                total_tokens = total_tokens + removal.removed_tokens.len();
                total_merges = total_merges + removal.removed_merges.len();
                infos.push(info);
                proof {
                    assert(info_views(infos@) =~= listed.push(crate::types::info_view(info)));
                    assert(info_views(infos@).drop_last() =~= listed);
                }
            }
            i = i + 1;
        }
        (infos, total_tokens, total_merges)
    }

    /// Shrinks the vocabulary by removing up to `count` tokens, chosen as
    /// `find_tokens_to_shrink` chooses them, each with what was built from it.
    pub fn shrink_vocab(&mut self, count: usize, min_id: u32) -> (r: ShrinkResult)
        requires
            old(self).wf(),
            old(self)@.vocab.len() + old(self)@.merges.len() <= usize::MAX,
        ensures
            final(self).wf(),
            exists|cands: Seq<CandidateView>| #[trigger]
                shrink_outcome(old(self)@, count, min_id, cands, final(self)@, r),
            r.initial_vocab_size == old(self)@.vocab.len(),
            r.initial_merges_count == old(self)@.merges.len(),
            r.final_vocab_size == final(self)@.vocab.len(),
            r.final_merges_count == final(self)@.merges.len(),
            r.tokens_requested == count,
            r.total_tokens_removed == sum_cascade(info_views(r.tokens_removed@)),
            r.total_merges_removed == sum_merges(info_views(r.tokens_removed@)),
    {
        let cands = self.find_tokens_to_shrink(count, min_id);
        let initial_vocab_size = self.vocab_size();
        let initial_merges_count = self.merges_count();
        let (tokens_removed, total_tokens_removed, total_merges_removed) = self.remove_candidates(
            &cands,
        );
        let r = ShrinkResult {
            initial_vocab_size,
            initial_merges_count,
            final_vocab_size: self.vocab_size(),
            final_merges_count: self.merges_count(),
            tokens_requested: count,
            tokens_found: cands.len(),
            tokens_removed,
            total_tokens_removed,
            total_merges_removed,
        };
        assert(shrink_outcome(old(self)@, count, min_id, candidate_views(cands@), self@, r));
        r
    }

    /// The tokens that have between `min_len` and `max_len` characters, with
    /// their ids, in the order of the vocabulary.
    pub fn get_tokens_by_length(&self, min_len: usize, max_len: usize) -> (r: Vec<(String, u32)>)
        ensures
            entry_views(r@) == self.vocab.entries().filter(length_within(min_len, max_len)),
    {
        let ghost es = self.vocab.entries();
        let ghost test = length_within(min_len, max_len);
        let n = self.vocab.len();
        let mut found: Vec<(String, u32)> = Vec::new();
        let mut i: usize = 0;
        proof {
            crate::seqs::lemma_filter_start(es, test);
            assert(entry_views(found@) =~= Seq::empty());
        }
        while i < n
            invariant
                i <= n,
                n == es.len(),
                es == self.vocab.entries(),
                test == length_within(min_len, max_len),
                entry_views(found@) == es.take(i as int).filter(test),
            decreases n - i,
        {
            let token = self.vocab.token_at(i);
            let len = char_len(token);
            proof {
                crate::seqs::lemma_filter_step(es, test, i as int);
            }
            if min_len <= len && len <= max_len {
                let ghost listed = entry_views(found@);
                found.push((String::from_str(token), self.vocab.id_at(i)));
                assert(entry_views(found@) =~= listed.push(es[i as int]));
            }
            i = i + 1;
        }
        proof {
            crate::seqs::lemma_filter_start(es, test);
        }
        found
    }

    /// The tokens of one character, with their ids, in the order of the vocabulary.
    pub fn get_single_char_tokens(&self) -> (r: Vec<(String, u32)>)
        ensures
            entry_views(r@) == self.vocab.entries().filter(length_within(1, 1)),
    {
        self.get_tokens_by_length(1, 1)
    }
}

} // verus!
