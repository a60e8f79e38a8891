//! What every operation on a graph keeps: the ids of the vocabulary stay
//! unique and below the allocator's cursor.

use vstd::prelude::*;
use crate::editor::addition::{
    chain_demand, chain_step, chain_upto, id_demand, with_added_token, with_char_chain,
    with_suffix_merge,
};
use crate::editor::batch::{batch_state, evicted, victim};
use crate::editor::bulk::{added_all, bounded_state, removed_all, with_one_out};
use crate::editor::protection::protected_set;
use crate::editor::reindex::{dense, reindex_of};
use crate::editor::removal::without_token;
use crate::editor::shrink::{removal_steps, CandidateView};
use crate::editor::sync::{with_short_token, with_short_tokens, with_tokens};
use crate::editor::validation::{is_valid_merge, repaired};
use crate::editor::{with_merge, with_token, GraphView};

verus! {

/// No two tokens have the same id, and every id lies below the cursor.
pub open spec fn ids_in_order(g: GraphView) -> bool {
    &&& forall|t: Seq<char>| #[trigger] g.vocab.contains_key(t) ==> g.vocab[t] < g.next_id
    &&& forall|s: Seq<char>, t: Seq<char>|
        #![trigger g.vocab[s], g.vocab[t]]
        g.vocab.contains_key(s) && g.vocab.contains_key(t) && s != t ==> g.vocab[s] != g.vocab[t]
    &&& g.next_id <= u32::MAX + 1
}

/// A token that is put into the vocabulary gets an id that no token has.
pub proof fn lemma_with_token_keeps_ids(g: GraphView, t: Seq<char>)
    requires
        ids_in_order(g),
        g.vocab.contains_key(t) || g.has_room(1),
    ensures
        ids_in_order(with_token(g, t)),
{
}

/// The character chain of a token keeps the ids in order.
pub proof fn lemma_chain_keeps_ids(g: GraphView, t: Seq<char>, k: nat)
    requires
        ids_in_order(g),
        g.has_room(chain_demand(t.take(k as int))),
        k <= t.len(),
    ensures
        ids_in_order(chain_upto(g, t, k)),
        chain_upto(g, t, k).next_id <= g.next_id + chain_demand(t.take(k as int)),
        k >= 1 ==> chain_upto(g, t, k).vocab.contains_key(t.take(k as int)),
    decreases k,
{
    assert(t.take(k as int).len() == k);
    if k > 1 {
        assert(t.take(k - 1).len() == k - 1);
    }
    if k == 1 {
        lemma_with_token_keeps_ids(g, t.take(1));
    } else if k > 1 {
        let i = (k - 1) as int;
        let s = chain_upto(g, t, (k - 1) as nat);
        lemma_chain_keeps_ids(g, t, (k - 1) as nat);
        let ch = t.subrange(i, i + 1);
        let s1 = with_token(s, ch);
        lemma_with_token_keeps_ids(s, ch);
        let s2 = with_merge(s1, t.take(i), ch);
        lemma_with_token_keeps_ids(s2, t.take(i + 1));
    }
}

/// The addition of a token keeps the ids in order.
pub proof fn lemma_addition_keeps_ids(g: GraphView, t: Seq<char>)
    requires
        ids_in_order(g),
        g.vocab.contains_key(t) || g.has_room(id_demand(t)),
    ensures
        ids_in_order(with_added_token(g, t)),
        with_added_token(g, t).next_id <= g.next_id + id_demand(t),
{
    assert(t.take(t.len() as int) =~= t);
    if !g.vocab.contains_key(t) {
        if t.len() == 1 {
            lemma_with_token_keeps_ids(g, t);
        } else {
            let k = crate::editor::addition::longest_prefix(g.vocab, t, t.len());
            crate::editor::addition::lemma_longest_prefix(g.vocab, t, t.len());
            if k > 0 {
                let suffix = t.skip(k as int);
                let built = if g.vocab.contains_key(suffix) {
                    g
                } else {
                    with_char_chain(g, suffix)
                };
                assert(suffix.take(suffix.len() as int) =~= suffix);
                if !g.vocab.contains_key(suffix) {
                    lemma_chain_keeps_ids(g, suffix, suffix.len());
                }
                let merged = with_merge(built, t.take(k as int), suffix);
                assert(merged == with_suffix_merge(g, t.take(k as int), suffix));
                lemma_with_token_keeps_ids(merged, t);
            } else {
                lemma_chain_keeps_ids(g, t, t.len());
                lemma_with_token_keeps_ids(with_char_chain(g, t), t);
            }
        }
    }
}

/// `after` holds what `before` holds: each token of `before` with its id,
/// the merges of `before` at the head of its list, and every further token
/// under an id that was not handed out in `before`.
pub open spec fn extends(before: GraphView, after: GraphView) -> bool {
    &&& forall|t: Seq<char>| #[trigger]
        before.vocab.contains_key(t) ==> after.vocab.contains_key(t) && after.vocab[t]
            == before.vocab[t]
    &&& forall|t: Seq<char>| #[trigger]
        after.vocab.contains_key(t) && !before.vocab.contains_key(t) ==> before.next_id
            <= after.vocab[t] < after.next_id
    &&& before.merges.len() <= after.merges.len()
    &&& after.merges.take(before.merges.len() as int) == before.merges
    &&& before.next_id <= after.next_id
}

/// Every merge of the list produces a token of the vocabulary.
pub open spec fn all_valid(g: GraphView) -> bool {
    forall|i: int| 0 <= i < g.merges.len() ==> #[trigger] is_valid_merge(g, i)
}

/// What extends an extension of a graph extends the graph.
pub proof fn lemma_extends_transitive(a: GraphView, b: GraphView, c: GraphView)
    requires
        extends(a, b),
        extends(b, c),
    ensures
        extends(a, c),
{
    assert(c.merges.take(a.merges.len() as int) =~= c.merges.take(b.merges.len() as int).take(
        a.merges.len() as int,
    ));
    assert forall|t: Seq<char>| #[trigger]
        c.vocab.contains_key(t) && !a.vocab.contains_key(t) implies a.next_id <= c.vocab[t]
        < c.next_id by {
        if b.vocab.contains_key(t) {
            assert(c.vocab[t] == b.vocab[t]);
        }
    }
}

proof fn lemma_with_token_extends(g: GraphView, t: Seq<char>)
    requires
        g.has_room(1) || g.vocab.contains_key(t),
    ensures
        extends(g, with_token(g, t)),
{
    assert(g.merges.take(g.merges.len() as int) =~= g.merges);
}

proof fn lemma_with_merge_extends(g: GraphView, a: Seq<char>, b: Seq<char>)
    ensures
        extends(g, with_merge(g, a, b)),
{
    assert(with_merge(g, a, b).merges.take(g.merges.len() as int) =~= g.merges);
}

proof fn lemma_chain_step_extends(g: GraphView, t: Seq<char>, k: int)
    requires
        g.has_room(2),
        1 <= k < t.len(),
    ensures
        extends(g, chain_step(g, t, k)),
        all_valid(g) ==> all_valid(chain_step(g, t, k)),
{
    let ch = t.subrange(k, k + 1);
    let s1 = with_token(g, ch);
    let s2 = with_merge(s1, t.take(k), ch);
    let s3 = with_token(s2, t.take(k + 1));
    lemma_with_token_extends(g, ch);
    lemma_with_merge_extends(s1, t.take(k), ch);
    lemma_with_token_extends(s2, t.take(k + 1));
    lemma_extends_transitive(g, s1, s2);
    lemma_extends_transitive(g, s2, s3);
    if all_valid(g) {
        assert(t.take(k) + ch =~= t.take(k + 1));
        assert forall|i: int| 0 <= i < s3.merges.len() implies #[trigger] is_valid_merge(s3, i) by {
            if i < g.merges.len() {
                assert(is_valid_merge(g, i));
                assert(s3.merges.take(g.merges.len() as int)[i] == g.merges[i]);
            }
        }
    }
}

/// The character chain of a token extends the graph, and leaves every
/// merge valid where every merge was.
pub proof fn lemma_chain_extends(g: GraphView, t: Seq<char>, k: nat)
    requires
        g.has_room(chain_demand(t.take(k as int))),
        k <= t.len(),
    ensures
        extends(g, chain_upto(g, t, k)),
        all_valid(g) ==> all_valid(chain_upto(g, t, k)),
        chain_upto(g, t, k).next_id <= g.next_id + chain_demand(t.take(k as int)),
        k >= 1 ==> chain_upto(g, t, k).vocab.contains_key(t.take(k as int)),
    decreases k,
{
    assert(t.take(k as int).len() == k);
    if k > 1 {
        assert(t.take(k - 1).len() == k - 1);
    }
    if k == 0 {
        assert(g.merges.take(g.merges.len() as int) =~= g.merges);
    } else if k == 1 {
        lemma_with_token_extends(g, t.take(1));
        let a = with_token(g, t.take(1));
        if all_valid(g) {
            assert forall|i: int| 0 <= i < a.merges.len() implies #[trigger] is_valid_merge(a, i) by {
                assert(is_valid_merge(g, i));
            }
        }
    } else {
        let s = chain_upto(g, t, (k - 1) as nat);
        lemma_chain_extends(g, t, (k - 1) as nat);
        lemma_chain_step_extends(s, t, k - 1);
        lemma_extends_transitive(g, s, chain_step(s, t, k - 1));
    }
}

/// The addition of a token extends the graph and puts the token into the
/// vocabulary, and leaves every merge valid where every merge was.
pub proof fn lemma_addition_extends(g: GraphView, t: Seq<char>)
    requires
        g.vocab.contains_key(t) || g.has_room(id_demand(t)),
    ensures
        extends(g, with_added_token(g, t)),
        with_added_token(g, t).vocab.contains_key(t),
        all_valid(g) ==> all_valid(with_added_token(g, t)),
{
    let a = with_added_token(g, t);
    assert(t.take(t.len() as int) =~= t);
    if g.vocab.contains_key(t) {
        assert(g.merges.take(g.merges.len() as int) =~= g.merges);
    } else if t.len() == 1 {
        lemma_with_token_extends(g, t);
        if all_valid(g) {
            assert forall|i: int| 0 <= i < a.merges.len() implies #[trigger] is_valid_merge(a, i) by {
                assert(is_valid_merge(g, i));
            }
        }
    } else {
        let k = crate::editor::addition::longest_prefix(g.vocab, t, t.len());
        crate::editor::addition::lemma_longest_prefix(g.vocab, t, t.len());
        if k > 0 {
            let prefix = t.take(k as int);
            let suffix = t.skip(k as int);
            let built = if g.vocab.contains_key(suffix) {
                g
            } else {
                with_char_chain(g, suffix)
            };
            assert(suffix.take(suffix.len() as int) =~= suffix);
            if g.vocab.contains_key(suffix) {
                assert(g.merges.take(g.merges.len() as int) =~= g.merges);
            } else {
                lemma_chain_extends(g, suffix, suffix.len());
            }
            let merged = with_merge(built, prefix, suffix);
            lemma_with_merge_extends(built, prefix, suffix);
            lemma_with_token_extends(merged, t);
            lemma_extends_transitive(g, built, merged);
            lemma_extends_transitive(g, merged, a);
            if all_valid(g) {
                assert(prefix + suffix =~= t);
                assert forall|i: int| 0 <= i < a.merges.len() implies #[trigger] is_valid_merge(
                    a,
                    i,
                ) by {
                    if i < built.merges.len() {
                        assert(is_valid_merge(built, i));
                        assert(a.merges.take(built.merges.len() as int)[i] == built.merges[i]);
                    }
                }
            }
        } else {
            let built = with_char_chain(g, t);
            lemma_chain_extends(g, t, t.len());
            lemma_with_token_extends(built, t);
            lemma_extends_transitive(g, built, a);
            if all_valid(g) {
                assert forall|i: int| 0 <= i < a.merges.len() implies #[trigger] is_valid_merge(
                    a,
                    i,
                ) by {
                    assert(is_valid_merge(built, i));
                }
            }
        }
    }
}

/// A cascade removal leaves every merge valid where every merge was.
pub proof fn lemma_removal_keeps_validity(g: GraphView, root: Seq<char>)
    requires
        all_valid(g),
    ensures
        all_valid(without_token(g, root)),
{
    let a = without_token(g, root);
    let gone = crate::editor::removal::cascade_set(g.merges, root);
    crate::seqs::lemma_filter_kept(g.merges, crate::editor::removal::stays(gone));
    assert forall|i: int| 0 <= i < a.merges.len() implies #[trigger] is_valid_merge(a, i) by {
        let m = a.merges[i];
        assert(g.merges.contains(m));
        let j = choose|j: int| 0 <= j < g.merges.len() && g.merges[j] == m;
        assert(is_valid_merge(g, j));
        assert(!crate::editor::removal::touches(m, gone));
    }
}

/// A cascade removal keeps the ids in order.
pub proof fn lemma_removal_keeps_ids(g: GraphView, root: Seq<char>)
    requires
        ids_in_order(g),
    ensures
        ids_in_order(without_token(g, root)),
        without_token(g, root).next_id == g.next_id,
{
}

/// A repair keeps the ids in order.
pub proof fn lemma_repair_keeps_ids(g: GraphView)
    requires
        ids_in_order(g),
    ensures
        ids_in_order(repaired(g)),
{
}

/// Reindexing keeps the ids in order, and leaves them in order where they were not.
pub proof fn lemma_reindex_keeps_ids(g: GraphView, after: GraphView)
    requires
        reindex_of(g, after),
        ids_in_order(g) || !dense(g.vocab),
        g.vocab.dom().finite(),
    ensures
        ids_in_order(after),
{
    if !dense(g.vocab) {
        crate::editor::reindex::lemma_unique_ids_bound(after.vocab);
    }
}

/// The removal of candidates in turn keeps the ids in order.
pub proof fn lemma_removal_steps_keep_ids(g: GraphView, cands: Seq<CandidateView>, k: nat)
    requires
        ids_in_order(g),
    ensures
        ids_in_order(removal_steps(g, cands, k)),
        removal_steps(g, cands, k).next_id == g.next_id,
    decreases k,
{
    if k > 0 {
        lemma_removal_steps_keep_ids(g, cands, (k - 1) as nat);
        lemma_removal_keeps_ids(removal_steps(g, cands, (k - 1) as nat), cands[k - 1].0);
    }
}

/// The removal of tokens in turn keeps the ids in order.
pub proof fn lemma_removed_all_keeps_ids(g: GraphView, tokens: Seq<Seq<char>>, k: nat)
    requires
        ids_in_order(g),
    ensures
        ids_in_order(removed_all(g, tokens, k)),
    decreases k,
{
    if k > 0 {
        lemma_removed_all_keeps_ids(g, tokens, (k - 1) as nat);
        lemma_removal_keeps_ids(removed_all(g, tokens, (k - 1) as nat), tokens[k - 1]);
    }
}

/// Evictions keep the ids in order.
pub proof fn lemma_eviction_keeps_ids(
    g: GraphView,
    extra: Set<Seq<char>>,
    limit: nat,
    fuel: nat,
)
    requires
        ids_in_order(g),
    ensures
        ids_in_order(evicted(g, extra, limit, fuel)),
        evicted(g, extra, limit, fuel).next_id == g.next_id,
    decreases fuel,
{
    if fuel > 0 && g.vocab.len() > limit {
        match victim(g, protected_set(g.vocab, extra)) {
            Some(t) => {
                lemma_removal_keeps_ids(g, t);
                lemma_eviction_keeps_ids(without_token(g, t), extra, limit, (fuel - 1) as nat);
            },
            None => {},
        }
    }
}

/// The ids that the first `k` tokens of a list need at most.
pub open spec fn ids_for(tokens: Seq<Seq<char>>, k: nat) -> nat
    decreases k,
{
    if k == 0 {
        0
    } else {
        ids_for(tokens, (k - 1) as nat) + 2 * tokens[k - 1].len() + 1
    }
}

/// A batch of additions at a fixed size keeps the ids in order.
pub proof fn lemma_batch_keeps_ids(
    g: GraphView,
    extra: Set<Seq<char>>,
    limit: nat,
    tokens: Seq<Seq<char>>,
    k: nat,
)
    requires
        ids_in_order(g),
        g.has_room(ids_for(tokens, k)),
    ensures
        ids_in_order(batch_state(g, extra, limit, tokens, k)),
        batch_state(g, extra, limit, tokens, k).next_id <= g.next_id + ids_for(tokens, k),
    decreases k,
{
    if k > 0 {
        let prev = batch_state(g, extra, limit, tokens, (k - 1) as nat);
        lemma_batch_keeps_ids(g, extra, limit, tokens, (k - 1) as nat);
        let t = tokens[k - 1];
        if !prev.vocab.contains_key(t) {
            lemma_addition_keeps_ids(prev, t);
            let grown = with_added_token(prev, t);
            lemma_eviction_keeps_ids(grown, extra, limit, grown.vocab.len());
        }
    }
}

/// Additions in turn keep the ids in order.
pub proof fn lemma_added_all_keeps_ids(g: GraphView, tokens: Seq<Seq<char>>, k: nat)
    requires
        ids_in_order(g),
        g.has_room(ids_for(tokens, k)),
    ensures
        ids_in_order(added_all(g, tokens, k)),
        added_all(g, tokens, k).next_id <= g.next_id + ids_for(tokens, k),
    decreases k,
{
    if k > 0 {
        lemma_added_all_keeps_ids(g, tokens, (k - 1) as nat);
        lemma_addition_keeps_ids(added_all(g, tokens, (k - 1) as nat), tokens[k - 1]);
    }
}

/// Additions with one eviction each keep the ids in order.
pub proof fn lemma_bounded_keeps_ids(
    g: GraphView,
    extra: Set<Seq<char>>,
    limit: nat,
    tokens: Seq<Seq<char>>,
    k: nat,
)
    requires
        ids_in_order(g),
        g.has_room(ids_for(tokens, k)),
    ensures
        ids_in_order(bounded_state(g, extra, limit, tokens, k)),
        bounded_state(g, extra, limit, tokens, k).next_id <= g.next_id + ids_for(tokens, k),
    decreases k,
{
    if k > 0 {
        let prev = bounded_state(g, extra, limit, tokens, (k - 1) as nat);
        lemma_bounded_keeps_ids(g, extra, limit, tokens, (k - 1) as nat);
        let t = tokens[k - 1];
        if !prev.vocab.contains_key(t) {
            lemma_addition_keeps_ids(prev, t);
            let grown = with_added_token(prev, t);
            if grown.vocab.len() > limit {
                match victim(grown, protected_set(grown.vocab, extra)) {
                    Some(v) => {
                        lemma_removal_keeps_ids(grown, v);
                    },
                    None => {},
                }
            }
            assert(bounded_state(g, extra, limit, tokens, k) == with_one_out(
                prev,
                extra,
                limit,
                t,
            ));
        }
    }
}

/// Tokens that are put into the vocabulary in turn keep the ids in order.
pub proof fn lemma_with_tokens_keeps_ids(g: GraphView, entries: Seq<(Seq<char>, u32)>, k: nat)
    requires
        ids_in_order(g),
        g.has_room(k),
    ensures
        ids_in_order(with_tokens(g, entries, k)),
        with_tokens(g, entries, k).next_id <= g.next_id + k,
    decreases k,
{
    if k > 0 {
        lemma_with_tokens_keeps_ids(g, entries, (k - 1) as nat);
        lemma_with_token_keeps_ids(with_tokens(g, entries, (k - 1) as nat), entries[k - 1].0);
    }
}

/// The copy of a short token keeps the ids in order.
pub proof fn lemma_short_token_keeps_ids(
    g: GraphView,
    sm: Seq<(Seq<char>, Seq<char>)>,
    t: Seq<char>,
)
    requires
        ids_in_order(g),
        g.has_room(3),
    ensures
        ids_in_order(with_short_token(g, sm, t)),
        with_short_token(g, sm, t).next_id <= g.next_id + 3,
{
    match crate::editor::sync::last_producer(sm, t, sm.len()) {
        Some(i) => {
            lemma_with_token_keeps_ids(g, sm[i].0);
            let a = with_token(g, sm[i].0);
            lemma_with_token_keeps_ids(a, sm[i].1);
            let b = with_merge(with_token(a, sm[i].1), sm[i].0, sm[i].1);
            lemma_with_token_keeps_ids(b, t);
        },
        None => {
            lemma_with_token_keeps_ids(g, t);
        },
    }
}

/// Short tokens that are copied in turn keep the ids in order.
pub proof fn lemma_short_tokens_keep_ids(
    g: GraphView,
    sm: Seq<(Seq<char>, Seq<char>)>,
    entries: Seq<(Seq<char>, u32)>,
    k: nat,
)
    requires
        ids_in_order(g),
        g.has_room(3 * k),
    ensures
        ids_in_order(with_short_tokens(g, sm, entries, k)),
        with_short_tokens(g, sm, entries, k).next_id <= g.next_id + 3 * k,
    decreases k,
{
    if k > 0 {
        lemma_short_tokens_keep_ids(g, sm, entries, (k - 1) as nat);
        lemma_short_token_keeps_ids(
            with_short_tokens(g, sm, entries, (k - 1) as nat),
            sm,
            entries[k - 1].0,
        );
    }
}

} // verus!
