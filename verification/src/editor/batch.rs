//! Batch addition at a fixed vocabulary size: after each addition the
//! tokens that rank first for eviction leave until the size is back.

use vstd::prelude::*;
use vstd::string::*;
use crate::editor::addition::{addition_method, with_added_token};
use crate::editor::protection::{
    is_candidate, is_evictable, is_produced, is_victim, lemma_victim_unique, protected_set,
};
use crate::editor::removal::{cascade_set, leaves, without_token};
use crate::editor::{BPETokenizerEditor, GraphView};
use crate::text::{eviction_reason, is_special};
use crate::token_set::TokenSet;
use crate::types::{
    pair_views, token_views, AdditionResult, BatchAddResult, RemovalResult,
};

verus! {

/// An addition as strings: the token, whether it was added, the name of
/// the strategy, and the merges that were new.
pub type AdditionView = (Seq<char>, bool, Seq<char>, Seq<(Seq<char>, Seq<char>)>);

/// An eviction as strings: the token that was chosen, the tokens that left
/// with it, the merges that left, and the reason.
pub type EvictionView = (Seq<char>, Set<Seq<char>>, Seq<(Seq<char>, Seq<char>)>, Seq<char>);

/// The strings of an addition.
pub open spec fn addition_view(a: AdditionResult) -> AdditionView {
    (a.token@, a.added, a.method@, pair_views(a.added_merges@))
}

/// The strings of a list of additions.
pub open spec fn addition_views(l: Seq<AdditionResult>) -> Seq<AdditionView> {
    l.map_values(|a: AdditionResult| addition_view(a))
}

/// The strings of an eviction.
pub open spec fn eviction_view(e: (RemovalResult, String)) -> EvictionView {
    (e.0.root_token@, token_views(e.0.removed_tokens@).to_set(), pair_views(e.0.removed_merges@), e.1@)
}

/// The strings of a list of evictions.
pub open spec fn eviction_views(l: Seq<(RemovalResult, String)>) -> Seq<EvictionView> {
    l.map_values(|e: (RemovalResult, String)| eviction_view(e))
}

/// The candidate that is evicted first, if there is a candidate.
pub open spec fn victim(g: GraphView, protected: Set<Seq<char>>) -> Option<Seq<char>> {
    if exists|t: Seq<char>| is_victim(g, protected, t) {
        Some(choose|t: Seq<char>| is_victim(g, protected, t))
    } else {
        None
    }
}

/// What is recorded of the eviction of `t` from `g`.
pub open spec fn eviction_of(g: GraphView, t: Seq<char>) -> EvictionView {
    let gone = cascade_set(g.merges, t);
    (t, gone, g.merges.filter(leaves(gone)), eviction_reason(t.len(), is_produced(g.merges, t)))
}

/// The graph after victims were evicted until the vocabulary had at most
/// `limit` tokens or no candidate was left, in at most `fuel` rounds. In
/// each round the protected set is that of the vocabulary of the round:
/// the tokens of `extra`, the tokens of one character and the special tokens.
pub open spec fn evicted(g: GraphView, extra: Set<Seq<char>>, limit: nat, fuel: nat) -> GraphView
    decreases fuel,
{
    if fuel == 0 || g.vocab.len() <= limit {
        g
    } else {
        match victim(g, protected_set(g.vocab, extra)) {
            None => g,
            Some(t) => evicted(without_token(g, t), extra, limit, (fuel - 1) as nat),
        }
    }
}

/// The log after those evictions were recorded behind `log`.
pub open spec fn eviction_log(
    g: GraphView,
    extra: Set<Seq<char>>,
    limit: nat,
    fuel: nat,
    log: Seq<EvictionView>,
) -> Seq<EvictionView>
    decreases fuel,
{
    if fuel == 0 || g.vocab.len() <= limit {
        log
    } else {
        match victim(g, protected_set(g.vocab, extra)) {
            None => log,
            Some(t) => eviction_log(
                without_token(g, t),
                extra,
                limit,
                (fuel - 1) as nat,
                log.push(eviction_of(g, t)),
            ),
        }
    }
}

/// The tokens that left, over all evictions of a log.
pub open spec fn sum_evicted(log: Seq<EvictionView>) -> nat
    decreases log.len(),
{
    if log.len() == 0 {
        0
    } else {
        sum_evicted(log.drop_last()) + log.last().1.len()
    }
}

/// The merges that were new, over all additions of a list.
pub open spec fn sum_added_merges(l: Seq<AdditionView>) -> nat
    decreases l.len(),
{
    if l.len() == 0 {
        0
    } else {
        sum_added_merges(l.drop_last()) + l.last().3.len()
    }
}

/// The characters of the first `k` tokens, and one more for each token.
pub open spec fn total_chars(tokens: Seq<Seq<char>>, k: nat) -> nat
    decreases k,
{
    if k == 0 {
        0
    } else {
        total_chars(tokens, (k - 1) as nat) + tokens[k - 1].len() + 1
    }
}

/// The graph after the first `k` tokens of a batch were added at the
/// vocabulary size `limit`.
pub open spec fn batch_state(
    g: GraphView,
    extra: Set<Seq<char>>,
    limit: nat,
    tokens: Seq<Seq<char>>,
    k: nat,
) -> GraphView
    decreases k,
{
    if k == 0 {
        g
    } else {
        let prev = batch_state(g, extra, limit, tokens, (k - 1) as nat);
        let t = tokens[k - 1];
        if prev.vocab.contains_key(t) {
            prev
        } else {
            let grown = with_added_token(prev, t);
            evicted(grown, extra, limit, grown.vocab.len())
        }
    }
}

/// The additions that the first `k` tokens of a batch made.
pub open spec fn batch_additions(
    g: GraphView,
    extra: Set<Seq<char>>,
    limit: nat,
    tokens: Seq<Seq<char>>,
    k: nat,
) -> Seq<AdditionView>
    decreases k,
{
    if k == 0 {
        Seq::empty()
    } else {
        let prev = batch_state(g, extra, limit, tokens, (k - 1) as nat);
        let made = batch_additions(g, extra, limit, tokens, (k - 1) as nat);
        let t = tokens[k - 1];
        if prev.vocab.contains_key(t) {
            made
        } else {
            made.push(
                (
                    t,
                    true,
                    addition_method(prev, t),
                    with_added_token(prev, t).merges.skip(prev.merges.len() as int),
                ),
            )
        }
    }
}

/// The evictions that the first `k` tokens of a batch caused.
pub open spec fn batch_evictions(
    g: GraphView,
    extra: Set<Seq<char>>,
    limit: nat,
    tokens: Seq<Seq<char>>,
    k: nat,
) -> Seq<EvictionView>
    decreases k,
{
    if k == 0 {
        Seq::empty()
    } else {
        let prev = batch_state(g, extra, limit, tokens, (k - 1) as nat);
        let log = batch_evictions(g, extra, limit, tokens, (k - 1) as nat);
        let t = tokens[k - 1];
        if prev.vocab.contains_key(t) {
            log
        } else {
            let grown = with_added_token(prev, t);
            eviction_log(grown, extra, limit, grown.vocab.len(), log)
        }
    }
}

/// How many of the first `k` tokens of a batch were in the vocabulary at
/// their turn.
pub open spec fn batch_present(
    g: GraphView,
    extra: Set<Seq<char>>,
    limit: nat,
    tokens: Seq<Seq<char>>,
    k: nat,
) -> nat
    decreases k,
{
    if k == 0 {
        0
    } else {
        let prev = batch_state(g, extra, limit, tokens, (k - 1) as nat);
        batch_present(g, extra, limit, tokens, (k - 1) as nat) + if prev.vocab.contains_key(
            tokens[k - 1],
        ) {
            1nat
        } else {
            0nat
        }
    }
}

/// The tokens that a batch protects whatever the vocabulary holds: those
/// of the whitelist and those of the batch.
pub open spec fn batch_extra(whitelist: Set<Seq<char>>, tokens: Seq<Seq<char>>) -> Set<Seq<char>> {
    whitelist.union(tokens.to_set())
}

/// The evictions of the log from position `from` on chose tokens that may
/// be chosen.
pub open spec fn chose_evictable(extra: Set<Seq<char>>, log: Seq<EvictionView>, from: int) -> bool {
    forall|i: int| from <= i < log.len() ==> is_evictable(extra, (#[trigger] log[i]).0)
}

/// No eviction chooses a token of `extra`, a token of one character or a
/// special token: what the evictions record behind a log names only tokens
/// that may be chosen, and leaves the log as it was.
pub proof fn lemma_evictions_choose_evictable(
    g: GraphView,
    extra: Set<Seq<char>>,
    limit: nat,
    fuel: nat,
    log: Seq<EvictionView>,
)
    ensures
        eviction_log(g, extra, limit, fuel, log).len() >= log.len(),
        eviction_log(g, extra, limit, fuel, log).take(log.len() as int) == log,
        chose_evictable(extra, eviction_log(g, extra, limit, fuel, log), log.len() as int),
    decreases fuel,
{
    let p = protected_set(g.vocab, extra);
    if fuel > 0 && g.vocab.len() > limit && victim(g, p) is Some {
        let t = victim(g, p).unwrap();
        assert(is_victim(g, p, t));
        assert(is_candidate(g, p, t));
        let more = log.push(eviction_of(g, t));
        let all = eviction_log(without_token(g, t), extra, limit, (fuel - 1) as nat, more);
        lemma_evictions_choose_evictable(without_token(g, t), extra, limit, (fuel - 1) as nat, more);
        assert(all.take(log.len() as int) =~= all.take(more.len() as int).take(log.len() as int));
        assert(more.take(log.len() as int) =~= log);
        assert forall|i: int| log.len() <= i < all.len() implies is_evictable(
            extra,
            (#[trigger] all[i]).0,
        ) by {
            if i == log.len() {
                assert(all.take(more.len() as int)[i] == more[i]);
            }
        }
    } else {
        assert(log.take(log.len() as int) =~= log);
    }
}

/// The characters of a prefix of the batch are among those of the batch.
pub proof fn lemma_total_chars_monotone(tokens: Seq<Seq<char>>, j: nat, k: nat)
    requires
        j <= k,
    ensures
        total_chars(tokens, j) <= total_chars(tokens, k),
    decreases k,
{
    if j < k {
        lemma_total_chars_monotone(tokens, j, (k - 1) as nat);
    }
}

/// The victim that a scan found is the victim of the graph.
proof fn lemma_victim_found(g: GraphView, protected: Set<Seq<char>>, t: Seq<char>)
    requires
        is_victim(g, protected, t),
    ensures
        victim(g, protected) == Some(t),
{
    let c = choose|c: Seq<char>| is_victim(g, protected, c);
    lemma_victim_unique(g, protected, c, t);
}

/// Without a candidate there is no victim.
proof fn lemma_no_victim(g: GraphView, protected: Set<Seq<char>>)
    requires
        forall|t: Seq<char>| !is_candidate(g, protected, t),
    ensures
        victim(g, protected) is None,
{
}

impl BPETokenizerEditor {
    /// Adds the tokens one by one and keeps the vocabulary at its size:
    /// after each addition victims are evicted until the size is back or no
    /// candidate is left. Never chosen as a victim are the tokens of
    /// `whitelist`, the tokens of the batch, the tokens of one character and
    /// the special tokens, whether they were in the vocabulary before the
    /// batch or came with it.
    pub fn add_tokens_keep_size(&mut self, tokens: &Vec<String>, whitelist: &TokenSet) -> (r:
        BatchAddResult)
        requires
            old(self).wf(),
            whitelist.wf(),
            old(self)@.has_room(2 * total_chars(token_views(tokens@), tokens@.len())),
            old(self)@.vocab.len() + old(self)@.merges.len() + 3 * total_chars(
                token_views(tokens@),
                tokens@.len(),
            ) <= usize::MAX,
        ensures
            final(self).wf(),
            ({
                let names = token_views(tokens@);
                let x = batch_extra(whitelist@, names);
                let limit = old(self)@.vocab.len();
                &&& final(self)@ == batch_state(old(self)@, x, limit, names, names.len())
                &&& addition_views(r.additions@) == batch_additions(
                    old(self)@,
                    x,
                    limit,
                    names,
                    names.len(),
                )
                &&& eviction_views(r.removals@) == batch_evictions(
                    old(self)@,
                    x,
                    limit,
                    names,
                    names.len(),
                )
                &&& r.tokens_already_present == batch_present(
                    old(self)@,
                    x,
                    limit,
                    names,
                    names.len(),
                )
                &&& (final(self)@.vocab.len() <= limit || forall|t: Seq<char>|
                    !is_candidate(final(self)@, protected_set(final(self)@.vocab, x), t))
            }),
            forall|i: int|
                0 <= i < r.removals@.len() ==> (#[trigger] r.removals@[i]).0.root_token@.len() != 1
                    && !is_special(r.removals@[i].0.root_token@) && !whitelist@.contains(
                    r.removals@[i].0.root_token@,
                ) && !token_views(tokens@).contains(r.removals@[i].0.root_token@),
            r.initial_vocab_size == old(self)@.vocab.len(),
            r.final_vocab_size == final(self)@.vocab.len(),
            r.tokens_requested == tokens@.len(),
            r.tokens_added == r.additions@.len(),
            r.tokens_added + r.tokens_already_present == tokens@.len(),
            r.merges_added == sum_added_merges(addition_views(r.additions@)),
            r.tokens_removed == sum_evicted(eviction_views(r.removals@)),
    {
        let ghost g = self@;
        let ghost names = token_views(tokens@);
        let ghost total = total_chars(names, names.len());
        let initial_size = self.vocab_size();
        let n = tokens.len();
        let mut extra = whitelist.copy();
        let mut j: usize = 0;
        proof {
            crate::seqs::lemma_prefix_set_ends(names);
            assert(extra@.union(Set::empty()) =~= extra@);
        }
        while j < n
            invariant
                j <= n,
                n == tokens@.len(),
                names == token_views(tokens@),
                extra.wf(),
                extra@ == whitelist@.union(names.take(j as int).to_set()),
            decreases n - j,
        {
            proof {
                crate::seqs::lemma_prefix_set_step(names, j as int);
            }
            extra.insert(tokens[j].as_str());
            assert(extra@ =~= whitelist@.union(names.take(j + 1).to_set()));
            j = j + 1;
        }
        proof {
            crate::seqs::lemma_prefix_set_ends(names);
        }
        let ghost x = batch_extra(whitelist@, names);
        let ghost limit = g.vocab.len();
        let mut present: usize = 0;
        let mut tokens_added: usize = 0;
        let mut merges_added: usize = 0;
        let mut tokens_removed: usize = 0;
        let mut additions: Vec<AdditionResult> = Vec::new();
        let mut removals: Vec<(RemovalResult, String)> = Vec::new();
        let ghost mut removed_merges: nat = 0;
        let mut i: usize = 0;
        proof {
            assert(addition_views(additions@) =~= Seq::empty());
            assert(eviction_views(removals@) =~= Seq::empty());
        }
        while i < n
            invariant
                i <= n,
                n == tokens@.len(),
                names == token_views(tokens@),
                total == total_chars(names, names.len()),
                x == extra@,
                x == batch_extra(whitelist@, names),
                limit == g.vocab.len(),
                initial_size == limit,
                g.has_room(2 * total),
                g.vocab.len() + g.merges.len() + 3 * total <= usize::MAX,
                self.wf(),
                self@ == batch_state(g, x, limit, names, i as nat),
                addition_views(additions@) == batch_additions(g, x, limit, names, i as nat),
                eviction_views(removals@) == batch_evictions(g, x, limit, names, i as nat),
                chose_evictable(x, eviction_views(removals@), 0),
                present == batch_present(g, x, limit, names, i as nat),
                tokens_added == additions@.len(),
                tokens_added + present == i,
                merges_added == sum_added_merges(addition_views(additions@)),
                merges_added <= total_chars(names, i as nat),
                tokens_removed == sum_evicted(eviction_views(removals@)),
                self@.next_id <= g.next_id + 2 * total_chars(names, i as nat),
                self@.vocab.len() + removals@.len() <= g.vocab.len() + 2 * total_chars(
                    names,
                    i as nat,
                ),
                self@.merges.len() + removed_merges == g.merges.len() + merges_added,
                tokens_removed <= removals@.len() + removed_merges,
                self@.vocab.len() <= limit || forall|t: Seq<char>|
                    !is_candidate(self@, protected_set(self@.vocab, x), t),
            decreases n - i,
        {
            let token = tokens[i].as_str();
            proof {
                assert(names[i as int] == token@);
                lemma_total_chars_monotone(names, (i + 1) as nat, names.len());
            }
            if self.has_token(token) {
                present = present + 1;
            } else {
                let ghost prev = self@;
                let ghost made = addition_views(additions@);
                let added = self.add_token_with_merges(token);
                proof {
                    assert(pair_views(added.added_merges@) =~= self@.merges.skip(
                        prev.merges.len() as int,
                    ));
                }
                tokens_added = tokens_added + 1;
                merges_added = merges_added + added.added_merges.len();
                additions.push(added);
                proof {
                    assert(addition_views(additions@) =~= made.push(addition_view(added)));
                    assert(addition_views(additions@).drop_last() =~= made);
                }
                let merges_grown = self.merges_count();
                let ghost logged = eviction_views(removals@);
                let evicted_tokens = self.evict_to_size(&extra, initial_size, &mut removals);
                proof {
                    removed_merges = removed_merges + (merges_grown - self@.merges.len()) as nat;
                    let now = eviction_views(removals@);
                    assert forall|k: int| 0 <= k < now.len() implies is_evictable(
                        x,
                        (#[trigger] now[k]).0,
                    ) by {
                        if k < logged.len() {
                            assert(now.take(logged.len() as int)[k] == logged[k]);
                        }
                    }
                }
                tokens_removed = tokens_removed + evicted_tokens;
            }
            i = i + 1;
        }
        proof {
            let log = eviction_views(removals@);
            assert forall|k: int| 0 <= k < removals@.len() implies (#[trigger] removals@[k]).0.root_token@.len()
                != 1 && !is_special(removals@[k].0.root_token@) && !whitelist@.contains(
                removals@[k].0.root_token@,
            ) && !names.contains(removals@[k].0.root_token@) by {
                assert(is_evictable(x, log[k].0));
                assert(log[k].0 == removals@[k].0.root_token@);
            }
        }
        BatchAddResult {
            initial_vocab_size: initial_size,
            final_vocab_size: self.vocab_size(),
            tokens_requested: n,
            tokens_added,
            tokens_already_present: present,
            merges_added,
            tokens_removed,
            additions,
            removals,
        }
    }

    /// Evicts victims until the vocabulary has at most `limit` tokens or no
    /// candidate is left. In each round the victim is chosen as
    /// `select_victim` chooses it: never a token of `extra`, a token of one
    /// character or a special token. Each eviction is recorded behind `log`.
    /// Returns the number of tokens that left.
    pub fn evict_to_size(
        &mut self,
        extra: &TokenSet,
        limit: usize,
        log: &mut Vec<(RemovalResult, String)>,
    ) -> (count: usize)
        requires
            old(self).wf(),
            old(self)@.vocab.len() + old(self)@.merges.len() <= usize::MAX,
        ensures
            final(self).wf(),
            final(self)@ == evicted(old(self)@, extra@, limit as nat, old(self)@.vocab.len()),
            eviction_views(final(log)@) == eviction_log(
                old(self)@,
                extra@,
                limit as nat,
                old(self)@.vocab.len(),
                eviction_views(old(log)@),
            ),
            final(log)@.len() >= old(log)@.len(),
            eviction_views(final(log)@).take(old(log)@.len() as int) == eviction_views(old(log)@),
            chose_evictable(extra@, eviction_views(final(log)@), old(log)@.len() as int),
            count == sum_evicted(eviction_views(final(log)@)) - sum_evicted(
                eviction_views(old(log)@),
            ),
            final(self)@.vocab.len() + (final(log)@.len() - old(log)@.len()) <= old(self)@.vocab.len(),
            count <= (final(log)@.len() - old(log)@.len()) + (old(self)@.merges.len()
                - final(self)@.merges.len()),
            final(self)@.merges.len() <= old(self)@.merges.len(),
            final(self)@.next_id == old(self)@.next_id,
            final(self)@.vocab.len() <= limit || forall|t: Seq<char>|
                !is_candidate(final(self)@, protected_set(final(self)@.vocab, extra@), t),
    {
        let ghost g = self@;
        let ghost log0 = eviction_views(log@);
        let ghost before = log@.len();
        let ghost mut fuel: nat = g.vocab.len();
        let mut count: usize = 0;
        let mut stuck = false;
        proof {
            assert(log0.take(before as int) =~= log0);
        }
        while !stuck && self.vocab_size() > limit
            invariant
                self.wf(),
                g.vocab.len() + g.merges.len() <= usize::MAX,
                fuel >= self@.vocab.len(),
                before == log0.len(),
                evicted(self@, extra@, limit as nat, fuel) == evicted(
                    g,
                    extra@,
                    limit as nat,
                    g.vocab.len(),
                ),
                eviction_log(self@, extra@, limit as nat, fuel, eviction_views(log@))
                    == eviction_log(g, extra@, limit as nat, g.vocab.len(), log0),
                count == sum_evicted(eviction_views(log@)) - sum_evicted(log0),
                log@.len() >= before,
                eviction_views(log@).take(before as int) == log0,
                chose_evictable(extra@, eviction_views(log@), before as int),
                self@.vocab.len() + (log@.len() - before) <= g.vocab.len(),
                self@.merges.len() <= g.merges.len(),
                count <= (log@.len() - before) + (g.merges.len() - self@.merges.len()),
                self@.next_id == g.next_id,
                stuck ==> forall|t: Seq<char>|
                    !is_candidate(self@, protected_set(self@.vocab, extra@), t),
            decreases (if stuck { 0nat } else { 1nat }), self@.vocab.len(),
        {
            match self.select_victim(extra) {
                Some(pair) => {
                    let ghost now = self@;
                    let ghost listed = eviction_views(log@);
                    proof {
                        lemma_victim_found(now, protected_set(now.vocab, extra@), pair.0@);
                    }
                    let removal = self.remove_token_and_dependencies(pair.0.as_str());
                    count = count + removal.removed_tokens.len();
                    log.push((removal, pair.1));
                    proof {
                        let grown = eviction_views(log@);
                        assert(grown =~= listed.push(eviction_of(now, pair.0@)));
                        assert(grown.drop_last() =~= listed);
                        assert(grown.take(before as int) =~= listed.take(before as int));
                        assert forall|k: int| before <= k < grown.len() implies is_evictable(
                            extra@,
                            (#[trigger] grown[k]).0,
                        ) by {
                            if k < listed.len() {
                                assert(grown[k] == listed[k]);
                            }
                        }
                        fuel = (fuel - 1) as nat;
                    }
                },
                None => {
                    proof {
                        lemma_no_victim(self@, protected_set(self@.vocab, extra@));
                    }
                    stuck = true;
                },
            }
        }
        proof {
            if stuck {
                lemma_no_victim(self@, protected_set(self@.vocab, extra@));
            }
        }
        count
    }
}

} // verus!
