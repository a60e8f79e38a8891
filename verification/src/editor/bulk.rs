//! Operations on lists of tokens: each token of the list is added or
//! removed in turn.

use vstd::prelude::*;
use vstd::string::*;
use crate::editor::addition::{addition_method, with_added_token};
use crate::editor::batch::{
    addition_view, addition_views, lemma_total_chars_monotone, total_chars, victim, AdditionView,
};
use crate::editor::protection::{is_victim, lemma_victim_unique, protected_set};
use crate::editor::removal::{cascade_set, leaves, without_token};
use crate::editor::{BPETokenizerEditor, GraphView};
use crate::token_set::TokenSet;
use crate::types::{pair_views, token_views, AdditionResult, RemovalResult};

verus! {

/// A removal as strings: the token that was asked for, the tokens that
/// left with it, and the merges that left.
pub type RemovalView = (Seq<char>, Set<Seq<char>>, Seq<(Seq<char>, Seq<char>)>);

/// The strings of a removal.
pub open spec fn removal_view(r: RemovalResult) -> RemovalView {
    (r.root_token@, token_views(r.removed_tokens@).to_set(), pair_views(r.removed_merges@))
}

/// The strings of a list of removals.
pub open spec fn removal_views(l: Seq<RemovalResult>) -> Seq<RemovalView> {
    l.map_values(|r: RemovalResult| removal_view(r))
}

/// The graph after the first `k` tokens were added in turn.
pub open spec fn added_all(g: GraphView, tokens: Seq<Seq<char>>, k: nat) -> GraphView
    decreases k,
{
    if k == 0 {
        g
    } else {
        with_added_token(added_all(g, tokens, (k - 1) as nat), tokens[k - 1])
    }
}

/// What is reported of the addition of the first `k` tokens.
pub open spec fn addition_reports(g: GraphView, tokens: Seq<Seq<char>>, k: nat) -> Seq<AdditionView>
    decreases k,
{
    if k == 0 {
        Seq::empty()
    } else {
        let prev = added_all(g, tokens, (k - 1) as nat);
        let t = tokens[k - 1];
        addition_reports(g, tokens, (k - 1) as nat).push(
            (
                t,
                !prev.vocab.contains_key(t),
                addition_method(prev, t),
                with_added_token(prev, t).merges.skip(prev.merges.len() as int),
            ),
        )
    }
}

/// The graph after the first `k` tokens were removed in turn, each with
/// what was built from it. A token that is not in the vocabulary at its
/// turn is passed over.
pub open spec fn removed_all(g: GraphView, tokens: Seq<Seq<char>>, k: nat) -> GraphView
    decreases k,
{
    if k == 0 {
        g
    } else {
        let prev = removed_all(g, tokens, (k - 1) as nat);
        if prev.vocab.contains_key(tokens[k - 1]) {
            without_token(prev, tokens[k - 1])
        } else {
            prev
        }
    }
}

/// What is reported of the removal of the first `k` tokens.
pub open spec fn removal_reports(g: GraphView, tokens: Seq<Seq<char>>, k: nat) -> Seq<RemovalView>
    decreases k,
{
    if k == 0 {
        Seq::empty()
    } else {
        let prev = removed_all(g, tokens, (k - 1) as nat);
        let made = removal_reports(g, tokens, (k - 1) as nat);
        let t = tokens[k - 1];
        if prev.vocab.contains_key(t) {
            let gone = cascade_set(prev.merges, t);
            made.push((t, gone, prev.merges.filter(leaves(gone))))
        } else {
            made
        }
    }
}

/// The graph after a token was added and, where the vocabulary then had
/// more than `limit` tokens, the victim was evicted. The protected set is
/// that of the vocabulary after the addition: the tokens of `extra`, the
/// tokens of one character and the special tokens.
pub open spec fn with_one_out(
    g: GraphView,
    extra: Set<Seq<char>>,
    limit: nat,
    t: Seq<char>,
) -> GraphView {
    let grown = with_added_token(g, t);
    if grown.vocab.len() > limit {
        match victim(grown, protected_set(grown.vocab, extra)) {
            Some(v) => without_token(grown, v),
            None => grown,
        }
    } else {
        grown
    }
}

/// The graph after the first `k` tokens that it lacked were added, each
/// with at most one eviction.
pub open spec fn bounded_state(
    g: GraphView,
    extra: Set<Seq<char>>,
    limit: nat,
    tokens: Seq<Seq<char>>,
    k: nat,
) -> GraphView
    decreases k,
{
    if k == 0 {
        g
    } else {
        let prev = bounded_state(g, extra, limit, tokens, (k - 1) as nat);
        if prev.vocab.contains_key(tokens[k - 1]) {
            prev
        } else {
            with_one_out(prev, extra, limit, tokens[k - 1])
        }
    }
}

/// How many of the first `k` tokens were added (`evictions` is false), or
/// how many evictions their additions caused (`evictions` is true).
pub open spec fn bounded_count(
    g: GraphView,
    extra: Set<Seq<char>>,
    limit: nat,
    tokens: Seq<Seq<char>>,
    k: nat,
    evictions: bool,
) -> nat
    decreases k,
{
    if k == 0 {
        0
    } else {
        let prev = bounded_state(g, extra, limit, tokens, (k - 1) as nat);
        let t = tokens[k - 1];
        let grown = with_added_token(prev, t);
        bounded_count(g, extra, limit, tokens, (k - 1) as nat, evictions) + if prev.vocab.contains_key(
            t,
        ) {
            0nat
        } else if !evictions {
            1nat
        } else if grown.vocab.len() > limit && victim(grown, protected_set(grown.vocab, extra)) is Some {
            1nat
        } else {
            0nat
        }
    }
}

/// What a bounded batch of additions did.
#[derive(Debug, Clone)]
pub struct BoundedAddResult {
    pub initial_vocab_size: usize,
    pub final_vocab_size: usize,
    pub tokens_requested: usize,
    pub tokens_added: usize,
    pub tokens_removed: usize,
}

impl BPETokenizerEditor {
    /// Adds the tokens in turn, each as `add_token_with_merges` adds it.
    pub fn add_tokens(&mut self, tokens: &Vec<String>) -> (r: Vec<AdditionResult>)
        requires
            old(self).wf(),
            old(self)@.has_room(2 * total_chars(token_views(tokens@), tokens@.len())),
        ensures
            final(self).wf(),
            final(self)@ == added_all(old(self)@, token_views(tokens@), tokens@.len()),
            addition_views(r@) == addition_reports(old(self)@, token_views(tokens@), tokens@.len()),
    {
        let ghost g = self@;
        let ghost names = token_views(tokens@);
        let mut made: Vec<AdditionResult> = Vec::new();
        let mut i: usize = 0;
        assert(addition_views(made@) =~= Seq::empty());
        while i < tokens.len()
            invariant
                i <= tokens@.len(),
                names == token_views(tokens@),
                g.has_room(2 * total_chars(names, names.len())),
                self.wf(),
                self@ == added_all(g, names, i as nat),
                addition_views(made@) == addition_reports(g, names, i as nat),
                self@.next_id <= g.next_id + 2 * total_chars(names, i as nat),
            decreases tokens@.len() - i,
        {
            let token = tokens[i].as_str();
            let ghost prev = self@;
            let ghost listed = addition_views(made@);
            proof {
                assert(names[i as int] == token@);
                lemma_total_chars_monotone(names, (i + 1) as nat, names.len());
            }
            let added = self.add_token_with_merges(token);
            proof {
                assert(pair_views(added.added_merges@) =~= self@.merges.skip(
                    prev.merges.len() as int,
                ));
            }
            made.push(added);
            assert(addition_views(made@) =~= listed.push(addition_view(added)));
            i = i + 1;
        }
        made
    }

    /// Removes the tokens in turn, each with what was built from it, and
    /// passes over a token that is not in the vocabulary at its turn.
    pub fn remove_tokens(&mut self, tokens: &Vec<String>) -> (r: Vec<RemovalResult>)
        requires
            old(self).wf(),
        ensures
            final(self).wf(),
            final(self)@ == removed_all(old(self)@, token_views(tokens@), tokens@.len()),
            removal_views(r@) == removal_reports(old(self)@, token_views(tokens@), tokens@.len()),
    {
        let ghost g = self@;
        let ghost names = token_views(tokens@);
        let mut made: Vec<RemovalResult> = Vec::new();
        let mut i: usize = 0;
        assert(removal_views(made@) =~= Seq::empty());
        while i < tokens.len()
            invariant
                i <= tokens@.len(),
                names == token_views(tokens@),
                self.wf(),
                self@ == removed_all(g, names, i as nat),
                removal_views(made@) == removal_reports(g, names, i as nat),
            decreases tokens@.len() - i,
        {
            let token = tokens[i].as_str();
            assert(names[i as int] == token@);
            if self.has_token(token) {
                let ghost listed = removal_views(made@);
                let removal = self.remove_token_and_dependencies(token);
                made.push(removal);
                assert(removal_views(made@) =~= listed.push(removal_view(removal)));
            }
            i = i + 1;
        }
        made
    }

    /// Adds the tokens that the vocabulary lacks, and evicts the victim
    /// after an addition that left the vocabulary above its size: one
    /// eviction at most for each addition. Never chosen as a victim are the
    /// tokens of `whitelist`, the tokens of one character and the special
    /// tokens.
    pub fn add_tokens_bounded(&mut self, tokens: &Vec<String>, whitelist: &TokenSet) -> (r:
        BoundedAddResult)
        requires
            old(self).wf(),
            whitelist.wf(),
            old(self)@.has_room(2 * total_chars(token_views(tokens@), tokens@.len())),
        ensures
            final(self).wf(),
            ({
                let names = token_views(tokens@);
                let limit = old(self)@.vocab.len();
                &&& final(self)@ == bounded_state(old(self)@, whitelist@, limit, names, names.len())
                &&& r.tokens_added == bounded_count(
                    old(self)@,
                    whitelist@,
                    limit,
                    names,
                    names.len(),
                    false,
                )
                &&& r.tokens_removed == bounded_count(
                    old(self)@,
                    whitelist@,
                    limit,
                    names,
                    names.len(),
                    true,
                )
            }),
            r.initial_vocab_size == old(self)@.vocab.len(),
            r.final_vocab_size == final(self)@.vocab.len(),
            r.tokens_requested == tokens@.len(),
    {
        let ghost g = self@;
        let ghost names = token_views(tokens@);
        let ghost x = whitelist@;
        let initial_size = self.vocab_size();
        let ghost limit = g.vocab.len();
        let mut added: usize = 0;
        let mut removed: usize = 0;
        let mut i: usize = 0;
        while i < tokens.len()
            invariant
                i <= tokens@.len(),
                names == token_views(tokens@),
                x == whitelist@,
                limit == g.vocab.len(),
                initial_size == limit,
                g.has_room(2 * total_chars(names, names.len())),
                self.wf(),
                self@ == bounded_state(g, x, limit, names, i as nat),
                added == bounded_count(g, x, limit, names, i as nat, false),
                removed == bounded_count(g, x, limit, names, i as nat, true),
                added <= i,
                removed <= i,
                self@.next_id <= g.next_id + 2 * total_chars(names, i as nat),
            decreases tokens@.len() - i,
        {
            let token = tokens[i].as_str();
            proof {
                assert(names[i as int] == token@);
                lemma_total_chars_monotone(names, (i + 1) as nat, names.len());
            }
            if !self.has_token(token) {
                self.add_token_with_merges(token);
                added = added + 1;
                if self.vocab_size() > initial_size {
                    let ghost grown = self@;
                    let ghost p = protected_set(grown.vocab, x);
                    match self.select_victim(whitelist) {
                        Some(pair) => {
                            proof {
                                let c = choose|c: Seq<char>| is_victim(grown, p, c);
                                lemma_victim_unique(grown, p, c, pair.0@);
                            }
                            self.remove_token_and_dependencies(pair.0.as_str());
                            removed = removed + 1;
                        },
                        None => {},
                    }
                }
            }
            i = i + 1;
        }
        BoundedAddResult {
            initial_vocab_size: initial_size,
            final_vocab_size: self.vocab_size(),
            tokens_requested: tokens.len(),
            tokens_added: added,
            tokens_removed: removed,
        }
    }
}

} // verus!
