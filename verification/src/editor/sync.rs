//! Synchronisation: tokens of a source vocabulary that the vocabulary lacks
//! are copied into it, after as many tokens were removed to make room.

use vstd::prelude::*;
use vstd::string::*;
use vstd::hash_map::StringHashMap;
use crate::editor::reindex::reindex_of;
use crate::editor::shrink::{
    candidate_views, is_shrink_selection, length_within, removal_infos, removal_steps,
    sum_cascade, sum_merges, CandidateView,
};
use crate::editor::{with_merge, with_token, BPETokenizerEditor, GraphView};
use crate::index::produces;
use crate::text::{char_len, joined};
use crate::types::{
    entry_views, info_views, pair_views, CharAddInfo, InfoView, ShortTokenAddInfo, SyncCharsResult,
    SyncShortTokensResult,
};

verus! {

/// The test for an entry whose token the vocabulary lacks.
pub open spec fn absent_from(vocab: Map<Seq<char>, u32>) -> spec_fn((Seq<char>, u32)) -> bool {
    |e: (Seq<char>, u32)| !vocab.contains_key(e.0)
}

/// The graph after the tokens of the first `k` entries were put into the
/// vocabulary in turn.
pub open spec fn with_tokens(g: GraphView, entries: Seq<(Seq<char>, u32)>, k: nat) -> GraphView
    decreases k,
{
    if k == 0 {
        g
    } else {
        with_token(with_tokens(g, entries, (k - 1) as nat), entries[k - 1].0)
    }
}

/// The strings and ids of a list of copied characters.
pub open spec fn char_add_views(l: Seq<CharAddInfo>) -> Seq<(Seq<char>, u32)> {
    l.map_values(|c: CharAddInfo| (c.char_token@, c.source_id))
}

/// The strings, ids and lengths of a list of copied tokens.
pub open spec fn short_add_views(l: Seq<ShortTokenAddInfo>) -> Seq<(Seq<char>, u32, usize)> {
    l.map_values(|c: ShortTokenAddInfo| (c.token@, c.source_id, c.length))
}

/// What the synchronisation of single characters makes of a graph, where
/// `cands` are the tokens that were chosen to make room.
pub open spec fn sync_chars_outcome(
    before: GraphView,
    source: Seq<(Seq<char>, u32)>,
    min_id: u32,
    cands: Seq<CandidateView>,
    after: GraphView,
    infos: Seq<InfoView>,
) -> bool {
    let to_add = source.filter(absent_from(before.vocab));
    let room = removal_steps(before, cands, cands.len());
    &&& is_shrink_selection(before.vocab, to_add.len(), min_id, cands)
    &&& infos == removal_infos(before, cands, cands.len())
    &&& reindex_of(with_tokens(room, to_add, to_add.len()), after)
}

/// The index of the last of the first `k` source merges that produces the
/// token, if one does.
pub open spec fn last_producer(sm: Seq<(Seq<char>, Seq<char>)>, t: Seq<char>, k: nat) -> Option<int>
    decreases k,
{
    if k == 0 {
        None
    } else if sm[k - 1].0 + sm[k - 1].1 == t {
        Some(k - 1)
    } else {
        last_producer(sm, t, (k - 1) as nat)
    }
}

/// The graph after a short token was copied: where a source merge produces
/// it, the operands of the merge are made tokens and the merge joins the
/// list; then the token is made a token.
pub open spec fn with_short_token(
    g: GraphView,
    sm: Seq<(Seq<char>, Seq<char>)>,
    t: Seq<char>,
) -> GraphView {
    match last_producer(sm, t, sm.len()) {
        Some(i) => with_token(
            with_merge(with_token(with_token(g, sm[i].0), sm[i].1), sm[i].0, sm[i].1),
            t,
        ),
        None => with_token(g, t),
    }
}

/// The graph after the tokens of the first `k` entries were copied in turn.
pub open spec fn with_short_tokens(
    g: GraphView,
    sm: Seq<(Seq<char>, Seq<char>)>,
    entries: Seq<(Seq<char>, u32)>,
    k: nat,
) -> GraphView
    decreases k,
{
    if k == 0 {
        g
    } else {
        with_short_token(with_short_tokens(g, sm, entries, (k - 1) as nat), sm, entries[k - 1].0)
    }
}

/// Whether the copy of the token into the graph finds a source merge for
/// it, and whether that merge is new to the list.
pub open spec fn merge_is_new(g: GraphView, sm: Seq<(Seq<char>, Seq<char>)>, t: Seq<char>) -> Option<
    bool,
> {
    match last_producer(sm, t, sm.len()) {
        Some(i) => Some(!g.merges.contains(sm[i])),
        None => None,
    }
}

/// How many of the first `k` copies brought a new merge (`new` is true), or
/// found their merge in the list (`new` is false).
pub open spec fn count_merges(
    g: GraphView,
    sm: Seq<(Seq<char>, Seq<char>)>,
    entries: Seq<(Seq<char>, u32)>,
    k: nat,
    new: bool,
) -> nat
    decreases k,
{
    if k == 0 {
        0
    } else {
        let prev = with_short_tokens(g, sm, entries, (k - 1) as nat);
        count_merges(g, sm, entries, (k - 1) as nat, new) + if merge_is_new(
            prev,
            sm,
            entries[k - 1].0,
        ) == Some(new) {
            1nat
        } else {
            0nat
        }
    }
}

/// The copied tokens as they are reported: each with its source id and its length.
pub open spec fn short_reports(entries: Seq<(Seq<char>, u32)>) -> Seq<(Seq<char>, u32, usize)> {
    entries.map_values(|e: (Seq<char>, u32)| (e.0, e.1, e.0.len() as usize))
}

/// What the synchronisation of short tokens makes of a graph, where
/// `to_add` are the source tokens that are copied and `cands` the tokens
/// that were chosen to make room.
pub open spec fn sync_short_outcome(
    before: GraphView,
    to_add: Seq<(Seq<char>, u32)>,
    sm: Seq<(Seq<char>, Seq<char>)>,
    min_id: u32,
    cands: Seq<CandidateView>,
    after: GraphView,
    r: SyncShortTokensResult,
) -> bool {
    let room = removal_steps(before, cands, cands.len());
    &&& is_shrink_selection(before.vocab, to_add.len(), min_id, cands)
    &&& info_views(r.tokens_removed@) == removal_infos(before, cands, cands.len())
    &&& reindex_of(with_short_tokens(room, sm, to_add, to_add.len()), after)
    &&& r.merges_added == count_merges(room, sm, to_add, to_add.len(), true)
    &&& r.merges_already_present == count_merges(room, sm, to_add, to_add.len(), false)
}

/// The source tokens that a synchronisation of short tokens copies: those
/// that have between `min_len` and `max_len` characters and that the
/// vocabulary lacks.
pub open spec fn short_tokens_to_add(
    vocab: Map<Seq<char>, u32>,
    source: Seq<(Seq<char>, u32)>,
    min_len: usize,
    max_len: usize,
) -> Seq<(Seq<char>, u32)> {
    source.filter(length_within(min_len, max_len)).filter(absent_from(vocab))
}

/// The entries of a list whose tokens have between `min_len` and `max_len`
/// characters, in their order.
pub fn entries_of_length(entries: &Vec<(String, u32)>, min_len: usize, max_len: usize) -> (r: Vec<
    (String, u32),
>)
    ensures
        entry_views(r@) == entry_views(entries@).filter(length_within(min_len, max_len)),
        r@.len() <= entries@.len(),
{
    let ghost ev = entry_views(entries@);
    let ghost test = length_within(min_len, max_len);
    let mut found: Vec<(String, u32)> = Vec::new();
    let mut i: usize = 0;
    proof {
        crate::seqs::lemma_filter_start(ev, test);
        assert(entry_views(found@) =~= Seq::empty());
    }
    while i < entries.len()
        invariant
            i <= entries@.len(),
            ev == entry_views(entries@),
            test == length_within(min_len, max_len),
            entry_views(found@) == ev.take(i as int).filter(test),
            found@.len() <= i,
        decreases entries@.len() - i,
    {
        proof {
            crate::seqs::lemma_filter_step(ev, test, i as int);
        }
        let len = char_len(entries[i].0.as_str());
        if min_len <= len && len <= max_len {
            let ghost listed = entry_views(found@);
            found.push((entries[i].0.clone(), entries[i].1));
            assert(entry_views(found@) =~= listed.push(ev[i as int]));
        }
        i = i + 1;
    }
    proof {
        crate::seqs::lemma_filter_start(ev, test);
    }
    found
}

/// What a map from production to merge index holds of the first `k` source merges.
spec fn maps_last_producers(
    map: Map<Seq<char>, usize>,
    sm: Seq<(Seq<char>, Seq<char>)>,
    k: nat,
) -> bool {
    forall|t: Seq<char>|
        #![trigger map.contains_key(t)]
        #![trigger last_producer(sm, t, k)]
        match last_producer(sm, t, k) {
            Some(i) => map.contains_key(t) && map[t] == i && 0 <= i < k,
            None => !map.contains_key(t),
        }
}

/// For each token the last of the source merges that produces it.
fn index_source_merges(source_merges: &Vec<(String, String)>) -> (map: StringHashMap<usize>)
    ensures
        maps_last_producers(map@, pair_views(source_merges@), source_merges@.len()),
{
    let ghost sm = pair_views(source_merges@);
    let mut map: StringHashMap<usize> = StringHashMap::new();
    let mut i: usize = 0;
    while i < source_merges.len()
        invariant
            i <= source_merges@.len(),
            sm == pair_views(source_merges@),
            maps_last_producers(map@, sm, i as nat),
        decreases source_merges@.len() - i,
    {
        let product = joined(source_merges[i].0.as_str(), source_merges[i].1.as_str());
        let ghost before = map@;
        assert(sm[i as int] == (source_merges@[i as int].0@, source_merges@[i as int].1@));
        map.insert(product, i);
        proof {
            assert forall|t: Seq<char>|
                #![trigger map@.contains_key(t)]
                #![trigger last_producer(sm, t, (i + 1) as nat)]
                match last_producer(sm, t, (i + 1) as nat) {
                    Some(j) => map@.contains_key(t) && map@[t] == j && 0 <= j < i + 1,
                    None => !map@.contains_key(t),
                } by {
                if sm[i as int].0 + sm[i as int].1 != t {
                    assert(last_producer(sm, t, (i + 1) as nat) == last_producer(sm, t, i as nat));
                    assert(before.contains_key(t) == map@.contains_key(t));
                }
            }
        }
        i = i + 1;
    }
    map
}

impl BPETokenizerEditor {
    /// Copies one short token: where a source merge produces it, the
    /// operands of the merge are made tokens and the merge joins the list
    /// unless the list holds it; then the token is made a token. Returns
    /// whether a merge was found, and whether it was new.
    fn copy_short_token(
        &mut self,
        token: &str,
        source_merges: &Vec<(String, String)>,
        map: &StringHashMap<usize>,
    ) -> (found: Option<bool>)
        requires
            old(self).wf(),
            old(self)@.has_room(3),
            maps_last_producers(map@, pair_views(source_merges@), source_merges@.len()),
        ensures
            final(self).wf(),
            final(self)@ == with_short_token(old(self)@, pair_views(source_merges@), token@),
            found == merge_is_new(old(self)@, pair_views(source_merges@), token@),
            final(self)@.next_id <= old(self)@.next_id + 3,
            final(self).vocab.entries().len() <= old(self).vocab.entries().len() + 3,
    {
        let ghost sm = pair_views(source_merges@);
        let found = match map.get(token) {
            Some(at) => {
                let at: usize = *at;
                assert(last_producer(sm, token@, sm.len()) == Some(at as int));
                assert(sm[at as int] == (source_merges@[at as int].0@, source_merges@[at as int].1@));
                let a = source_merges[at].0.as_str();
                let b = source_merges[at].1.as_str();
                self.add_token_atomic(a);
                self.add_token_atomic(b);
                Some(self.add_merge_if_missing(a, b))
            },
            None => {
                assert(last_producer(sm, token@, sm.len()) is None);
                None
            },
        };
        self.add_token_atomic(token);
        found
    }

    /// Copies the tokens of a source vocabulary that have between `min_len`
    /// and `max_len` characters and that the vocabulary lacks, each with the
    /// source merge that produces it. As many tokens are removed first,
    /// chosen as `find_tokens_to_shrink` chooses them, as tokens are to come;
    /// then the tokens are added and the vocabulary is reindexed.
    pub fn sync_short_tokens(
        &mut self,
        source_tokens: &Vec<(String, u32)>,
        source_merges: &Vec<(String, String)>,
        min_len: usize,
        max_len: usize,
        min_id: u32,
    ) -> (r: SyncShortTokensResult)
        requires
            old(self).wf(),
            old(self)@.vocab.len() + old(self)@.merges.len() <= usize::MAX,
            old(self)@.has_room(
                3 * short_tokens_to_add(
                    old(self)@.vocab,
                    entry_views(source_tokens@),
                    min_len,
                    max_len,
                ).len(),
            ),
            old(self)@.vocab.len() + 3 * short_tokens_to_add(
                old(self)@.vocab,
                entry_views(source_tokens@),
                min_len,
                max_len,
            ).len() <= u32::MAX + 1,
        ensures
            final(self).wf(),
            ({
                let in_range = entry_views(source_tokens@).filter(length_within(min_len, max_len));
                let to_add = in_range.filter(absent_from(old(self)@.vocab));
                &&& r.tokens_in_source == in_range.len()
                &&& short_add_views(r.tokens_added@) == short_reports(to_add)
                &&& r.tokens_already_present == in_range.len() - to_add.len()
                &&& to_add.len() == 0 ==> final(self)@ == old(self)@ && r.tokens_removed@.len() == 0
                    && r.merges_added == 0 && r.merges_already_present == 0
                &&& to_add.len() > 0 ==> exists|cands: Seq<CandidateView>| #[trigger]
                    sync_short_outcome(
                        old(self)@,
                        to_add,
                        pair_views(source_merges@),
                        min_id,
                        cands,
                        final(self)@,
                        r,
                    )
            }),
            r.initial_vocab_size == old(self)@.vocab.len(),
            r.initial_merges_count == old(self)@.merges.len(),
            r.final_vocab_size == final(self)@.vocab.len(),
            r.final_merges_count == final(self)@.merges.len(),
            r.total_tokens_removed == sum_cascade(info_views(r.tokens_removed@)),
            r.total_merges_removed == sum_merges(info_views(r.tokens_removed@)),
    {
        let ghost g = self@;
        let ghost sm = pair_views(source_merges@);
        let initial_vocab_size = self.vocab_size();
        let initial_merges_count = self.merges_count();
        let in_range = entries_of_length(source_tokens, min_len, max_len);
        let to_add = self.missing_entries(&in_range);
        let ghost adds = entry_views(to_add@);
        let total_to_add = to_add.len();
        if total_to_add == 0 {
            let tokens_added: Vec<ShortTokenAddInfo> = Vec::new();
            let tokens_removed: Vec<crate::types::TokenRemovalInfo> = Vec::new();
            assert(short_add_views(tokens_added@) =~= short_reports(adds));
            assert(info_views(tokens_removed@) =~= Seq::empty());
            return SyncShortTokensResult {
                initial_vocab_size,
                initial_merges_count,
                final_vocab_size: initial_vocab_size,
                final_merges_count: initial_merges_count,
                tokens_in_source: in_range.len(),
                tokens_already_present: in_range.len(),
                tokens_added,
                merges_added: 0,
                merges_already_present: 0,
                tokens_removed,
                total_tokens_removed: 0,
                total_merges_removed: 0,
            };
        }
        let map = index_source_merges(source_merges);
        let cands = self.find_tokens_to_shrink(total_to_add, min_id);
        let (tokens_removed, total_tokens_removed, total_merges_removed) = self.remove_candidates(
            &cands,
        );
        let ghost room = self@;
        let mut tokens_added: Vec<ShortTokenAddInfo> = Vec::new();
        let mut merges_added: usize = 0;
        let mut merges_already_present: usize = 0;
        let mut i: usize = 0;
        proof {
            assert(short_add_views(tokens_added@) =~= short_reports(adds).take(0));
            self.vocab.lemma_size();
        }
        while i < total_to_add
            invariant
                i <= total_to_add,
                total_to_add == to_add@.len(),
                adds == entry_views(to_add@),
                sm == pair_views(source_merges@),
                maps_last_producers(map@, sm, source_merges@.len()),
                self.wf(),
                self@ == with_short_tokens(room, sm, adds, i as nat),
                self@.next_id <= room.next_id + 3 * i,
                room.has_room(3 * adds.len()),
                self.vocab.entries().len() <= room.vocab.len() + 3 * i,
                short_add_views(tokens_added@) == short_reports(adds).take(i as int),
                merges_added == count_merges(room, sm, adds, i as nat, true),
                merges_already_present == count_merges(room, sm, adds, i as nat, false),
                merges_added <= i,
                merges_already_present <= i,
            decreases total_to_add - i,
        {
            let token = to_add[i].0.as_str();
            assert(adds[i as int] == (to_add@[i as int].0@, to_add@[i as int].1));
            match self.copy_short_token(token, source_merges, &map) {
                Some(new) => {
                    if new {
                        merges_added = merges_added + 1;
                    } else {
                        merges_already_present = merges_already_present + 1;
                    }
                },
                None => {},
            }
            let ghost listed = short_add_views(tokens_added@);
            tokens_added.push(
                ShortTokenAddInfo {
                    token: String::from_str(token),
                    source_id: to_add[i].1,
                    length: char_len(token),
                },
            );
            proof {
                assert(short_add_views(tokens_added@) =~= listed.push(short_reports(adds)[i as int]));
                assert(short_reports(adds).take(i + 1) =~= short_reports(adds).take(i as int).push(
                    short_reports(adds)[i as int],
                ));
            }
            i = i + 1;
        }
        proof {
            assert(short_reports(adds).take(total_to_add as int) =~= short_reports(adds));
            self.vocab.lemma_size();
        }
        self.reindex_vocab();
        let r = SyncShortTokensResult {
            initial_vocab_size,
            initial_merges_count,
            final_vocab_size: self.vocab_size(),
            final_merges_count: self.merges_count(),
            tokens_in_source: in_range.len(),
            tokens_already_present: in_range.len() - total_to_add,
            tokens_added,
            merges_added,
            merges_already_present,
            tokens_removed,
            total_tokens_removed,
            total_merges_removed,
        };
        proof {
            assert(sync_short_outcome(
                g,
                adds,
                sm,
                min_id,
                candidate_views(cands@),
                self@,
                r,
            ));
        }
        r
    }

    /// The entries of `source` whose tokens the vocabulary lacks, in their order.
    pub fn missing_entries(&self, source: &Vec<(String, u32)>) -> (r: Vec<(String, u32)>)
        requires
            self.vocab.wf(),
        ensures
            entry_views(r@) == entry_views(source@).filter(absent_from(self@.vocab)),
            r@.len() <= source@.len(),
    {
        let ghost sv = entry_views(source@);
        let ghost test = absent_from(self@.vocab);
        let mut found: Vec<(String, u32)> = Vec::new();
        let mut i: usize = 0;
        proof {
            crate::seqs::lemma_filter_start(sv, test);
            assert(entry_views(found@) =~= Seq::empty());
        }
        while i < source.len()
            invariant
                i <= source@.len(),
                sv == entry_views(source@),
                test == absent_from(self@.vocab),
                self.vocab.wf(),
                entry_views(found@) == sv.take(i as int).filter(test),
                found@.len() <= i,
            decreases source@.len() - i,
        {
            proof {
                crate::seqs::lemma_filter_step(sv, test, i as int);
            }
            if !self.has_token(source[i].0.as_str()) {
                let ghost listed = entry_views(found@);
                found.push((source[i].0.clone(), source[i].1));
                assert(entry_views(found@) =~= listed.push(sv[i as int]));
            }
            i = i + 1;
        }
        proof {
            crate::seqs::lemma_filter_start(sv, test);
        }
        found
    }

    /// Copies the single-character tokens of a source vocabulary that the
    /// vocabulary lacks. As many tokens are removed first, chosen as
    /// `find_tokens_to_shrink` chooses them, as characters are to come; then
    /// the characters are added and the vocabulary is reindexed.
    pub fn sync_single_chars(&mut self, source_chars: &Vec<(String, u32)>, min_id: u32) -> (r:
        SyncCharsResult)
        requires
            old(self).wf(),
            old(self)@.vocab.len() + old(self)@.merges.len() <= usize::MAX,
            old(self)@.has_room(
                entry_views(source_chars@).filter(absent_from(old(self)@.vocab)).len(),
            ),
            old(self)@.vocab.len() + entry_views(source_chars@).filter(
                absent_from(old(self)@.vocab),
            ).len() <= u32::MAX + 1,
        ensures
            final(self).wf(),
            ({
                let to_add = entry_views(source_chars@).filter(absent_from(old(self)@.vocab));
                &&& char_add_views(r.chars_added@) == to_add
                &&& r.chars_already_present == source_chars@.len() - to_add.len()
                &&& to_add.len() == 0 ==> final(self)@ == old(self)@ && r.tokens_removed@.len() == 0
                &&& to_add.len() > 0 ==> exists|cands: Seq<CandidateView>| #[trigger]
                    sync_chars_outcome(
                        old(self)@,
                        entry_views(source_chars@),
                        min_id,
                        cands,
                        final(self)@,
                        info_views(r.tokens_removed@),
                    )
            }),
            r.initial_vocab_size == old(self)@.vocab.len(),
            r.initial_merges_count == old(self)@.merges.len(),
            r.final_vocab_size == final(self)@.vocab.len(),
            r.final_merges_count == final(self)@.merges.len(),
            r.chars_in_source == source_chars@.len(),
            r.total_tokens_removed == sum_cascade(info_views(r.tokens_removed@)),
            r.total_merges_removed == sum_merges(info_views(r.tokens_removed@)),
    {
        let ghost g = self@;
        let initial_vocab_size = self.vocab_size();
        let initial_merges_count = self.merges_count();
        let to_add = self.missing_entries(source_chars);
        let ghost adds = entry_views(to_add@);
        let total_to_add = to_add.len();
        if total_to_add == 0 {
            let chars_added: Vec<CharAddInfo> = Vec::new();
            let tokens_removed: Vec<crate::types::TokenRemovalInfo> = Vec::new();
            assert(char_add_views(chars_added@) =~= adds);
            assert(info_views(tokens_removed@) =~= Seq::empty());
            return SyncCharsResult {
                initial_vocab_size,
                initial_merges_count,
                final_vocab_size: initial_vocab_size,
                final_merges_count: initial_merges_count,
                chars_in_source: source_chars.len(),
                chars_already_present: source_chars.len(),
                chars_added,
                tokens_removed,
                total_tokens_removed: 0,
                total_merges_removed: 0,
            };
        }
        let cands = self.find_tokens_to_shrink(total_to_add, min_id);
        let (tokens_removed, total_tokens_removed, total_merges_removed) = self.remove_candidates(
            &cands,
        );
        let ghost room = self@;
        let mut chars_added: Vec<CharAddInfo> = Vec::new();
        let mut i: usize = 0;
        proof {
            assert(char_add_views(chars_added@) =~= adds.take(0));
            self.vocab.lemma_size();
        }
        while i < total_to_add
            invariant
                i <= total_to_add,
                total_to_add == to_add@.len(),
                adds == entry_views(to_add@),
                self.wf(),
                self@ == with_tokens(room, adds, i as nat),
                self@.next_id <= room.next_id + i,
                room.has_room(adds.len()),
                self.vocab.entries().len() <= room.vocab.len() + i,
                char_add_views(chars_added@) == adds.take(i as int),
                self@.merges == room.merges,
            decreases total_to_add - i,
        {
            let token = to_add[i].0.as_str();
            assert(adds[i as int] == (to_add@[i as int].0@, to_add@[i as int].1));
            self.add_token_atomic(token);
            let ghost listed = char_add_views(chars_added@);
            chars_added.push(CharAddInfo { char_token: String::from_str(token), source_id: to_add[i].1 });
            proof {
                assert(char_add_views(chars_added@) =~= listed.push(adds[i as int]));
                assert(adds.take(i + 1) =~= adds.take(i as int).push(adds[i as int]));
            }
            i = i + 1;
        }
        proof {
            assert(adds.take(total_to_add as int) =~= adds);
            self.vocab.lemma_size();
        }
        let ghost grown = self@;
        self.reindex_vocab();
        let r = SyncCharsResult {
            initial_vocab_size,
            initial_merges_count,
            final_vocab_size: self.vocab_size(),
            final_merges_count: self.merges_count(),
            chars_in_source: source_chars.len(),
            chars_already_present: source_chars.len() - total_to_add,
            chars_added,
            tokens_removed,
            total_tokens_removed,
            total_merges_removed,
        };
        proof {
            assert(sync_chars_outcome(
                g,
                entry_views(source_chars@),
                min_id,
                candidate_views(cands@),
                self@,
                info_views(r.tokens_removed@),
            ));
        }
        r
    }
}

} // verus!
