//! What the operations on a tokenizer report.

use vstd::prelude::*;

verus! {

/// The strings of a list of tokens.
pub open spec fn token_views(tokens: Seq<String>) -> Seq<Seq<char>> {
    tokens.map_values(|t: String| t@)
}

/// The strings of a list of token pairs.
pub open spec fn pair_views(pairs: Seq<(String, String)>) -> Seq<(Seq<char>, Seq<char>)> {
    pairs.map_values(|p: (String, String)| (p.0@, p.1@))
}

/// The strings and ids of a list of tokens with their ids.
pub open spec fn entry_views(entries: Seq<(String, u32)>) -> Seq<(Seq<char>, u32)> {
    entries.map_values(|e: (String, u32)| (e.0@, e.1))
}

/// One token that was removed to make room, and what went with it.
#[derive(Debug, Clone)]
pub struct TokenRemovalInfo {
    pub token: String,
    pub id: u32,
    pub length: usize,
    pub cascade_tokens_removed: usize,
    pub merges_removed: usize,
}

/// A report on a removed token as strings and numbers: the token, its id,
/// its length, the number of tokens that left with it, and the number of
/// merges that left.
pub type InfoView = (Seq<char>, u32, usize, usize, usize);

/// The strings and numbers of a report.
pub open spec fn info_view(i: TokenRemovalInfo) -> InfoView {
    (i.token@, i.id, i.length, i.cascade_tokens_removed, i.merges_removed)
}

/// The strings and numbers of a list of reports.
pub open spec fn info_views(infos: Seq<TokenRemovalInfo>) -> Seq<InfoView> {
    infos.map_values(|i: TokenRemovalInfo| info_view(i))
}

/// What a cascade removal took out.
#[derive(Debug)]
pub struct RemovalResult {
    pub root_token: String,
    pub removed_tokens: Vec<String>,
    pub removed_merges: Vec<(String, String)>,
}

/// How a token was added.
#[derive(Debug)]
pub struct AdditionResult {
    pub token: String,
    pub added: bool,
    pub method: String,
    pub added_merges: Vec<(String, String)>,
}

/// What a batch of additions at a fixed vocabulary size did.
#[derive(Debug)]
pub struct BatchAddResult {
    pub initial_vocab_size: usize,
    pub final_vocab_size: usize,
    pub tokens_requested: usize,
    pub tokens_added: usize,
    pub tokens_already_present: usize,
    pub merges_added: usize,
    pub tokens_removed: usize,
    pub additions: Vec<AdditionResult>,
    pub removals: Vec<(RemovalResult, String)>,
}

/// What shrinking the vocabulary did.
#[derive(Debug)]
pub struct ShrinkResult {
    pub initial_vocab_size: usize,
    pub initial_merges_count: usize,
    pub final_vocab_size: usize,
    pub final_merges_count: usize,
    pub tokens_requested: usize,
    pub tokens_found: usize,
    pub tokens_removed: Vec<TokenRemovalInfo>,
    pub total_tokens_removed: usize,
    pub total_merges_removed: usize,
}

/// A single-character token that was copied from a source vocabulary.
#[derive(Debug, Clone)]
pub struct CharAddInfo {
    pub char_token: String,
    pub source_id: u32,
}

/// What copying the single-character tokens of a source vocabulary did.
#[derive(Debug)]
pub struct SyncCharsResult {
    pub initial_vocab_size: usize,
    pub initial_merges_count: usize,
    pub final_vocab_size: usize,
    pub final_merges_count: usize,
    pub chars_in_source: usize,
    pub chars_already_present: usize,
    pub chars_added: Vec<CharAddInfo>,
    pub tokens_removed: Vec<TokenRemovalInfo>,
    pub total_tokens_removed: usize,
    pub total_merges_removed: usize,
}

/// A short token that was copied from a source vocabulary.
#[derive(Debug, Clone)]
pub struct ShortTokenAddInfo {
    pub token: String,
    pub source_id: u32,
    pub length: usize,
}

/// What copying the short tokens of a source vocabulary did.
#[derive(Debug)]
pub struct SyncShortTokensResult {
    pub initial_vocab_size: usize,
    pub initial_merges_count: usize,
    pub final_vocab_size: usize,
    pub final_merges_count: usize,
    pub tokens_in_source: usize,
    pub tokens_already_present: usize,
    pub tokens_added: Vec<ShortTokenAddInfo>,
    pub merges_added: usize,
    pub merges_already_present: usize,
    pub tokens_removed: Vec<TokenRemovalInfo>,
    pub total_tokens_removed: usize,
    pub total_merges_removed: usize,
}

/// A token whose id changed.
#[derive(Debug, Clone)]
pub struct IdRemapInfo {
    pub token: String,
    pub old_id: u32,
    pub new_id: u32,
}

/// What reindexing the vocabulary did.
#[derive(Debug)]
pub struct ReindexResult {
    pub vocab_size: usize,
    pub merges_count: usize,
    pub old_min_id: u32,
    pub old_max_id: u32,
    pub new_min_id: u32,
    pub new_max_id: u32,
    pub ids_remapped: usize,
    pub gaps_removed: usize,
}

} // verus!
