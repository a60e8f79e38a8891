//! Editing of BPE tokenizer definitions: a vocabulary of tokens with ids and
//! an ordered list of merge rules, kept consistent with each other.

pub mod editor;
pub mod ids;
pub mod index;
pub mod merge_set;
pub mod seqs;
pub mod sorting;
pub mod text;
pub mod token_file;
pub mod token_set;
pub mod tokenizer;
pub mod types;
pub mod vocab;

pub use editor::BPETokenizerEditor;
