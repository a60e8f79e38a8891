//! Lists of tokens as files hold them: a JSON array of strings.

use vstd::prelude::*;
use crate::types::token_views;

verus! {

#[verifier::external_type_specification]
#[verifier::external_body]
pub struct ExJsonError(serde_json::Error);

/// The strings of a text that is a JSON array of strings, and nothing for
/// any other text.
pub uninterp spec fn json_token_list(content: Seq<char>) -> Option<Seq<Seq<char>>>;

/// Reads a JSON array of strings. Calls `serde_json::from_str` for a vector
/// of strings. The contract gives the outcome of that call a name: what is
/// read is what the name gives for the text, and the call fails on the
/// texts for which the name gives nothing.
#[verifier::external_body]
fn read_json_strings(content: &str) -> (r: Result<Vec<String>, serde_json::Error>)
    ensures
        match r {
            Ok(tokens) => json_token_list(content@) == Some(token_views(tokens@)),
            Err(_) => json_token_list(content@) is None,
        },
{
    serde_json::from_str::<Vec<String>>(content)
}

/// Why a list of tokens could not be read.
#[derive(Debug, Clone, Copy, PartialEq, Eq, Structural)]
pub enum TokenListError {
    /// The text is not a JSON array of strings.
    Malformed,
}

/// The tokens of a text that lists them as a JSON array of strings.
pub fn parse_token_list(content: &str) -> (r: Result<Vec<String>, TokenListError>)
    ensures
        match r {
            Ok(tokens) => json_token_list(content@) == Some(token_views(tokens@)),
            Err(e) => e == TokenListError::Malformed && json_token_list(content@) is None,
        },
{
    match read_json_strings(content) {
        Ok(tokens) => Ok(tokens),
        Err(_) => Err(TokenListError::Malformed),
    }
}

} // verus!
