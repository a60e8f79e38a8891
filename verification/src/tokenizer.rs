//! Merge rules of a BPE tokenizer.

use vstd::prelude::*;
use vstd::string::*;

verus! {

/// A merge rule: the pair of tokens that it combines.
#[derive(Debug, Clone)]
pub struct Merge(pub String, pub String);

impl Merge {
    /// The pair of token strings, as sequences of characters.
    pub open spec fn pair(&self) -> (Seq<char>, Seq<char>) {
        (self.0@, self.1@)
    }

    /// The token that the rule produces: the left token followed by the right one.
    pub open spec fn production(&self) -> Seq<char> {
        self.0@ + self.1@
    }

    /// A merge of two tokens.
    pub fn new(left: String, right: String) -> (r: Merge)
        ensures
            r.pair() == (left@, right@),
    {
        Merge(left, right)
    }

    /// A copy of the merge.
    pub fn duplicate(&self) -> (r: Merge)
        ensures
            r.pair() == self.pair(),
    {
        Merge(self.0.clone(), self.1.clone())
    }

    /// The two tokens as a pair of strings.
    pub fn to_pair(&self) -> (r: (String, String))
        ensures
            r.0@ == self.0@,
            r.1@ == self.1@,
    {
        (self.0.clone(), self.1.clone())
    }

    /// The token that this merge produces.
    pub fn result(&self) -> (r: String)
        ensures
            r@ == self.production(),
    {
        let left = self.0.clone();
        left.concat(self.1.as_str())
    }
}

/// Whether a model of the named type can be edited: only the type `BPE` can.
pub fn is_bpe_model(model_type: &str) -> (r: bool)
    ensures
        r == (model_type@ == "BPE"@),
{
    crate::text::same_token(model_type, "BPE")
}

/// The pairs of a list of merges.
pub open spec fn merge_pairs(merges: Seq<Merge>) -> Seq<(Seq<char>, Seq<char>)> {
    merges.map_values(|m: Merge| m.pair())
}

} // verus!
