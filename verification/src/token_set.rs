//! A set of tokens that can be asked for a token and listed.

use vstd::prelude::*;
use vstd::string::*;
use vstd::hash_set::StringHashSet;
use crate::types::token_views;

verus! {

/// The test for an entry whose token is not in the set.
pub open spec fn outside(set: Set<Seq<char>>) -> spec_fn((Seq<char>, u32)) -> bool {
    |e: (Seq<char>, u32)| !set.contains(e.0)
}

/// A set of tokens.
pub struct TokenSet {
    items: Vec<String>,
    index: StringHashSet,
}

impl View for TokenSet {
    type V = Set<Seq<char>>;

    /// The tokens of the set.
    closed spec fn view(&self) -> Set<Seq<char>> {
        self.index@
    }
}

impl TokenSet {
    /// The tokens in the order in which they came in.
    pub closed spec fn listing(&self) -> Seq<Seq<char>> {
        token_views(self.items@)
    }

    /// The listing holds each token of the set once.
    pub open spec fn wf(&self) -> bool {
        &&& self.listing().no_duplicates()
        &&& self.listing().to_set() == self@
    }

    /// The set without tokens.
    pub fn new() -> (r: TokenSet)
        ensures
            r.wf(),
            r@ == Set::<Seq<char>>::empty(),
    {
        let r = TokenSet { items: Vec::new(), index: StringHashSet::new() };
        assert(r.listing().to_set() =~= Set::empty());
        r
    }

    /// The number of tokens.
    pub fn len(&self) -> (n: usize)
        requires
            self.wf(),
        ensures
            n == self@.len(),
            n == self.listing().len(),
            self@.finite(),
    {
        proof {
            self.listing().unique_seq_to_set();
        }
        self.items.len()
    }

    /// Whether the token is in the set.
    pub fn contains(&self, token: &str) -> (r: bool)
        ensures
            r == self@.contains(token@),
    {
        self.index.contains(token)
    }

    /// The token at position `i` of the listing.
    pub fn token_at(&self, i: usize) -> (r: &str)
        requires
            i < self.listing().len(),
        ensures
            r@ == self.listing()[i as int],
    {
        self.items[i].as_str()
    }

    /// Puts the token into the set. Returns whether it was new.
    pub fn insert(&mut self, token: &str) -> (added: bool)
        requires
            old(self).wf(),
        ensures
            final(self).wf(),
            final(self)@ == old(self)@.insert(token@),
            added == !old(self)@.contains(token@),
    {
        if self.index.contains(token) {
            assert(self@.insert(token@) =~= self@);
            return false;
        }
        let ghost listed = self.listing();
        self.index.insert(String::from_str(token));
        self.items.push(String::from_str(token));
        proof {
            assert(self.listing() =~= listed.push(token@));
            assert(!listed.contains(token@));
            assert forall|x: Seq<char>| listed.push(token@).contains(x) <==> (listed.contains(x)
                || x == token@) by {
                if listed.push(token@).contains(x) {
                    let j = choose|j: int|
                        0 <= j < listed.push(token@).len() && listed.push(token@)[j] == x;
                    if j < listed.len() {
                        assert(listed[j] == x);
                    }
                }
                if listed.contains(x) {
                    let j = choose|j: int| 0 <= j < listed.len() && listed[j] == x;
                    assert(listed.push(token@)[j] == x);
                }
                if x == token@ {
                    assert(listed.push(token@)[listed.len() as int] == x);
                }
            }
            assert(self.listing().to_set() =~= self@);
        }
        true
    }

    /// The set of the tokens of a list.
    pub fn from_tokens(tokens: &Vec<String>) -> (r: TokenSet)
        ensures
            r.wf(),
            r@ == token_views(tokens@).to_set(),
    {
        let mut r = TokenSet::new();
        let ghost names = token_views(tokens@);
        let mut i: usize = 0;
        proof {
            crate::seqs::lemma_prefix_set_ends(names);
        }
        while i < tokens.len()
            invariant
                i <= tokens@.len(),
                names == token_views(tokens@),
                r.wf(),
                r@ == names.take(i as int).to_set(),
            decreases tokens@.len() - i,
        {
            proof {
                crate::seqs::lemma_prefix_set_step(names, i as int);
            }
            r.insert(tokens[i].as_str());
            i = i + 1;
        }
        proof {
            crate::seqs::lemma_prefix_set_ends(names);
        }
        r
    }

    /// The set of the tokens of a list of entries.
    pub fn from_entries(entries: &Vec<(String, u32)>) -> (r: TokenSet)
        ensures
            r.wf(),
            r@ == crate::types::entry_views(entries@).map_values(|e: (Seq<char>, u32)| e.0).to_set(),
    {
        let mut r = TokenSet::new();
        let ghost names = crate::types::entry_views(entries@).map_values(|e: (Seq<char>, u32)| e.0);
        let mut i: usize = 0;
        proof {
            crate::seqs::lemma_prefix_set_ends(names);
        }
        while i < entries.len()
            invariant
                i <= entries@.len(),
                names == crate::types::entry_views(entries@).map_values(|e: (Seq<char>, u32)| e.0),
                r.wf(),
                r@ == names.take(i as int).to_set(),
            decreases entries@.len() - i,
        {
            proof {
                crate::seqs::lemma_prefix_set_step(names, i as int);
            }
            r.insert(entries[i].0.as_str());
            i = i + 1;
        }
        proof {
            crate::seqs::lemma_prefix_set_ends(names);
        }
        r
    }

    /// The entries of a list whose tokens are not in the set, in their order.
    pub fn entries_outside(&self, entries: &Vec<(String, u32)>) -> (r: Vec<(String, u32)>)
        ensures
            crate::types::entry_views(r@) == crate::types::entry_views(entries@).filter(
                outside(self@),
            ),
    {
        let ghost ev = crate::types::entry_views(entries@);
        let ghost test = outside(self@);
        let mut found: Vec<(String, u32)> = Vec::new();
        let mut i: usize = 0;
        proof {
            crate::seqs::lemma_filter_start(ev, test);
            assert(crate::types::entry_views(found@) =~= Seq::empty());
        }
        while i < entries.len()
            invariant
                i <= entries@.len(),
                ev == crate::types::entry_views(entries@),
                test == outside(self@),
                crate::types::entry_views(found@) == ev.take(i as int).filter(test),
            decreases entries@.len() - i,
        {
            proof {
                crate::seqs::lemma_filter_step(ev, test, i as int);
            }
            if !self.contains(entries[i].0.as_str()) {
                let ghost listed = crate::types::entry_views(found@);
                found.push((entries[i].0.clone(), entries[i].1));
                assert(crate::types::entry_views(found@) =~= listed.push(ev[i as int]));
            }
            i = i + 1;
        }
        proof {
            crate::seqs::lemma_filter_start(ev, test);
        }
        found
    }

    /// A set with the same tokens.
    pub fn copy(&self) -> (r: TokenSet)
        requires
            self.wf(),
        ensures
            r.wf(),
            r@ == self@,
    {
        let r = TokenSet::from_tokens(&self.items);
        r
    }
}

} // verus!
