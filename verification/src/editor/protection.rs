//! Eviction: which tokens are protected, and which of the others leaves
//! first when room is needed.

use vstd::prelude::*;
use vstd::string::*;
use crate::editor::{BPETokenizerEditor, GraphView};
use crate::index::produces;
use crate::text::{
    char_len, eviction_reason, eviction_reason_string, is_special, is_special_token,
    lemma_lex_asymmetric, lex_lt, space_marker, space_marker_token,
};
use crate::token_set::TokenSet;
use crate::vocab::{entries_map, entry_index, lemma_entry_in_map, sorted_entries};

verus! {

/// The tokens that are never chosen for eviction: those of `extra`, the
/// word-boundary marker, and the single-character and special tokens of the
/// vocabulary.
pub open spec fn protected_set(vocab: Map<Seq<char>, u32>, extra: Set<Seq<char>>) -> Set<Seq<char>> {
    Set::new(
        |t: Seq<char>|
            extra.contains(t) || t == space_marker() || (vocab.contains_key(t) && (t.len() == 1
                || is_special(t))),
    )
}

/// A token that may be chosen for eviction whatever the vocabulary holds:
/// it is not in `extra`, has not one character, and is not special.
pub open spec fn is_evictable(extra: Set<Seq<char>>, t: Seq<char>) -> bool {
    !extra.contains(t) && t.len() != 1 && !is_special(t)
}

/// The set that a scan for the victim passes over: the given set, or the
/// protected set that it makes with the vocabulary.
pub open spec fn scan_protected(
    vocab: Map<Seq<char>, u32>,
    set: Set<Seq<char>>,
    by_shape: bool,
) -> Set<Seq<char>> {
    if by_shape {
        protected_set(vocab, set)
    } else {
        set
    }
}

/// Some merge produces the token.
pub open spec fn is_produced(m: Seq<(Seq<char>, Seq<char>)>, t: Seq<char>) -> bool {
    exists|i: int| produces(m, i, t)
}

/// The token can be evicted: it is in the vocabulary and not protected.
pub open spec fn is_candidate(g: GraphView, protected: Set<Seq<char>>, t: Seq<char>) -> bool {
    g.vocab.contains_key(t) && !protected.contains(t)
}

/// A longer token outranks a shorter one, and of two of the same length a
/// merge production outranks a token that no merge produces.
pub open spec fn outranks(len_a: nat, produced_a: bool, len_b: nat, produced_b: bool) -> bool {
    len_a > len_b || (len_a == len_b && produced_a && !produced_b)
}

/// `a` is evicted before `b`: it outranks `b`, or is its equal in length
/// and production and comes first in the lexicographic order.
pub open spec fn ranks_before(m: Seq<(Seq<char>, Seq<char>)>, a: Seq<char>, b: Seq<char>) -> bool {
    outranks(a.len(), is_produced(m, a), b.len(), is_produced(m, b)) || (a.len() == b.len()
        && is_produced(m, a) == is_produced(m, b) && lex_lt(a, b))
}

/// The token is the candidate that is evicted before every other one.
pub open spec fn is_victim(g: GraphView, protected: Set<Seq<char>>, t: Seq<char>) -> bool {
    &&& is_candidate(g, protected, t)
    &&& forall|c: Seq<char>| #[trigger]
        is_candidate(g, protected, c) && c != t ==> ranks_before(g.merges, t, c)
}

/// No token of one character, no special token, no token of `extra` and
/// not the word-boundary marker is the victim where the protected set of
/// the vocabulary is in force.
pub proof fn lemma_victim_is_unprotected(g: GraphView, extra: Set<Seq<char>>, t: Seq<char>)
    requires
        is_victim(g, protected_set(g.vocab, extra), t),
    ensures
        g.vocab.contains_key(t),
        t.len() != 1,
        !is_special(t),
        !extra.contains(t),
        t != space_marker(),
{
}

/// At most one token is the victim.
pub proof fn lemma_victim_unique(g: GraphView, protected: Set<Seq<char>>, a: Seq<char>, b: Seq<char>)
    requires
        is_victim(g, protected, a),
        is_victim(g, protected, b),
    ensures
        a == b,
{
    if a != b {
        assert(is_candidate(g, protected, a) && is_candidate(g, protected, b));
        assert(ranks_before(g.merges, a, b));
        assert(ranks_before(g.merges, b, a));
        if lex_lt(a, b) {
            lemma_lex_asymmetric(a, b);
        }
    }
}

/// What the scan for the victim knows after `i` entries.
spec fn scan_inv(
    es: Seq<(Seq<char>, u32)>,
    m: Seq<(Seq<char>, Seq<char>)>,
    protected: Set<Seq<char>>,
    i: int,
    found: bool,
    best: int,
) -> bool {
    if found {
        &&& 0 <= best < i
        &&& !protected.contains(es[best].0)
        &&& forall|j: int|
            0 <= j < i && j != best && !protected.contains(#[trigger] es[j].0) ==> ranks_before(
                m,
                es[best].0,
                es[j].0,
            )
    } else {
        forall|j: int| 0 <= j < i ==> protected.contains(#[trigger] es[j].0)
    }
}

proof fn lemma_scan_skip(
    es: Seq<(Seq<char>, u32)>,
    m: Seq<(Seq<char>, Seq<char>)>,
    protected: Set<Seq<char>>,
    i: int,
    found: bool,
    best: int,
)
    requires
        sorted_entries(es),
        0 <= i < es.len(),
        scan_inv(es, m, protected, i, found, best),
        protected.contains(es[i].0) || (found && !outranks(
            es[i].0.len(),
            is_produced(m, es[i].0),
            es[best].0.len(),
            is_produced(m, es[best].0),
        )),
    ensures
        scan_inv(es, m, protected, i + 1, found, best),
{
    if found && !protected.contains(es[i].0) {
        assert(lex_lt(es[best].0, es[i].0));
    }
}

proof fn lemma_scan_take(
    es: Seq<(Seq<char>, u32)>,
    m: Seq<(Seq<char>, Seq<char>)>,
    protected: Set<Seq<char>>,
    i: int,
    found: bool,
    best: int,
)
    requires
        sorted_entries(es),
        0 <= i < es.len(),
        scan_inv(es, m, protected, i, found, best),
        !protected.contains(es[i].0),
        found ==> outranks(
            es[i].0.len(),
            is_produced(m, es[i].0),
            es[best].0.len(),
            is_produced(m, es[best].0),
        ),
    ensures
        scan_inv(es, m, protected, i + 1, true, i),
{
    assert forall|j: int|
        0 <= j < i + 1 && j != i && !protected.contains(#[trigger] es[j].0) implies ranks_before(
        m,
        es[i].0,
        es[j].0,
    ) by {
        if j != best {
            assert(ranks_before(m, es[best].0, es[j].0));
        }
    }
}

proof fn lemma_scan_end(
    es: Seq<(Seq<char>, u32)>,
    g: GraphView,
    protected: Set<Seq<char>>,
    found: bool,
    best: int,
)
    requires
        sorted_entries(es),
        g.vocab == entries_map(es),
        scan_inv(es, g.merges, protected, es.len() as int, found, best),
    ensures
        found ==> is_victim(g, protected, es[best].0),
        !found ==> forall|t: Seq<char>| !is_candidate(g, protected, t),
{
    if found {
        lemma_entry_in_map(es, best);
        assert forall|c: Seq<char>| #[trigger]
            is_candidate(g, protected, c) && c != es[best].0 implies ranks_before(
            g.merges,
            es[best].0,
            c,
        ) by {
            let j = entry_index(es, c);
            assert(es[j].0 == c);
        }
    } else {
        assert forall|t: Seq<char>| !is_candidate(g, protected, t) by {
            if g.vocab.contains_key(t) {
                let j = entry_index(es, t);
                assert(es[j].0 == t);
            }
        }
    }
}

impl BPETokenizerEditor {
    /// The tokens that must not be evicted: those of `extra`, the
    /// word-boundary marker, and every token of the vocabulary that is a
    /// single character or special.
    pub fn build_protected_set(&self, extra: &TokenSet) -> (r: TokenSet)
        requires
            self.vocab.wf(),
            extra.wf(),
        ensures
            r.wf(),
            r@ == protected_set(self@.vocab, extra@),
    {
        let ghost es = self.vocab.entries();
        let mut protected = extra.copy();
        let marker = space_marker_token();
        protected.insert(marker.as_str());
        let n = self.vocab.len();
        let mut i: usize = 0;
        while i < n
            invariant
                i <= n,
                n == es.len(),
                es == self.vocab.entries(),
                self.vocab.wf(),
                protected.wf(),
                forall|t: Seq<char>|
                    protected@.contains(t) <==> (extra@.contains(t) || t == space_marker() || exists|
                        j: int,
                    |
                        0 <= j < i && #[trigger] es[j].0 == t && (t.len() == 1 || is_special(t))),
            decreases n - i,
        {
            let token = self.vocab.token_at(i);
            let ghost before = protected@;
            let keep = char_len(token) == 1 || is_special_token(token);
            if keep {
                protected.insert(token);
            }
            proof {
                assert forall|t: Seq<char>|
                    protected@.contains(t) <==> (extra@.contains(t) || t == space_marker()
                        || exists|j: int|
                        0 <= j < i + 1 && #[trigger] es[j].0 == t && (t.len() == 1 || is_special(
                            t,
                        ))) by {
                    if before.contains(t) && !(extra@.contains(t) || t == space_marker()) {
                        let j = choose|j: int|
                            0 <= j < i && #[trigger] es[j].0 == t && (t.len() == 1 || is_special(t));
                        assert(0 <= j < i + 1 && es[j].0 == t);
                    }
                    if keep && t == token@ {
                        assert(es[i as int].0 == t);
                    }
                    if exists|j: int|
                        0 <= j < i + 1 && #[trigger] es[j].0 == t && (t.len() == 1 || is_special(t)) {
                        let j = choose|j: int|
                            0 <= j < i + 1 && #[trigger] es[j].0 == t && (t.len() == 1
                                || is_special(t));
                        if j < i {
                            assert(before.contains(t));
                        }
                    }
                }
            }
            i = i + 1;
        }
        proof {
            let want = protected_set(self@.vocab, extra@);
            assert forall|t: Seq<char>| protected@.contains(t) <==> want.contains(t) by {
                if protected@.contains(t) && !(extra@.contains(t) || t == space_marker()) {
                    let j = choose|j: int|
                        0 <= j < n && #[trigger] es[j].0 == t && (t.len() == 1 || is_special(t));
                    lemma_entry_in_map(es, j);
                }
                if want.contains(t) && !(extra@.contains(t) || t == space_marker()) {
                    let j = entry_index(es, t);
                    assert(es[j].0 == t);
                }
            }
            assert(protected@ =~= want);
        }
        protected
    }

    /// The token to evict and the reason that is reported with it: among
    /// the tokens that are not protected the longest, of those one that a
    /// merge produces, of those the first in the lexicographic order.
    pub fn select_token_to_remove(&self, protected: &TokenSet) -> (r: Option<(String, String)>)
        requires
            self.wf(),
        ensures
            match r {
                Some(pair) => is_victim(self@, protected@, pair.0@) && pair.1@ == eviction_reason(
                    pair.0@.len(),
                    is_produced(self@.merges, pair.0@),
                ),
                None => forall|t: Seq<char>| !is_candidate(self@, protected@, t),
            },
    {
        let r = self.scan_for_victim(protected, false);
        assert(scan_protected(self@.vocab, protected@, false) == protected@);
        r
    }

    /// The token to evict where the protected set of the vocabulary as it
    /// stands is in force: no token of `extra`, no token of one character
    /// and no special token is chosen. Among the other tokens the choice is
    /// that of `select_token_to_remove`.
    pub fn select_victim(&self, extra: &TokenSet) -> (r: Option<(String, String)>)
        requires
            self.wf(),
        ensures
            match r {
                Some(pair) => is_victim(self@, protected_set(self@.vocab, extra@), pair.0@)
                    && is_evictable(extra@, pair.0@) && pair.1@ == eviction_reason(
                    pair.0@.len(),
                    is_produced(self@.merges, pair.0@),
                ),
                None => forall|t: Seq<char>|
                    !is_candidate(self@, protected_set(self@.vocab, extra@), t),
            },
    {
        let r = self.scan_for_victim(extra, true);
        proof {
            assert(scan_protected(self@.vocab, extra@, true) == protected_set(self@.vocab, extra@));
            if r is Some {
                assert(is_candidate(self@, protected_set(self@.vocab, extra@), r.unwrap().0@));
            }
        }
        r
    }

    /// Scans the vocabulary for the victim. A token is passed over where it
    /// is in `set`, and, where `by_shape` is set, where it has one character
    /// or is special.
    fn scan_for_victim(&self, set: &TokenSet, by_shape: bool) -> (r: Option<(String, String)>)
        requires
            self.wf(),
        ensures
            match r {
                Some(pair) => is_victim(self@, scan_protected(self@.vocab, set@, by_shape), pair.0@)
                    && pair.1@ == eviction_reason(
                    pair.0@.len(),
                    is_produced(self@.merges, pair.0@),
                ),
                None => forall|t: Seq<char>|
                    !is_candidate(self@, scan_protected(self@.vocab, set@, by_shape), t),
            },
    {
        let ghost es = self.vocab.entries();
        let ghost m = self@.merges;
        let ghost protected = scan_protected(self@.vocab, set@, by_shape);
        let n = self.vocab.len();
        let mut found = false;
        let mut best: usize = 0;
        let mut best_len: usize = 0;
        let mut best_produced = false;
        let mut i: usize = 0;
        while i < n
            invariant
                i <= n,
                n == es.len(),
                es == self.vocab.entries(),
                m == self@.merges,
                protected == scan_protected(self@.vocab, set@, by_shape),
                self.wf(),
                scan_inv(es, m, protected, i as int, found, best as int),
                found ==> best < i && best_len == es[best as int].0.len() && best_produced
                    == is_produced(m, es[best as int].0),
            decreases n - i,
        {
            let token = self.vocab.token_at(i);
            let len = char_len(token);
            let passed_over = set.contains(token) || (by_shape && (len == 1 || is_special_token(
                token,
            )));
            proof {
                lemma_entry_in_map(es, i as int);
                assert(space_marker().len() == 1);
                assert(passed_over == protected.contains(token@));
            }
            if passed_over {
                proof {
                    lemma_scan_skip(es, m, protected, i as int, found, best as int);
                }
            } else {
                let produced = self.index.producer(token).is_some();
                assert(produced == is_produced(m, token@));
                if !found || len > best_len || (len == best_len && produced && !best_produced) {
                    proof {
                        lemma_scan_take(es, m, protected, i as int, found, best as int);
                    }
                    found = true;
                    best = i;
                    best_len = len;
                    best_produced = produced;
                } else {
                    proof {
                        lemma_scan_skip(es, m, protected, i as int, found, best as int);
                    }
                }
            }
            i = i + 1;
        }
        proof {
            lemma_scan_end(es, self@, protected, found, best as int);
        }
        if found {
            let token = String::from_str(self.vocab.token_at(best));
            let reason = eviction_reason_string(best_len, best_produced);
            Some((token, reason))
        } else {
            None
        }
    }
}

} // verus!
