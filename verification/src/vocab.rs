//! The vocabulary: a map from token to id, held as a list of entries in the
//! lexicographic order of their tokens.

use vstd::prelude::*;
use vstd::string::*;
use crate::text::{lemma_lex_asymmetric, lemma_lex_transitive, lex_lt, token_order, TokenOrder};

verus! {

/// The tokens of the entries ascend strictly, so no token occurs twice.
pub open spec fn sorted_entries(es: Seq<(Seq<char>, u32)>) -> bool {
    forall|i: int, j: int| 0 <= i < j < es.len() ==> lex_lt(#[trigger] es[i].0, #[trigger] es[j].0)
}

/// Whether some entry holds the token.
pub open spec fn has_entry(es: Seq<(Seq<char>, u32)>, token: Seq<char>) -> bool {
    exists|i: int| 0 <= i < es.len() && #[trigger] es[i].0 == token
}

/// The position of an entry that holds the token.
pub open spec fn entry_index(es: Seq<(Seq<char>, u32)>, token: Seq<char>) -> int {
    choose|i: int| 0 <= i < es.len() && #[trigger] es[i].0 == token
}

/// The map that a list of entries stands for.
pub open spec fn entries_map(es: Seq<(Seq<char>, u32)>) -> Map<Seq<char>, u32> {
    Map::new(|t: Seq<char>| has_entry(es, t), |t: Seq<char>| es[entry_index(es, t)].1)
}

/// In a sorted list an entry is the only one with its token, and the map
/// gives its id.
pub proof fn lemma_entry_in_map(es: Seq<(Seq<char>, u32)>, i: int)
    requires
        sorted_entries(es),
        0 <= i < es.len(),
    ensures
        entries_map(es).contains_key(es[i].0),
        entries_map(es)[es[i].0] == es[i].1,
        entry_index(es, es[i].0) == i,
{
    let j = entry_index(es, es[i].0);
    if j < i {
        lemma_lex_asymmetric(es[j].0, es[i].0);
    } else if i < j {
        lemma_lex_asymmetric(es[i].0, es[j].0);
    }
}

/// A token that falls strictly between two neighbours of a sorted list is
/// in no entry.
pub proof fn lemma_gap_is_absent(es: Seq<(Seq<char>, u32)>, token: Seq<char>, pos: int)
    requires
        0 <= pos <= es.len(),
        forall|j: int| 0 <= j < pos ==> lex_lt(#[trigger] es[j].0, token),
        forall|j: int| pos <= j < es.len() ==> lex_lt(token, #[trigger] es[j].0),
    ensures
        !entries_map(es).contains_key(token),
{
    if has_entry(es, token) {
        let j = entry_index(es, token);
        if j < pos {
            lemma_lex_asymmetric(es[j].0, token);
        } else {
            lemma_lex_asymmetric(token, es[j].0);
        }
    }
}

/// Putting a new token at its place keeps the list sorted and adds it to the map.
pub proof fn lemma_insert_entry(es: Seq<(Seq<char>, u32)>, token: Seq<char>, id: u32, pos: int)
    requires
        sorted_entries(es),
        0 <= pos <= es.len(),
        forall|j: int| 0 <= j < pos ==> lex_lt(#[trigger] es[j].0, token),
        forall|j: int| pos <= j < es.len() ==> lex_lt(token, #[trigger] es[j].0),
    ensures
        sorted_entries(es.insert(pos, (token, id))),
        entries_map(es.insert(pos, (token, id))) == entries_map(es).insert(token, id),
{
    let ns = es.insert(pos, (token, id));
    assert forall|i: int, j: int| 0 <= i < j < ns.len() implies lex_lt(
        #[trigger] ns[i].0,
        #[trigger] ns[j].0,
    ) by {
        if i < pos && j > pos {
            assert(ns[i] == es[i]);
            assert(ns[j] == es[j - 1]);
        }
    }
    assert forall|t: Seq<char>| #[trigger]
        entries_map(ns).contains_key(t) == entries_map(es).insert(token, id).contains_key(
            t,
        ) by {
        if has_entry(ns, t) {
            let i = entry_index(ns, t);
            if i < pos {
                assert(es[i].0 == t);
            } else if i > pos {
                assert(es[i - 1].0 == t);
            }
        }
        if t == token {
            assert(ns[pos].0 == t);
        } else if has_entry(es, t) {
            let i = entry_index(es, t);
            if i < pos {
                assert(ns[i].0 == t);
            } else {
                assert(ns[i + 1].0 == t);
            }
        }
    }
    assert forall|t: Seq<char>| #[trigger]
        entries_map(ns).contains_key(t) implies entries_map(ns)[t] == entries_map(es).insert(
        token,
        id,
    )[t] by {
        let i = entry_index(ns, t);
        lemma_entry_in_map(ns, i);
        if i < pos {
            assert(ns[i] == es[i]);
            lemma_entry_in_map(es, i);
        } else if i > pos {
            assert(ns[i] == es[i - 1]);
            lemma_entry_in_map(es, i - 1);
            lemma_lex_asymmetric(token, es[i - 1].0);
        }
    }
    assert(entries_map(ns) =~= entries_map(es).insert(token, id));
}

/// Giving an entry another id keeps the list sorted and sets the id in the map.
pub proof fn lemma_update_entry(es: Seq<(Seq<char>, u32)>, id: u32, pos: int)
    requires
        sorted_entries(es),
        0 <= pos < es.len(),
    ensures
        sorted_entries(es.update(pos, (es[pos].0, id))),
        entries_map(es.update(pos, (es[pos].0, id))) == entries_map(es).insert(es[pos].0, id),
{
    let token = es[pos].0;
    let ns = es.update(pos, (token, id));
    assert forall|i: int, j: int| 0 <= i < j < ns.len() implies lex_lt(
        #[trigger] ns[i].0,
        #[trigger] ns[j].0,
    ) by {
        assert(ns[i].0 == es[i].0);
        assert(ns[j].0 == es[j].0);
    }
    assert forall|t: Seq<char>| #[trigger]
        entries_map(ns).contains_key(t) == entries_map(es).insert(token, id).contains_key(
            t,
        ) by {
        if has_entry(ns, t) {
            let i = entry_index(ns, t);
            assert(es[i].0 == t);
        }
        if has_entry(es, t) {
            let i = entry_index(es, t);
            assert(ns[i].0 == t);
        }
        if t == token {
            assert(ns[pos].0 == t);
        }
    }
    assert forall|t: Seq<char>| #[trigger]
        entries_map(ns).contains_key(t) implies entries_map(ns)[t] == entries_map(es).insert(
        token,
        id,
    )[t] by {
        let i = entry_index(ns, t);
        lemma_entry_in_map(ns, i);
        lemma_entry_in_map(es, i);
    }
    assert(entries_map(ns) =~= entries_map(es).insert(token, id));
}

/// Taking an entry out keeps the list sorted and takes its token out of the map.
pub proof fn lemma_remove_entry(es: Seq<(Seq<char>, u32)>, pos: int)
    requires
        sorted_entries(es),
        0 <= pos < es.len(),
    ensures
        sorted_entries(es.remove(pos)),
        entries_map(es.remove(pos)) == entries_map(es).remove(es[pos].0),
{
    let token = es[pos].0;
    let ns = es.remove(pos);
    assert forall|i: int, j: int| 0 <= i < j < ns.len() implies lex_lt(
        #[trigger] ns[i].0,
        #[trigger] ns[j].0,
    ) by {
        let oi = if i < pos { i } else { i + 1 };
        let oj = if j < pos { j } else { j + 1 };
        assert(ns[i] == es[oi]);
        assert(ns[j] == es[oj]);
    }
    assert forall|t: Seq<char>| #[trigger]
        entries_map(ns).contains_key(t) == entries_map(es).remove(token).contains_key(t) by {
        if has_entry(ns, t) {
            let i = entry_index(ns, t);
            let oi = if i < pos { i } else { i + 1 };
            assert(es[oi].0 == t);
            if oi < pos {
                lemma_lex_asymmetric(es[oi].0, es[pos].0);
            } else {
                lemma_lex_asymmetric(es[pos].0, es[oi].0);
            }
        }
        if t != token && has_entry(es, t) {
            let i = entry_index(es, t);
            if i < pos {
                assert(ns[i].0 == t);
            } else {
                assert(ns[i - 1].0 == t);
            }
        }
    }
    assert forall|t: Seq<char>| #[trigger]
        entries_map(ns).contains_key(t) implies entries_map(ns)[t] == entries_map(es).remove(
        token,
    )[t] by {
        let i = entry_index(ns, t);
        lemma_entry_in_map(ns, i);
        let oi = if i < pos { i } else { i + 1 };
        assert(ns[i] == es[oi]);
        lemma_entry_in_map(es, oi);
    }
    assert(entries_map(ns) =~= entries_map(es).remove(token));
}

/// The map of a sorted list has one key for each entry.
pub proof fn lemma_map_size(es: Seq<(Seq<char>, u32)>)
    requires
        sorted_entries(es),
    ensures
        entries_map(es).dom().finite(),
        entries_map(es).dom().len() == es.len(),
    decreases es.len(),
{
    if es.len() == 0 {
        assert(entries_map(es).dom() =~= Set::empty());
    } else {
        let pos = es.len() - 1;
        let rest = es.remove(pos);
        lemma_remove_entry(es, pos);
        lemma_map_size(rest);
        lemma_entry_in_map(es, pos);
        assert(entries_map(es).dom() =~= entries_map(rest).dom().insert(es[pos].0));
    }
}

/// Two sorted lists that stand for the same map are the same list.
pub proof fn lemma_sorted_entries_unique(a: Seq<(Seq<char>, u32)>, b: Seq<(Seq<char>, u32)>)
    requires
        sorted_entries(a),
        sorted_entries(b),
        entries_map(a) == entries_map(b),
    ensures
        a == b,
    decreases a.len(),
{
    lemma_map_size(a);
    lemma_map_size(b);
    if a.len() > 0 {
        let pa = a.len() - 1;
        let pb = b.len() - 1;
        lemma_entry_in_map(a, pa);
        lemma_entry_in_map(b, pb);
        let ia = entry_index(a, b[pb].0);
        let ib = entry_index(b, a[pa].0);
        assert(has_entry(a, b[pb].0));
        assert(has_entry(b, a[pa].0));
        if ia < pa {
            lemma_lex_asymmetric(a[ia].0, a[pa].0);
            if ib < pb {
                lemma_lex_asymmetric(b[ib].0, b[pb].0);
            }
        }
        assert(a[pa].0 == b[pb].0);
        lemma_remove_entry(a, pa);
        lemma_remove_entry(b, pb);
        lemma_sorted_entries_unique(a.remove(pa), b.remove(pb));
        assert(a =~= a.remove(pa).push(a[pa]));
        assert(b =~= b.remove(pb).push(b[pb]));
    } else {
        assert(a =~= b);
    }
}

/// The map that a list of pairs builds when each pair is put into it in
/// turn: of two pairs with the same token the later one counts.
pub open spec fn map_of_pairs(pairs: Seq<(Seq<char>, u32)>) -> Map<Seq<char>, u32>
    decreases pairs.len(),
{
    if pairs.len() == 0 {
        Map::empty()
    } else {
        map_of_pairs(pairs.drop_last()).insert(pairs.last().0, pairs.last().1)
    }
}

/// A vocabulary: each token of it has one id.
pub struct Vocabulary {
    entries: Vec<(String, u32)>,
}

impl View for Vocabulary {
    type V = Map<Seq<char>, u32>;

    /// The vocabulary as a map from token to id.
    open spec fn view(&self) -> Map<Seq<char>, u32> {
        entries_map(self.entries())
    }
}

impl Vocabulary {
    /// The entries in the order in which the vocabulary lists them.
    pub closed spec fn entries(&self) -> Seq<(Seq<char>, u32)> {
        self.entries@.map_values(|e: (String, u32)| (e.0@, e.1))
    }

    /// The entries are sorted by token.
    pub open spec fn wf(&self) -> bool {
        sorted_entries(self.entries())
    }

    /// The size of the map is the number of entries.
    pub proof fn lemma_size(&self)
        requires
            self.wf(),
        ensures
            self@.dom().finite(),
            self@.dom().len() == self.entries().len(),
    {
        lemma_map_size(self.entries());
    }

    /// A vocabulary without tokens.
    pub fn new() -> (r: Vocabulary)
        ensures
            r.wf(),
            r@ == Map::<Seq<char>, u32>::empty(),
            r.entries() == Seq::<(Seq<char>, u32)>::empty(),
    {
        let r = Vocabulary { entries: Vec::new() };
        assert(r.entries() =~= Seq::empty());
        assert(r@ =~= Map::empty());
        r
    }

    /// The vocabulary that a list of pairs of token and id builds.
    pub fn from_entries(pairs: Vec<(String, u32)>) -> (r: Vocabulary)
        ensures
            r.wf(),
            r@ == map_of_pairs(pairs@.map_values(|e: (String, u32)| (e.0@, e.1))),
    {
        let ghost views = pairs@.map_values(|e: (String, u32)| (e.0@, e.1));
        let mut r = Vocabulary::new();
        let mut i: usize = 0;
        assert(views.take(0) =~= Seq::empty());
        while i < pairs.len()
            invariant
                i <= pairs@.len(),
                views == pairs@.map_values(|e: (String, u32)| (e.0@, e.1)),
                r.wf(),
                r@ == map_of_pairs(views.take(i as int)),
            decreases pairs@.len() - i,
        {
            assert(views.take(i + 1).drop_last() =~= views.take(i as int));
            assert(views.take(i + 1).last() == views[i as int]);
            r.insert(pairs[i].0.clone(), pairs[i].1);
            i = i + 1;
        }
        assert(views.take(i as int) =~= views);
        r
    }

    /// The entries as pairs of token and id, in the order of the tokens.
    pub fn to_entries(&self) -> (r: Vec<(String, u32)>)
        ensures
            r@.map_values(|e: (String, u32)| (e.0@, e.1)) == self.entries(),
    {
        let mut r: Vec<(String, u32)> = Vec::new();
        let mut i: usize = 0;
        while i < self.entries.len()
            invariant
                i <= self.entries@.len(),
                r@.len() == i,
                forall|j: int| 0 <= j < i ==> (#[trigger] r@[j]).0@ == self.entries@[j].0@ && r@[j].1 == self.entries@[j].1,
            decreases self.entries@.len() - i,
        {
            r.push((self.entries[i].0.clone(), self.entries[i].1));
            i = i + 1;
        }
        assert(r@.map_values(|e: (String, u32)| (e.0@, e.1)) =~= self.entries());
        r
    }

    /// The number of tokens.
    pub fn len(&self) -> (n: usize)
        ensures
            n == self.entries().len(),
    {
        self.entries.len()
    }

    /// The token of the entry at position `i`.
    pub fn token_at(&self, i: usize) -> (r: &str)
        requires
            i < self.entries().len(),
        ensures
            r@ == self.entries()[i as int].0,
    {
        self.entries[i].0.as_str()
    }

    /// The id of the entry at position `i`.
    pub fn id_at(&self, i: usize) -> (r: u32)
        requires
            i < self.entries().len(),
        ensures
            r == self.entries()[i as int].1,
    {
        self.entries[i].1
    }

    /// Where the token stands, or where it would have to be put.
    pub fn search(&self, token: &str) -> (r: Result<usize, usize>)
        requires
            self.wf(),
        ensures
            match r {
                Ok(i) => i < self.entries().len() && self.entries()[i as int].0 == token@,
                Err(i) => {
                    &&& i <= self.entries().len()
                    &&& forall|j: int| 0 <= j < i ==> lex_lt(#[trigger] self.entries()[j].0, token@)
                    &&& forall|j: int|
                        i <= j < self.entries().len() ==> lex_lt(
                            token@,
                            #[trigger] self.entries()[j].0,
                        )
                },
            },
    {
        let ghost es = self.entries();
        let mut lo: usize = 0;
        let mut hi: usize = self.entries.len();
        while lo < hi
            invariant
                self.wf(),
                es == self.entries(),
                lo <= hi <= es.len(),
                forall|j: int| 0 <= j < lo ==> lex_lt(#[trigger] es[j].0, token@),
                forall|j: int| hi <= j < es.len() ==> lex_lt(token@, #[trigger] es[j].0),
            decreases hi - lo,
        {
            let mid = lo + (hi - lo) / 2;
            match token_order(self.entries[mid].0.as_str(), token) {
                TokenOrder::Same => {
                    return Ok(mid);
                },
                TokenOrder::Before => {
                    proof {
                        assert forall|j: int| 0 <= j < mid + 1 implies lex_lt(
                            #[trigger] es[j].0,
                            token@,
                        ) by {
                            if j < mid {
                                lemma_lex_transitive(es[j].0, es[mid as int].0, token@);
                            }
                        }
                    }
                    lo = mid + 1;
                },
                TokenOrder::After => {
                    proof {
                        assert forall|j: int| mid <= j < es.len() implies lex_lt(
                            token@,
                            #[trigger] es[j].0,
                        ) by {
                            if mid < j {
                                lemma_lex_transitive(token@, es[mid as int].0, es[j].0);
                            }
                        }
                    }
                    hi = mid;
                },
            }
        }
        Err(lo)
    }

    /// Whether the token is in the vocabulary.
    pub fn contains(&self, token: &str) -> (r: bool)
        requires
            self.wf(),
        ensures
            r == self@.contains_key(token@),
    {
        match self.search(token) {
            Ok(i) => {
                proof {
                    lemma_entry_in_map(self.entries(), i as int);
                }
                true
            },
            Err(i) => {
                proof {
                    lemma_gap_is_absent(self.entries(), token@, i as int);
                }
                false
            },
        }
    }

    /// The id of the token, if it is in the vocabulary.
    pub fn get(&self, token: &str) -> (r: Option<u32>)
        requires
            self.wf(),
        ensures
            r == (if self@.contains_key(token@) {
                Some(self@[token@])
            } else {
                None
            }),
    {
        match self.search(token) {
            Ok(i) => {
                proof {
                    lemma_entry_in_map(self.entries(), i as int);
                }
                Some(self.entries[i].1)
            },
            Err(i) => {
                proof {
                    lemma_gap_is_absent(self.entries(), token@, i as int);
                }
                None
            },
        }
    }

    /// Gives the token the id, whether or not it had one.
    pub fn insert(&mut self, token: String, id: u32)
        requires
            old(self).wf(),
        ensures
            final(self).wf(),
            final(self)@ == old(self)@.insert(token@, id),
            final(self).entries().len() == old(self).entries().len() + (if old(self)@.contains_key(
                token@,
            ) {
                0int
            } else {
                1int
            }),
    {
        let ghost es = self.entries();
        match self.search(token.as_str()) {
            Ok(i) => {
                self.entries.set(i, (token, id));
                proof {
                    lemma_entry_in_map(es, i as int);
                    lemma_update_entry(es, id, i as int);
                    assert(self.entries() =~= es.update(i as int, (es[i as int].0, id)));
                }
            },
            Err(i) => {
                self.entries.insert(i, (token, id));
                proof {
                    lemma_gap_is_absent(es, token@, i as int);
                    lemma_insert_entry(es, token@, id, i as int);
                    assert(self.entries() =~= es.insert(i as int, (token@, id)));
                }
            },
        }
    }

    /// Takes the token out, and returns the id that it had.
    pub fn remove(&mut self, token: &str) -> (r: Option<u32>)
        requires
            old(self).wf(),
        ensures
            final(self).wf(),
            final(self)@ == old(self)@.remove(token@),
            r == (if old(self)@.contains_key(token@) {
                Some(old(self)@[token@])
            } else {
                None
            }),
            final(self).entries().len() == old(self).entries().len() - (if old(self)@.contains_key(
                token@,
            ) {
                1int
            } else {
                0int
            }),
    {
        let ghost es = self.entries();
        match self.search(token) {
            Ok(i) => {
                let e = self.entries.remove(i);
                proof {
                    lemma_entry_in_map(es, i as int);
                    lemma_remove_entry(es, i as int);
                    assert(self.entries() =~= es.remove(i as int));
                }
                Some(e.1)
            },
            Err(i) => {
                proof {
                    lemma_gap_is_absent(es, token@, i as int);
                    assert(self@ =~= old(self)@.remove(token@));
                }
                None
            },
        }
    }

    /// Gives the entry at position `i` another id.
    pub fn set_id_at(&mut self, i: usize, id: u32)
        requires
            old(self).wf(),
            i < old(self).entries().len(),
        ensures
            final(self).wf(),
            final(self).entries() == old(self).entries().update(
                i as int,
                (old(self).entries()[i as int].0, id),
            ),
            final(self)@ == old(self)@.insert(old(self).entries()[i as int].0, id),
    {
        let ghost es = self.entries();
        let token = self.entries[i].0.clone();
        self.entries.set(i, (token, id));
        proof {
            lemma_update_entry(es, id, i as int);
            assert(self.entries() =~= es.update(i as int, (es[i as int].0, id)));
        }
    }
}

} // verus!
