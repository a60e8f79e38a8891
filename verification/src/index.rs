//! The dependency index over a merge list: which merge produces a token, and
//! which merges use it. It is derived from the list and rebuilt after each change.

use vstd::prelude::*;
use vstd::string::*;
use vstd::hash_map::StringHashMap;
use crate::tokenizer::{merge_pairs, Merge};

verus! {

/// The merge at index `i` produces the token.
pub open spec fn produces(m: Seq<(Seq<char>, Seq<char>)>, i: int, t: Seq<char>) -> bool {
    0 <= i < m.len() && m[i].0 + m[i].1 == t
}

/// The merge at index `i` has the token as its left or right operand.
pub open spec fn uses(m: Seq<(Seq<char>, Seq<char>)>, i: int, t: Seq<char>) -> bool {
    0 <= i < m.len() && (m[i].0 == t || m[i].1 == t)
}

/// The merge at index `i` is the first in the list that produces the token.
pub open spec fn is_first_producer(m: Seq<(Seq<char>, Seq<char>)>, t: Seq<char>, i: int) -> bool {
    &&& produces(m, i, t)
    &&& forall|j: int| 0 <= j < i ==> !produces(m, j, t)
}

/// For every merge of a list, the first merge that produces the same token
/// stands at or before it.
pub proof fn lemma_first_producer_exists(m: Seq<(Seq<char>, Seq<char>)>, i: int)
    requires
        0 <= i < m.len(),
    ensures
        exists|j: int| 0 <= j <= i && #[trigger] is_first_producer(m, m[i].0 + m[i].1, j),
    decreases i,
{
    let t = m[i].0 + m[i].1;
    if exists|k: int| 0 <= k < i && produces(m, k, t) {
        let k = choose|k: int| 0 <= k < i && produces(m, k, t);
        lemma_first_producer_exists(m, k);
        let j = choose|j: int| 0 <= j <= k && #[trigger] is_first_producer(m, m[k].0 + m[k].1, j);
        assert(is_first_producer(m, t, j));
    } else {
        assert(is_first_producer(m, t, i));
    }
}

/// The list holds, in ascending order, the indices of the merges that use the token.
pub open spec fn lists_users(l: Seq<usize>, m: Seq<(Seq<char>, Seq<char>)>, t: Seq<char>) -> bool {
    &&& forall|a: int, b: int| 0 <= a < b < l.len() ==> l[a] < l[b]
    &&& forall|a: int| 0 <= a < l.len() ==> uses(m, #[trigger] l[a] as int, t)
    &&& forall|i: int| #[trigger] uses(m, i, t) ==> exists|a: int| 0 <= a < l.len() && l[a] == i
}

/// Operand `q` of the list, counting the left operand of merge `i` as `2i`
/// and its right operand as `2i + 1`, lies below the bound and is the token.
spec fn used_before(m: Seq<(Seq<char>, Seq<char>)>, q: int, i: int, t: Seq<char>) -> bool {
    0 <= i < m.len() && ((2 * i < q && m[i].0 == t) || (2 * i + 1 < q && m[i].1 == t))
}

spec fn lists_users_before(
    l: Seq<usize>,
    m: Seq<(Seq<char>, Seq<char>)>,
    q: int,
    t: Seq<char>,
) -> bool {
    &&& forall|a: int, b: int| 0 <= a < b < l.len() ==> l[a] < l[b]
    &&& forall|a: int| 0 <= a < l.len() ==> used_before(m, q, #[trigger] l[a] as int, t)
    &&& forall|i: int| #[trigger]
        used_before(m, q, i, t) ==> exists|a: int| 0 <= a < l.len() && l[a] == i
}

/// The index of a merge list.
pub struct DependencyIndex {
    producer: StringHashMap<usize>,
    slot: StringHashMap<usize>,
    users: Vec<Vec<usize>>,
    source: Ghost<Seq<(Seq<char>, Seq<char>)>>,
}

impl DependencyIndex {
    /// The merge list that the index was built from.
    pub closed spec fn merges(&self) -> Seq<(Seq<char>, Seq<char>)> {
        self.source@
    }

    /// The index holds the first producers among the first `p` merges of its list.
    spec fn producers_ok(&self, p: int) -> bool {
        let m = self.source@;
        &&& forall|t: Seq<char>| #[trigger]
            self.producer@.contains_key(t) <==> exists|i: int| 0 <= i < p && produces(m, i, t)
        &&& forall|t: Seq<char>| #[trigger]
            self.producer@.contains_key(t) ==> is_first_producer(m, t, self.producer@[t] as int)
    }

    /// Each token among the first `q` operands has a list of its own.
    spec fn slots_ok(&self, q: int) -> bool {
        let m = self.source@;
        &&& forall|t: Seq<char>| #[trigger]
            self.slot@.contains_key(t) <==> exists|i: int| used_before(m, q, i, t)
        &&& forall|t: Seq<char>| #[trigger]
            self.slot@.contains_key(t) ==> self.slot@[t] < self.users@.len()
        &&& forall|t1: Seq<char>, t2: Seq<char>|
            #![trigger self.slot@[t1], self.slot@[t2]]
            self.slot@.contains_key(t1) && self.slot@.contains_key(t2) && self.slot@[t1]
                == self.slot@[t2] ==> t1 == t2
    }

    /// The list of each token holds its uses among the first `q` operands.
    spec fn lists_ok(&self, q: int) -> bool {
        let m = self.source@;
        forall|t: Seq<char>| #[trigger]
            self.slot@.contains_key(t) ==> lists_users_before(
                self.users@[self.slot@[t] as int]@,
                m,
                q,
                t,
            )
    }

    /// The index holds the producers among the first `p` merges and the uses
    /// among the first `q` operands of its list.
    spec fn covers(&self, p: int, q: int) -> bool {
        &&& self.producers_ok(p)
        &&& self.slots_ok(q)
        &&& self.lists_ok(q)
    }

    /// The index reflects its merge list exactly.
    pub closed spec fn wf(&self) -> bool {
        self.covers(self.source@.len() as int, 2 * (self.source@.len() as int))
    }

    /// What `note_use` changes when the token has a list already.
    proof fn lemma_use_noted(
        before: DependencyIndex,
        after: DependencyIndex,
        token: Seq<char>,
        i: usize,
        p: int,
        q: int,
    )
        requires
            before.covers(p, q),
            0 <= i < before.source@.len(),
            q == 2 * i || q == 2 * i + 1,
            q == 2 * i ==> before.source@[i as int].0 == token,
            q == 2 * i + 1 ==> before.source@[i as int].1 == token,
            after.source@ == before.source@,
            after.producer@ == before.producer@,
            after.slot@ == before.slot@,
            before.slot@.contains_key(token),
            after.users@.len() == before.users@.len(),
            forall|k: int|
                0 <= k < before.users@.len() && k != before.slot@[token] ==> after.users@[k]
                    == before.users@[k],
            ({
                let l = before.users@[before.slot@[token] as int]@;
                let nl = after.users@[before.slot@[token] as int]@;
                if l.len() > 0 && l.last() == i {
                    nl == l
                } else {
                    nl == l.push(i)
                }
            }),
        ensures
            after.covers(p, q + 1),
    {
        let m = before.source@;
        let q1 = q + 1;
        let s = before.slot@[token];
        let l = before.users@[s as int]@;
        let nl = after.users@[s as int]@;
        assert(forall|j: int, t: Seq<char>| #[trigger]
            used_before(m, q1, j, t) <==> (used_before(m, q, j, t) || (j == i as int && t == token)));
        assert(before.producers_ok(p));
        assert(before.slots_ok(q));
        assert(before.lists_ok(q));
        assert(after.producers_ok(p));
        assert(used_before(m, q1, i as int, token));
        assert forall|t: Seq<char>| #[trigger]
            after.slot@.contains_key(t) <==> exists|j: int| used_before(m, q1, j, t) by {
            if after.slot@.contains_key(t) {
                if t != token {
                    let j = choose|j: int| used_before(m, q, j, t);
                    assert(used_before(m, q1, j, t));
                }
            }
            if exists|j: int| used_before(m, q1, j, t) {
                let j = choose|j: int| used_before(m, q1, j, t);
                if t != token {
                    assert(used_before(m, q, j, t));
                }
            }
        }
        assert(after.slots_ok(q1));
        assert(lists_users_before(l, m, q, token));
        assert forall|a: int| 0 <= a < l.len() implies l[a] <= i by {
            assert(used_before(m, q, l[a] as int, token));
        }
        assert forall|t: Seq<char>| #[trigger]
            after.slot@.contains_key(t) implies lists_users_before(
            after.users@[after.slot@[t] as int]@,
            m,
            q1,
            t,
        ) by {
            if t != token {
                let lt = before.users@[before.slot@[t] as int]@;
                assert(before.slot@[t] != s);
                assert(after.users@[after.slot@[t] as int]@ == lt);
                assert(lists_users_before(lt, m, q, t));
                assert forall|a: int| 0 <= a < lt.len() implies used_before(
                    m,
                    q1,
                    #[trigger] lt[a] as int,
                    t,
                ) by {
                    assert(used_before(m, q, lt[a] as int, t));
                }
                assert(lists_users_before(lt, m, q1, t));
            } else {
                assert forall|a: int| 0 <= a < nl.len() implies used_before(
                    m,
                    q1,
                    #[trigger] nl[a] as int,
                    token,
                ) by {
                    if a < l.len() {
                        assert(nl[a] == l[a]);
                        assert(used_before(m, q, l[a] as int, token));
                    }
                }
                assert forall|a: int, b: int| 0 <= a < b < nl.len() implies nl[a] < nl[b] by {
                    if b >= l.len() {
                        assert(nl[a] == l[a]);
                        assert(l[a] <= l.last());
                    } else {
                        assert(nl[a] == l[a] && nl[b] == l[b]);
                    }
                }
                assert forall|j: int| #[trigger] used_before(m, q1, j, token) implies exists|
                    a: int,
                | 0 <= a < nl.len() && nl[a] == j by {
                    if j == i {
                        assert(nl[nl.len() - 1] == j);
                    } else {
                        assert(used_before(m, q, j, token));
                        let a = choose|a: int| 0 <= a < l.len() && l[a] == j;
                        assert(nl[a] == j);
                    }
                }
            }
        }
        assert(after.lists_ok(q1));
    }

    /// What `note_use` changes when the token gets its first list.
    proof fn lemma_first_use_noted(
        before: DependencyIndex,
        after: DependencyIndex,
        token: Seq<char>,
        i: usize,
        p: int,
        q: int,
        at: usize,
    )
        requires
            before.covers(p, q),
            0 <= i < before.source@.len(),
            q == 2 * i || q == 2 * i + 1,
            q == 2 * i ==> before.source@[i as int].0 == token,
            q == 2 * i + 1 ==> before.source@[i as int].1 == token,
            after.source@ == before.source@,
            after.producer@ == before.producer@,
            !before.slot@.contains_key(token),
            at == before.users@.len(),
            after.slot@ == before.slot@.insert(token, at),
            after.users@.len() == before.users@.len() + 1,
            forall|k: int| 0 <= k < before.users@.len() ==> after.users@[k] == before.users@[k],
            after.users@[at as int]@ == seq![i],
        ensures
            after.covers(p, q + 1),
    {
        let m = before.source@;
        let q1 = q + 1;
        assert(forall|j: int, t: Seq<char>| #[trigger]
            used_before(m, q1, j, t) <==> (used_before(m, q, j, t) || (j == i as int && t == token)));
        assert(before.producers_ok(p));
        assert(before.slots_ok(q));
        assert(before.lists_ok(q));
        assert(after.producers_ok(p));
        assert(used_before(m, q1, i as int, token));
        assert forall|t: Seq<char>| #[trigger]
            after.slot@.contains_key(t) <==> exists|j: int| used_before(m, q1, j, t) by {
            if after.slot@.contains_key(t) {
                if t != token {
                    assert(before.slot@.contains_key(t));
                    let j = choose|j: int| used_before(m, q, j, t);
                    assert(used_before(m, q1, j, t));
                }
            }
            if exists|j: int| used_before(m, q1, j, t) {
                let j = choose|j: int| used_before(m, q1, j, t);
                if t != token {
                    assert(used_before(m, q, j, t));
                    assert(before.slot@.contains_key(t));
                }
            }
        }
        assert forall|t: Seq<char>| #[trigger] after.slot@.contains_key(t) implies after.slot@[t]
            < after.users@.len() by {
            if t != token {
                assert(before.slot@.contains_key(t));
            }
        }
        assert forall|t1: Seq<char>, t2: Seq<char>|
            #![trigger after.slot@[t1], after.slot@[t2]]
            after.slot@.contains_key(t1) && after.slot@.contains_key(t2) && after.slot@[t1]
                == after.slot@[t2] implies t1 == t2 by {
            if t1 != token {
                assert(before.slot@.contains_key(t1));
            }
            if t2 != token {
                assert(before.slot@.contains_key(t2));
            }
        }
        assert(after.slots_ok(q1));
        assert forall|t: Seq<char>| #[trigger]
            after.slot@.contains_key(t) implies lists_users_before(
            after.users@[after.slot@[t] as int]@,
            m,
            q1,
            t,
        ) by {
            if t != token {
                assert(before.slot@.contains_key(t));
                let lt = before.users@[before.slot@[t] as int]@;
                assert(after.users@[after.slot@[t] as int]@ == lt);
                assert(lists_users_before(lt, m, q, t));
                assert forall|a: int| 0 <= a < lt.len() implies used_before(
                    m,
                    q1,
                    #[trigger] lt[a] as int,
                    t,
                ) by {
                    assert(used_before(m, q, lt[a] as int, t));
                }
                assert(lists_users_before(lt, m, q1, t));
            } else {
                let nl = after.users@[at as int]@;
                assert(nl[0] == i);
                assert forall|j: int| #[trigger] used_before(m, q1, j, token) implies exists|
                    a: int,
                | 0 <= a < nl.len() && nl[a] == j by {
                    if j != i {
                        assert(used_before(m, q, j, token));
                    }
                    assert(nl[0] == j);
                }
            }
        }
        assert(after.lists_ok(q1));
    }

    /// Notes that operand `q` of the list, which belongs to merge `i`, is the token.
    fn note_use(&mut self, token: &str, i: usize, Ghost(p): Ghost<int>, Ghost(q): Ghost<int>)
        requires
            old(self).covers(p, q),
            i < old(self).source@.len(),
            q == 2 * i || q == 2 * i + 1,
            q == 2 * i ==> old(self).source@[i as int].0 == token@,
            q == 2 * i + 1 ==> old(self).source@[i as int].1 == token@,
        ensures
            final(self).covers(p, q + 1),
            final(self).source@ == old(self).source@,
    {
        let ghost before = *self;
        match self.slot.get(token) {
            Some(s) => {
                let s: usize = *s;
                assert(before.slots_ok(q));
                let n = self.users[s].len();
                if n == 0 || self.users[s][n - 1] != i {
                    self.users[s].push(i);
                }
                proof {
                    Self::lemma_use_noted(before, *self, token@, i, p, q);
                }
            },
            None => {
                let at = self.users.len();
                let mut l: Vec<usize> = Vec::new();
                l.push(i);
                self.slot.insert(String::from_str(token), at);
                self.users.push(l);
                proof {
                    assert(self.users@[at as int]@ =~= seq![i]);
                    Self::lemma_first_use_noted(before, *self, token@, i, p, q, at);
                }
            },
        }
    }

    /// What `build` changes when it notes what merge `i` produces.
    proof fn lemma_producer_noted(before: DependencyIndex, after: DependencyIndex, i: usize)
        requires
            before.covers(i as int, 2 * i),
            i < before.source@.len(),
            after.source@ == before.source@,
            after.slot@ == before.slot@,
            after.users@ == before.users@,
            ({
                let t = before.source@[i as int].0 + before.source@[i as int].1;
                if before.producer@.contains_key(t) {
                    after.producer@ == before.producer@
                } else {
                    after.producer@ == before.producer@.insert(t, i)
                }
            }),
        ensures
            after.covers(i + 1, 2 * i),
    {
        let m = before.source@;
        let product = m[i as int].0 + m[i as int].1;
        assert(before.producers_ok(i as int));
        assert(before.slots_ok(2 * i));
        assert(before.lists_ok(2 * i));
        assert(produces(m, i as int, product));
        assert forall|t: Seq<char>| #[trigger]
            after.producer@.contains_key(t) <==> exists|j: int|
                0 <= j < i + 1 && produces(m, j, t) by {
            if before.producer@.contains_key(t) {
                let j = choose|j: int| 0 <= j < i && produces(m, j, t);
                assert(0 <= j < i + 1 && produces(m, j, t));
            }
            if exists|j: int| 0 <= j < i + 1 && produces(m, j, t) {
                let j = choose|j: int| 0 <= j < i + 1 && produces(m, j, t);
                if j < i {
                    assert(before.producer@.contains_key(t));
                }
            }
        }
        assert forall|t: Seq<char>| #[trigger]
            after.producer@.contains_key(t) implies is_first_producer(
            m,
            t,
            after.producer@[t] as int,
        ) by {
            if before.producer@.contains_key(t) {
                assert(is_first_producer(m, t, before.producer@[t] as int));
            } else {
                assert(t == product);
                assert forall|j: int| 0 <= j < i implies !produces(m, j, t) by {}
            }
        }
        assert(after.producers_ok(i + 1));
        assert(after.slots_ok(2 * i));
        assert(after.lists_ok(2 * i));
    }

    /// Builds the index of a merge list.
    pub fn build(merges: &Vec<Merge>) -> (r: DependencyIndex)
        ensures
            r.wf(),
            r.merges() == merge_pairs(merges@),
    {
        let ghost m = merge_pairs(merges@);
        let mut index = DependencyIndex {
            producer: StringHashMap::new(),
            slot: StringHashMap::new(),
            users: Vec::new(),
            source: Ghost(m),
        };
        let mut i: usize = 0;
        while i < merges.len()
            invariant
                i <= merges.len(),
                m == merge_pairs(merges@),
                index.source@ == m,
                index.covers(i as int, 2 * i),
            decreases merges.len() - i,
        {
            let merge = &merges[i];
            assert(m[i as int] == merge.pair());
            let product = merge.result();
            let ghost before = index;
            if !index.producer.contains_key(product.as_str()) {
                index.producer.insert(product, i);
            }
            proof {
                Self::lemma_producer_noted(before, index, i);
            }
            index.note_use(merge.0.as_str(), i, Ghost(i + 1), Ghost(2 * i));
            index.note_use(merge.1.as_str(), i, Ghost(i + 1), Ghost(2 * i + 1));
            i = i + 1;
        }
        index
    }

    /// The first merge that produces the token, if any does.
    pub fn producer(&self, token: &str) -> (r: Option<usize>)
        requires
            self.wf(),
        ensures
            match r {
                Some(i) => is_first_producer(self.merges(), token@, i as int),
                None => forall|i: int| !produces(self.merges(), i, token@),
            },
    {
        match self.producer.get(token) {
            Some(i) => Some(*i),
            None => None,
        }
    }

    /// The merges that use the token, if any does.
    pub fn users(&self, token: &str) -> (r: Option<&Vec<usize>>)
        requires
            self.wf(),
        ensures
            match r {
                Some(l) => l@.len() > 0 && lists_users(l@, self.merges(), token@),
                None => forall|i: int| !uses(self.merges(), i, token@),
            },
    {
        let ghost m = self.source@;
        let ghost q: int = 2 * (m.len() as int);
        assert(forall|j: int, t: Seq<char>| #[trigger] used_before(m, q, j, t) <==> uses(m, j, t));
        match self.slot.get(token) {
            Some(s) => {
                let l = &self.users[*s];
                proof {
                    assert(lists_users_before(l@, m, q, token@));
                    let j = choose|j: int| used_before(m, q, j, token@);
                    assert(uses(m, j, token@));
                    assert forall|a: int| 0 <= a < l@.len() implies uses(
                        m,
                        #[trigger] l@[a] as int,
                        token@,
                    ) by {
                        assert(used_before(m, q, l@[a] as int, token@));
                    }
                    assert forall|i: int| #[trigger] uses(m, i, token@) implies exists|a: int|
                        0 <= a < l@.len() && l@[a] == i by {
                        assert(used_before(m, q, i, token@));
                    }
                }
                Some(l)
            },
            None => {
                proof {
                    assert forall|i: int| !uses(m, i, token@) by {
                        if uses(m, i, token@) {
                            assert(used_before(m, q, i, token@));
                        }
                    }
                }
                None
            },
        }
    }
}

} // verus!
