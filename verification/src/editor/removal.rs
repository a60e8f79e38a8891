//! Cascade removal: a token leaves together with all that was built from it.

use vstd::prelude::*;
use vstd::string::*;
use vstd::hash_set::StringHashSet;
use crate::editor::{BPETokenizerEditor, GraphView};
use crate::index::{lists_users, uses};
use crate::tokenizer::{merge_pairs, Merge};
use crate::types::{pair_views, token_views, RemovalResult};

verus! {

/// With an operand of a merge the set holds what the merge produces.
pub open spec fn cascade_closed(m: Seq<(Seq<char>, Seq<char>)>, s: Set<Seq<char>>) -> bool {
    forall|i: int|
        #![trigger m[i]]
        0 <= i < m.len() && (s.contains(m[i].0) || s.contains(m[i].1)) ==> s.contains(
            m[i].0 + m[i].1,
        )
}

/// The tokens that leave with `root`: the least set that holds `root` and,
/// with an operand of a merge, what the merge produces.
pub open spec fn cascade_set(m: Seq<(Seq<char>, Seq<char>)>, root: Seq<char>) -> Set<Seq<char>> {
    Set::new(
        |t: Seq<char>|
            forall|s: Set<Seq<char>>|
                s.contains(root) && #[trigger] cascade_closed(m, s) ==> s.contains(t),
    )
}

/// An operand of the merge, or what it produces, is in the set.
pub open spec fn touches(pair: (Seq<char>, Seq<char>), s: Set<Seq<char>>) -> bool {
    s.contains(pair.0) || s.contains(pair.1) || s.contains(pair.0 + pair.1)
}

/// The ids that the tokens of the set have in the vocabulary.
pub open spec fn ids_of(vocab: Map<Seq<char>, u32>, s: Set<Seq<char>>) -> Set<u32> {
    Set::new(
        |i: u32| exists|t: Seq<char>| s.contains(t) && #[trigger] vocab.contains_key(t) && vocab[t] == i,
    )
}

/// The test for a merge that stays when the tokens of `gone` leave.
pub open spec fn stays(gone: Set<Seq<char>>) -> spec_fn((Seq<char>, Seq<char>)) -> bool {
    |p: (Seq<char>, Seq<char>)| !touches(p, gone)
}

/// The test for a merge that leaves with the tokens of `gone`.
pub open spec fn leaves(gone: Set<Seq<char>>) -> spec_fn((Seq<char>, Seq<char>)) -> bool {
    |p: (Seq<char>, Seq<char>)| touches(p, gone)
}

/// The graph after the cascade removal of `root`: the tokens of the cascade
/// set are out of the vocabulary and their ids are released, and every merge
/// that has one of them as an operand or produces one is out of the list.
pub open spec fn without_token(g: GraphView, root: Seq<char>) -> GraphView {
    let gone = cascade_set(g.merges, root);
    GraphView {
        vocab: g.vocab.remove_keys(gone),
        merges: g.merges.filter(stays(gone)),
        used: g.used.difference(ids_of(g.vocab, gone)),
        next_id: g.next_id,
    }
}

/// The cascade set holds its root and is closed.
pub proof fn lemma_cascade_set_closed(m: Seq<(Seq<char>, Seq<char>)>, root: Seq<char>)
    ensures
        cascade_set(m, root).contains(root),
        cascade_closed(m, cascade_set(m, root)),
{
    let cs = cascade_set(m, root);
    assert forall|i: int|
        #![trigger m[i]]
        0 <= i < m.len() && (cs.contains(m[i].0) || cs.contains(m[i].1)) implies cs.contains(
        m[i].0 + m[i].1,
    ) by {
        assert forall|s: Set<Seq<char>>|
            s.contains(root) && #[trigger] cascade_closed(m, s) implies s.contains(
            m[i].0 + m[i].1,
        ) by {
            assert(s.contains(m[i].0) || s.contains(m[i].1));
        }
    }
}

/// How many marks are set.
pub open spec fn count_true(s: Seq<bool>) -> nat
    decreases s.len(),
{
    if s.len() == 0 {
        0
    } else {
        count_true(s.drop_last()) + if s.last() {
            1nat
        } else {
            0nat
        }
    }
}

proof fn lemma_count_bound(s: Seq<bool>)
    ensures
        count_true(s) <= s.len(),
    decreases s.len(),
{
    if s.len() > 0 {
        lemma_count_bound(s.drop_last());
    }
}

proof fn lemma_count_none(s: Seq<bool>)
    requires
        forall|i: int| 0 <= i < s.len() ==> !s[i],
    ensures
        count_true(s) == 0,
    decreases s.len(),
{
    if s.len() > 0 {
        lemma_count_none(s.drop_last());
    }
}

proof fn lemma_count_set(s: Seq<bool>, i: int)
    requires
        0 <= i < s.len(),
        !s[i],
    ensures
        count_true(s.update(i, true)) == count_true(s) + 1,
    decreases s.len(),
{
    let n = s.update(i, true);
    if i == s.len() - 1 {
        assert(n.drop_last() =~= s.drop_last());
    } else {
        lemma_count_set(s.drop_last(), i);
        assert(n.drop_last() =~= s.drop_last().update(i, true));
    }
}

/// What holds of the worklist between two tokens: `r` holds the tokens
/// marked as removed, `pend` those that wait.
spec fn worklist_inv(
    m: Seq<(Seq<char>, Seq<char>)>,
    root: Seq<char>,
    r: Set<Seq<char>>,
    pend: Seq<Seq<char>>,
    marked: Seq<bool>,
) -> bool {
    let cs = cascade_set(m, root);
    &&& marked.len() == m.len()
    &&& forall|t: Seq<char>| r.contains(t) ==> cs.contains(t)
    &&& forall|k: int| 0 <= k < pend.len() ==> cs.contains(#[trigger] pend[k])
    &&& r.contains(root) || pend.contains(root)
    &&& forall|i: int|
        #![trigger m[i]]
        0 <= i < m.len() && (r.contains(m[i].0) || r.contains(m[i].1)) ==> r.contains(
            m[i].0 + m[i].1,
        ) || pend.contains(m[i].0 + m[i].1)
    &&& forall|i: int|
        #![trigger marked[i]]
        0 <= i < m.len() && marked[i] ==> (r.contains(m[i].0) || r.contains(m[i].1)) && (r.contains(
            m[i].0 + m[i].1,
        ) || pend.contains(m[i].0 + m[i].1))
}

/// What holds while the merges that use `t` are gone through: `r` holds the
/// tokens marked before `t`, and the first `k` merges of `l` are done.
spec fn worklist_mid(
    m: Seq<(Seq<char>, Seq<char>)>,
    root: Seq<char>,
    r: Set<Seq<char>>,
    t: Seq<char>,
    pend: Seq<Seq<char>>,
    marked: Seq<bool>,
    l: Seq<usize>,
    k: int,
) -> bool {
    let cs = cascade_set(m, root);
    let r2 = r.insert(t);
    &&& marked.len() == m.len()
    &&& cs.contains(t)
    &&& forall|x: Seq<char>| r.contains(x) ==> cs.contains(x)
    &&& forall|j: int| 0 <= j < pend.len() ==> cs.contains(#[trigger] pend[j])
    &&& r2.contains(root) || pend.contains(root)
    &&& forall|i: int|
        #![trigger m[i]]
        0 <= i < m.len() && (r.contains(m[i].0) || r.contains(m[i].1)) ==> r2.contains(
            m[i].0 + m[i].1,
        ) || pend.contains(m[i].0 + m[i].1)
    &&& forall|a: int|
        #![trigger l[a]]
        0 <= a < k && a < l.len() && l[a] < m.len() ==> r2.contains(
            m[l[a] as int].0 + m[l[a] as int].1,
        ) || pend.contains(m[l[a] as int].0 + m[l[a] as int].1)
    &&& forall|i: int|
        #![trigger marked[i]]
        0 <= i < m.len() && marked[i] ==> (r2.contains(m[i].0) || r2.contains(m[i].1)) && (
        r2.contains(m[i].0 + m[i].1) || pend.contains(m[i].0 + m[i].1))
}

proof fn lemma_worklist_start(m: Seq<(Seq<char>, Seq<char>)>, root: Seq<char>, marked: Seq<bool>)
    requires
        marked.len() == m.len(),
        forall|i: int| 0 <= i < marked.len() ==> !marked[i],
    ensures
        worklist_inv(m, root, Set::empty(), seq![root], marked),
{
    lemma_cascade_set_closed(m, root);
    assert(seq![root][0] == root);
}

proof fn lemma_worklist_skip(
    m: Seq<(Seq<char>, Seq<char>)>,
    root: Seq<char>,
    r: Set<Seq<char>>,
    pend: Seq<Seq<char>>,
    marked: Seq<bool>,
)
    requires
        worklist_inv(m, root, r, pend, marked),
        pend.len() > 0,
        r.contains(pend.last()),
    ensures
        worklist_inv(m, root, r, pend.drop_last(), marked),
{
    let rest = pend.drop_last();
    assert forall|x: Seq<char>| pend.contains(x) implies rest.contains(x) || x == pend.last() by {
        let k = choose|k: int| 0 <= k < pend.len() && pend[k] == x;
        if k < pend.len() - 1 {
            assert(rest[k] == x);
        }
    }
    assert forall|k: int| 0 <= k < rest.len() implies cascade_set(m, root).contains(
        #[trigger] rest[k],
    ) by {
        assert(rest[k] == pend[k]);
    }
}

proof fn lemma_worklist_take(
    m: Seq<(Seq<char>, Seq<char>)>,
    root: Seq<char>,
    r: Set<Seq<char>>,
    pend: Seq<Seq<char>>,
    marked: Seq<bool>,
    l: Seq<usize>,
)
    requires
        worklist_inv(m, root, r, pend, marked),
        pend.len() > 0,
        !r.contains(pend.last()),
    ensures
        worklist_mid(m, root, r, pend.last(), pend.drop_last(), marked, l, 0),
{
    let rest = pend.drop_last();
    let t = pend.last();
    assert(cascade_set(m, root).contains(pend[pend.len() - 1]));
    assert forall|x: Seq<char>| pend.contains(x) implies rest.contains(x) || x == t by {
        let k = choose|k: int| 0 <= k < pend.len() && pend[k] == x;
        if k < pend.len() - 1 {
            assert(rest[k] == x);
        }
    }
    assert forall|k: int| 0 <= k < rest.len() implies cascade_set(m, root).contains(
        #[trigger] rest[k],
    ) by {
        assert(rest[k] == pend[k]);
    }
}

proof fn lemma_worklist_seen(
    m: Seq<(Seq<char>, Seq<char>)>,
    root: Seq<char>,
    r: Set<Seq<char>>,
    t: Seq<char>,
    pend: Seq<Seq<char>>,
    marked: Seq<bool>,
    l: Seq<usize>,
    k: int,
)
    requires
        worklist_mid(m, root, r, t, pend, marked, l, k),
        0 <= k < l.len(),
        l[k] < m.len(),
        marked[l[k] as int],
    ensures
        worklist_mid(m, root, r, t, pend, marked, l, k + 1),
{
}

proof fn lemma_worklist_push(
    m: Seq<(Seq<char>, Seq<char>)>,
    root: Seq<char>,
    r: Set<Seq<char>>,
    t: Seq<char>,
    pend: Seq<Seq<char>>,
    marked: Seq<bool>,
    l: Seq<usize>,
    k: int,
)
    requires
        worklist_mid(m, root, r, t, pend, marked, l, k),
        0 <= k < l.len(),
        uses(m, l[k] as int, t),
    ensures
        worklist_mid(
            m,
            root,
            r,
            t,
            pend.push(m[l[k] as int].0 + m[l[k] as int].1),
            marked.update(l[k] as int, true),
            l,
            k + 1,
        ),
{
    let i = l[k] as int;
    let product = m[i].0 + m[i].1;
    let pend2 = pend.push(product);
    let marked2 = marked.update(i, true);
    lemma_cascade_set_closed(m, root);
    let cs = cascade_set(m, root);
    assert(cs.contains(m[i].0) || cs.contains(m[i].1));
    assert(cs.contains(product));
    assert(pend2[pend.len() as int] == product);
    assert forall|x: Seq<char>| pend.contains(x) implies pend2.contains(x) by {
        let j = choose|j: int| 0 <= j < pend.len() && pend[j] == x;
        assert(pend2[j] == x);
    }
    assert forall|j: int| 0 <= j < pend2.len() implies cs.contains(#[trigger] pend2[j]) by {
        if j < pend.len() {
            assert(pend2[j] == pend[j]);
        }
    }
    let r2 = r.insert(t);
    assert forall|a: int|
        #![trigger l[a]]
        0 <= a < k + 1 && a < l.len() && l[a] < m.len() implies r2.contains(
        m[l[a] as int].0 + m[l[a] as int].1,
    ) || pend2.contains(m[l[a] as int].0 + m[l[a] as int].1) by {}
    assert forall|j: int|
        #![trigger marked2[j]]
        0 <= j < m.len() && marked2[j] implies (r2.contains(m[j].0) || r2.contains(m[j].1)) && (
        r2.contains(m[j].0 + m[j].1) || pend2.contains(m[j].0 + m[j].1)) by {
        if j != i {
            assert(marked[j]);
        }
    }
}

proof fn lemma_worklist_done(
    m: Seq<(Seq<char>, Seq<char>)>,
    root: Seq<char>,
    r: Set<Seq<char>>,
    t: Seq<char>,
    pend: Seq<Seq<char>>,
    marked: Seq<bool>,
    l: Seq<usize>,
)
    requires
        worklist_mid(m, root, r, t, pend, marked, l, l.len() as int),
        lists_users(l, m, t),
    ensures
        worklist_inv(m, root, r.insert(t), pend, marked),
{
    let r2 = r.insert(t);
    assert forall|i: int|
        #![trigger m[i]]
        0 <= i < m.len() && (r2.contains(m[i].0) || r2.contains(m[i].1)) implies r2.contains(
        m[i].0 + m[i].1,
    ) || pend.contains(m[i].0 + m[i].1) by {
        if !(r.contains(m[i].0) || r.contains(m[i].1)) {
            assert(uses(m, i, t));
            let a = choose|a: int| 0 <= a < l.len() && l[a] == i;
            assert(l[a] < m.len());
        }
    }
}

proof fn lemma_worklist_end(
    m: Seq<(Seq<char>, Seq<char>)>,
    root: Seq<char>,
    r: Set<Seq<char>>,
    marked: Seq<bool>,
)
    requires
        worklist_inv(m, root, r, Seq::empty(), marked),
    ensures
        r == cascade_set(m, root),
{
    let cs = cascade_set(m, root);
    let none = Seq::<Seq<char>>::empty();
    assert forall|x: Seq<char>| !none.contains(x) by {}
    assert(cascade_closed(m, r)) by {
        assert forall|i: int|
            #![trigger m[i]]
            0 <= i < m.len() && (r.contains(m[i].0) || r.contains(m[i].1)) implies r.contains(
            m[i].0 + m[i].1,
        ) by {
            assert(!none.contains(m[i].0 + m[i].1));
        }
    }
    assert(!none.contains(root));
    assert(r =~= cs);
}

/// After a cascade removal no merge of the list has a removed token as an
/// operand or produces one, and no removed token is in the vocabulary.
pub proof fn lemma_removal_closure(g: GraphView, root: Seq<char>)
    ensures
        forall|j: int|
            0 <= j < without_token(g, root).merges.len() ==> !touches(
                #[trigger] without_token(g, root).merges[j],
                cascade_set(g.merges, root),
            ),
        forall|t: Seq<char>|
            cascade_set(g.merges, root).contains(t) ==> !without_token(g, root).vocab.contains_key(t),
        !without_token(g, root).vocab.contains_key(root),
{
    crate::seqs::lemma_filter_kept(g.merges, stays(cascade_set(g.merges, root)));
    lemma_cascade_set_closed(g.merges, root);
}

proof fn lemma_release_step(
    vocab: Map<Seq<char>, u32>,
    used: Set<u32>,
    done: Set<Seq<char>>,
    t: Seq<char>,
)
    requires
        !done.contains(t),
    ensures
        vocab.remove_keys(done).remove(t) == vocab.remove_keys(done.insert(t)),
        vocab.contains_key(t) ==> used.difference(ids_of(vocab, done)).remove(vocab[t])
            == used.difference(ids_of(vocab, done.insert(t))),
        !vocab.contains_key(t) ==> ids_of(vocab, done) == ids_of(vocab, done.insert(t)),
        vocab.remove_keys(done).contains_key(t) == vocab.contains_key(t),
        vocab.contains_key(t) ==> vocab.remove_keys(done)[t] == vocab[t],
{
    let done2 = done.insert(t);
    assert(vocab.remove_keys(done).remove(t) =~= vocab.remove_keys(done2));
    if vocab.contains_key(t) {
        let id = vocab[t];
        assert forall|i: u32| ids_of(vocab, done2).contains(i) <==> (ids_of(vocab, done).contains(
            i,
        ) || i == id) by {
            if ids_of(vocab, done2).contains(i) {
                let x = choose|x: Seq<char>|
                    done2.contains(x) && #[trigger] vocab.contains_key(x) && vocab[x] == i;
                if x != t {
                    assert(done.contains(x) && vocab.contains_key(x) && vocab[x] == i);
                }
            }
            if ids_of(vocab, done).contains(i) {
                let x = choose|x: Seq<char>|
                    done.contains(x) && #[trigger] vocab.contains_key(x) && vocab[x] == i;
                assert(done2.contains(x) && vocab.contains_key(x) && vocab[x] == i);
            }
            if i == id {
                assert(done2.contains(t) && vocab.contains_key(t) && vocab[t] == i);
            }
        }
        assert(used.difference(ids_of(vocab, done)).remove(id) =~= used.difference(
            ids_of(vocab, done2),
        ));
    } else {
        assert forall|i: u32| ids_of(vocab, done2).contains(i) <==> ids_of(vocab, done).contains(
            i,
        ) by {
            if ids_of(vocab, done2).contains(i) {
                let x = choose|x: Seq<char>|
                    done2.contains(x) && #[trigger] vocab.contains_key(x) && vocab[x] == i;
                assert(done.contains(x) && vocab.contains_key(x) && vocab[x] == i);
            }
            if ids_of(vocab, done).contains(i) {
                let x = choose|x: Seq<char>|
                    done.contains(x) && #[trigger] vocab.contains_key(x) && vocab[x] == i;
                assert(done2.contains(x) && vocab.contains_key(x) && vocab[x] == i);
            }
        }
        assert(ids_of(vocab, done2) =~= ids_of(vocab, done));
    }
}

impl BPETokenizerEditor {
    /// The tokens that leave with `token`, as a set and in the order in
    /// which they were found, and a mark on each merge through which one was found.
    fn cascade(&self, token: &str) -> (r: (StringHashSet, Vec<String>, Vec<bool>))
        requires
            self.index_fresh(),
        ensures
            r.0@ == cascade_set(self@.merges, token@),
            token_views(r.1@).to_set() == r.0@,
            token_views(r.1@).no_duplicates(),
            r.2@.len() == self@.merges.len(),
            forall|i: int|
                #![trigger r.2@[i]]
                0 <= i < r.2@.len() && r.2@[i] ==> touches(self@.merges[i], r.0@),
            r.1@.len() <= 1 + count_true(r.2@),
    {
        let ghost m = self@.merges;
        let ghost root = token@;
        let count = self.merges.len();
        let mut marked: Vec<bool> = Vec::new();
        while marked.len() < count
            invariant
                marked@.len() <= count,
                forall|i: int| 0 <= i < marked@.len() ==> !marked@[i],
            decreases count - marked@.len(),
        {
            marked.push(false);
        }
        let mut removed = StringHashSet::new();
        let mut order: Vec<String> = Vec::new();
        let mut stack: Vec<String> = Vec::new();
        stack.push(String::from_str(token));
        proof {
            lemma_worklist_start(m, root, marked@);
            lemma_count_none(marked@);
            assert(token_views(stack@) =~= seq![root]);
            assert(token_views(order@).to_set() =~= removed@);
        }
        while stack.len() > 0
            invariant
                self.index_fresh(),
                m == self@.merges,
                count == m.len(),
                worklist_inv(m, root, removed@, token_views(stack@), marked@),
                token_views(order@).to_set() == removed@,
                token_views(order@).no_duplicates(),
                order@.len() + stack@.len() <= 1 + count_true(marked@),
                count_true(marked@) <= count,
            decreases 2 * (count - count_true(marked@)) + stack@.len(),
        {
            let ghost pend = token_views(stack@);
            let ghost before = removed@;
            let ghost budget: int = 2 * (count - count_true(marked@)) + stack@.len();
            let t = stack.pop().unwrap();
            assert(pend.last() == t@);
            assert(token_views(stack@) =~= pend.drop_last());
            if removed.contains(t.as_str()) {
                proof {
                    lemma_worklist_skip(m, root, before, pend, marked@);
                }
            } else {
                removed.insert(t.clone());
                match self.index.users(t.as_str()) {
                    Some(l) => {
                        proof {
                            lemma_worklist_take(m, root, before, pend, marked@, l@);
                        }
                        let mut k: usize = 0;
                        while k < l.len()
                            invariant
                                self.index_fresh(),
                                m == self@.merges,
                                count == m.len(),
                                k <= l@.len(),
                                lists_users(l@, m, t@),
                                worklist_mid(
                                    m,
                                    root,
                                    before,
                                    t@,
                                    token_views(stack@),
                                    marked@,
                                    l@,
                                    k as int,
                                ),
                                order@.len() + stack@.len() + 1 <= 1 + count_true(marked@),
                                count_true(marked@) <= count,
                                2 * (count - count_true(marked@)) + stack@.len() < budget,
                            decreases l@.len() - k,
                        {
                            let mi = l[k];
                            assert(uses(m, l@[k as int] as int, t@));
                            if marked[mi] {
                                proof {
                                    lemma_worklist_seen(
                                        m,
                                        root,
                                        before,
                                        t@,
                                        token_views(stack@),
                                        marked@,
                                        l@,
                                        k as int,
                                    );
                                }
                            } else {
                                proof {
                                    lemma_worklist_push(
                                        m,
                                        root,
                                        before,
                                        t@,
                                        token_views(stack@),
                                        marked@,
                                        l@,
                                        k as int,
                                    );
                                    lemma_count_set(marked@, mi as int);
                                    lemma_count_bound(marked@.update(mi as int, true));
                                }
                                let ghost pend_now = token_views(stack@);
                                marked.set(mi, true);
                                let merge = &self.merges[mi];
                                assert(m[mi as int] == merge.pair());
                                let product = merge.result();
                                stack.push(product);
                                assert(token_views(stack@) =~= pend_now.push(
                                    m[mi as int].0 + m[mi as int].1,
                                ));
                            }
                            k = k + 1;
                        }
                        proof {
                            lemma_worklist_done(
                                m,
                                root,
                                before,
                                t@,
                                token_views(stack@),
                                marked@,
                                l@,
                            );
                        }
                    },
                    None => {
                        proof {
                            let none = Seq::<usize>::empty();
                            lemma_worklist_take(m, root, before, pend, marked@, none);
                            lemma_worklist_done(
                                m,
                                root,
                                before,
                                t@,
                                token_views(stack@),
                                marked@,
                                none,
                            );
                        }
                    },
                }
                let ghost listed = token_views(order@);
                order.push(t);
                proof {
                    assert(token_views(order@) =~= listed.push(t@));
                    assert(!listed.contains(t@));
                    assert(token_views(order@).to_set() =~= listed.to_set().insert(t@)) by {
                        assert forall|x: Seq<char>| listed.push(t@).contains(x) <==> (
                        listed.contains(x) || x == t@) by {
                            if listed.push(t@).contains(x) {
                                let j = choose|j: int|
                                    0 <= j < listed.push(t@).len() && listed.push(t@)[j] == x;
                                if j < listed.len() {
                                    assert(listed[j] == x);
                                }
                            }
                            if listed.contains(x) {
                                let j = choose|j: int| 0 <= j < listed.len() && listed[j] == x;
                                assert(listed.push(t@)[j] == x);
                            }
                            if x == t@ {
                                assert(listed.push(t@)[listed.len() as int] == x);
                            }
                        }
                    }
                }
            }
        }
        proof {
            assert(token_views(stack@) =~= Seq::empty());
            lemma_worklist_end(m, root, removed@, marked@);
        }
        (removed, order, marked)
    }

    /// The merges that stay and the pairs of those that leave when the
    /// tokens of `removed` do.
    fn split_merges(&self, removed: &StringHashSet, marked: &Vec<bool>) -> (r: (
        Vec<Merge>,
        Vec<(String, String)>,
    ))
        requires
            marked@.len() == self@.merges.len(),
            forall|i: int|
                #![trigger marked@[i]]
                0 <= i < marked@.len() && marked@[i] ==> touches(self@.merges[i], removed@),
        ensures
            merge_pairs(r.0@) == self@.merges.filter(stays(removed@)),
            pair_views(r.1@) == self@.merges.filter(leaves(removed@)),
            count_true(marked@) <= r.1@.len(),
            r.0@.len() + r.1@.len() == self@.merges.len(),
    {
        let ghost m = self@.merges;
        let mut kept: Vec<Merge> = Vec::new();
        let mut gone: Vec<(String, String)> = Vec::new();
        let mut i: usize = 0;
        proof {
            crate::seqs::lemma_filter_start(m, stays(removed@));
            crate::seqs::lemma_filter_start(m, leaves(removed@));
            assert(merge_pairs(kept@) =~= Seq::empty());
            assert(pair_views(gone@) =~= Seq::empty());
            assert(marked@.take(0) =~= Seq::empty());
        }
        while i < self.merges.len()
            invariant
                i <= self.merges@.len(),
                m == self@.merges,
                marked@.len() == m.len(),
                forall|j: int|
                    #![trigger marked@[j]]
                    0 <= j < marked@.len() && marked@[j] ==> touches(m[j], removed@),
                merge_pairs(kept@) == m.take(i as int).filter(stays(removed@)),
                pair_views(gone@) == m.take(i as int).filter(leaves(removed@)),
                count_true(marked@.take(i as int)) <= gone@.len(),
                kept@.len() + gone@.len() == i,
            decreases self.merges@.len() - i,
        {
            let merge = &self.merges[i];
            assert(m[i as int] == merge.pair());
            let product = merge.result();
            let hit = removed.contains(merge.0.as_str()) || removed.contains(merge.1.as_str())
                || removed.contains(product.as_str());
            assert(hit == touches(m[i as int], removed@));
            proof {
                crate::seqs::lemma_filter_step(m, stays(removed@), i as int);
                crate::seqs::lemma_filter_step(m, leaves(removed@), i as int);
                assert(marked@.take(i + 1).drop_last() =~= marked@.take(i as int));
            }
            let ghost kept_before = merge_pairs(kept@);
            let ghost gone_before = pair_views(gone@);
            if hit {
                gone.push(merge.to_pair());
                assert(pair_views(gone@) =~= gone_before.push(m[i as int]));
            } else {
                kept.push(merge.duplicate());
                assert(merge_pairs(kept@) =~= kept_before.push(m[i as int]));
            }
            i = i + 1;
        }
        proof {
            assert(marked@.take(i as int) =~= marked@);
        }
        (kept, gone)
    }

    /// Removes a token, every token built from it, and every merge that
    /// uses or produces one of them.
    pub fn remove_token_and_dependencies(&mut self, token: &str) -> (r: RemovalResult)
        requires
            old(self).wf(),
        ensures
            final(self).wf(),
            final(self)@ == without_token(old(self)@, token@),
            r.root_token@ == token@,
            token_views(r.removed_tokens@).to_set() == cascade_set(old(self)@.merges, token@),
            token_views(r.removed_tokens@).no_duplicates(),
            pair_views(r.removed_merges@) == old(self)@.merges.filter(
                leaves(cascade_set(old(self)@.merges, token@)),
            ),
            r.removed_tokens@.len() <= r.removed_merges@.len() + 1,
            r.removed_merges@.len() + final(self)@.merges.len() == old(self)@.merges.len(),
            cascade_set(old(self)@.merges, token@).finite(),
            r.removed_tokens@.len() == cascade_set(old(self)@.merges, token@).len(),
            final(self)@.vocab.len() <= old(self)@.vocab.len(),
            old(self)@.vocab.contains_key(token@) ==> final(self)@.vocab.len() < old(
                self,
            )@.vocab.len(),
            forall|j: int|
                0 <= j < final(self)@.merges.len() ==> !touches(
                    #[trigger] final(self)@.merges[j],
                    cascade_set(old(self)@.merges, token@),
                ),
            forall|t: Seq<char>|
                cascade_set(old(self)@.merges, token@).contains(t) ==> !final(self)@.vocab.contains_key(t),
    {
        let ghost g = self@;
        proof {
            lemma_removal_closure(g, token@);
        }
        let ghost gone = cascade_set(g.merges, token@);
        let (removed, order, marked) = self.cascade(token);
        let (kept, removed_merges) = self.split_merges(&removed, &marked);
        self.merges = kept;
        let ghost names = token_views(order@);
        let ghost size = self.vocab.entries().len();
        let mut k: usize = 0;
        proof {
            names.unique_seq_to_set();
            lemma_cascade_set_closed(g.merges, token@);
            old(self).vocab.lemma_size();
            crate::seqs::lemma_prefix_set_ends(names);
            assert(g.vocab.remove_keys(Set::empty()) =~= g.vocab);
            assert(ids_of(g.vocab, Set::empty()) =~= Set::empty());
            assert(g.used.difference(Set::empty()) =~= g.used);
        }
        while k < order.len()
            invariant
                k <= order@.len(),
                names == token_views(order@),
                names.no_duplicates(),
                self.data_wf(),
                g.next_id == self.ids.next(),
                forall|t: Seq<char>| #[trigger] g.vocab.contains_key(t) ==> g.vocab[t] < g.next_id,
                self.vocab@ == g.vocab.remove_keys(names.take(k as int).to_set()),
                self.ids.used() == g.used.difference(ids_of(g.vocab, names.take(k as int).to_set())),
                merge_pairs(self.merges@) == g.merges.filter(stays(gone)),
                self.vocab.entries().len() <= size,
                g.vocab.contains_key(token@) && names.take(k as int).contains(token@)
                    ==> self.vocab.entries().len() < size,
            decreases order@.len() - k,
        {
            let t = order[k].as_str();
            proof {
                let done = names.take(k as int).to_set();
                assert(names[k as int] == t@);
                assert(!done.contains(t@)) by {
                    if names.take(k as int).contains(t@) {
                        let j = choose|j: int|
                            0 <= j < names.take(k as int).len() && names.take(k as int)[j] == t@;
                        assert(names[j] == names[k as int]);
                    }
                }
                lemma_release_step(g.vocab, g.used, done, t@);
                crate::seqs::lemma_prefix_set_step(names, k as int);
                if names.take(k + 1).contains(token@) && !names.take(k as int).contains(token@) {
                    assert(names.take(k as int).to_set().insert(t@).contains(token@));
                    assert(t@ == token@);
                }
            }
            match self.vocab.remove(t) {
                Some(id) => {
                    self.ids.release(id);
                },
                None => {},
            }
            k = k + 1;
        }
        self.rebuild_indices();
        proof {
            crate::seqs::lemma_prefix_set_ends(names);
            self.vocab.lemma_size();
            assert(names.to_set().contains(token@));
        }
        RemovalResult { root_token: String::from_str(token), removed_tokens: order, removed_merges }
    }
}

} // verus!
