//! Reindexing: the ids of the vocabulary are made dense, in the order that
//! they had.

use vstd::prelude::*;
use vstd::string::*;
use crate::editor::{BPETokenizerEditor, GraphView};
use crate::sorting::{ascending, key_le, lemma_sorted_keys, numbered, sort_keys, Key};
use crate::text::{lemma_lex_asymmetric, lex_lt};
use crate::types::ReindexResult;
use crate::vocab::{entries_map, entry_index, has_entry, lemma_entry_in_map, lemma_map_size, sorted_entries};

verus! {

/// Some token has the id.
pub open spec fn has_id(v: Map<Seq<char>, u32>, i: u32) -> bool {
    exists|t: Seq<char>| #[trigger] v.contains_key(t) && v[t] == i
}

/// The ids are the numbers below the size of the vocabulary, each the id of
/// one token.
pub open spec fn dense(v: Map<Seq<char>, u32>) -> bool {
    &&& forall|t: Seq<char>| #[trigger] v.contains_key(t) ==> v[t] < v.len()
    &&& forall|s: Seq<char>, t: Seq<char>|
        #![trigger v[s], v[t]]
        v.contains_key(s) && v.contains_key(t) && s != t ==> v[s] != v[t]
    &&& forall|i: u32| i < v.len() ==> #[trigger] has_id(v, i)
}

/// The order in which reindexing numbers the tokens: by id, and by token
/// where two have the same id.
pub open spec fn comes_before(v: Map<Seq<char>, u32>, s: Seq<char>, t: Seq<char>) -> bool {
    v[s] < v[t] || (v[s] == v[t] && lex_lt(s, t))
}

/// `new` gives the tokens of `old` dense ids in the order of `old`.
pub open spec fn renumbered(old: Map<Seq<char>, u32>, new: Map<Seq<char>, u32>) -> bool {
    &&& new.dom() == old.dom()
    &&& dense(new)
    &&& forall|s: Seq<char>, t: Seq<char>|
        #![trigger new[s], new[t]]
        old.contains_key(s) && old.contains_key(t) && comes_before(old, s, t) ==> new[s] < new[t]
}

/// The smallest id of the vocabulary.
pub open spec fn is_min_id(v: Map<Seq<char>, u32>, x: u32) -> bool {
    &&& has_id(v, x)
    &&& forall|t: Seq<char>| #[trigger] v.contains_key(t) ==> x <= v[t]
}

/// The largest id of the vocabulary.
pub open spec fn is_max_id(v: Map<Seq<char>, u32>, x: u32) -> bool {
    &&& has_id(v, x)
    &&& forall|t: Seq<char>| #[trigger] v.contains_key(t) ==> v[t] <= x
}

/// The ids below `min`, and those between `min` and `max` that `n` tokens
/// cannot fill.
pub open spec fn gap_count(min: u32, max: u32, n: nat) -> nat {
    if max - min + 1 > n {
        (max + 1 - n) as nat
    } else {
        min as nat
    }
}

/// The last `remapped` tokens in the order of their new ids are those from
/// the first on whose id changed.
pub open spec fn counts_remapped(
    old: Map<Seq<char>, u32>,
    new: Map<Seq<char>, u32>,
    remapped: nat,
) -> bool {
    &&& remapped <= new.len()
    &&& forall|t: Seq<char>| #[trigger]
        new.contains_key(t) && new[t] < new.len() - remapped ==> old[t] == new[t]
    &&& remapped > 0 ==> exists|t: Seq<char>| #[trigger]
        new.contains_key(t) && new[t] == new.len() - remapped && old[t] != new[t]
}

/// `after` is what reindexing makes of `before`. A vocabulary with dense
/// ids is left alone, and the allocator with it. Another one is renumbered,
/// and the allocator starts over behind the new ids.
pub open spec fn reindex_of(before: GraphView, after: GraphView) -> bool {
    if dense(before.vocab) {
        after == before
    } else {
        &&& renumbered(before.vocab, after.vocab)
        &&& after.merges == before.merges
        &&& after.used == Set::new(|i: u32| i < before.vocab.len())
        &&& after.next_id == before.vocab.len()
    }
}

/// Of two different tokens of the vocabulary one comes before the other.
pub proof fn lemma_comes_before_connected(v: Map<Seq<char>, u32>, s: Seq<char>, t: Seq<char>)
    requires
        s != t,
    ensures
        comes_before(v, s, t) || comes_before(v, t, s),
{
    crate::text::lemma_lex_connected(s, t);
}

/// Two renumberings give the token that has the id `i` in one of them the id
/// `i` in the other as well.
proof fn lemma_renumberings_agree(
    old: Map<Seq<char>, u32>,
    a: Map<Seq<char>, u32>,
    b: Map<Seq<char>, u32>,
    i: nat,
)
    requires
        renumbered(old, a),
        renumbered(old, b),
        i < a.len(),
    ensures
        forall|t: Seq<char>| a.contains_key(t) && a[t] == i ==> b[t] == i,
    decreases i,
{
    assert(a.dom() == b.dom());
    assert(a.len() == b.len());
    assert forall|t: Seq<char>| a.contains_key(t) && a[t] == i implies b[t] == i by {
        assert(has_id(b, i as u32));
        let u = choose|u: Seq<char>| #[trigger] b.contains_key(u) && b[u] == i as u32;
        assert(old.contains_key(t) && old.contains_key(u));
        if t != u {
            lemma_comes_before_connected(old, t, u);
            if comes_before(old, t, u) {
                // t cannot have a smaller id in `b` than `i`
                let j = b[t] as nat;
                assert(b[t] < b[u]);
                assert(has_id(a, j as u32));
                let w = choose|w: Seq<char>| #[trigger] a.contains_key(w) && a[w] == j as u32;
                lemma_renumberings_agree(old, a, b, j);
                assert(b[w] == j);
                assert(w == t);
            } else {
                let j = a[u] as nat;
                assert(a[u] < a[t]);
                lemma_renumberings_agree(old, a, b, j);
                assert(b[u] == j);
            }
        }
    }
}

/// The renumbering is determined: two maps that renumber the same
/// vocabulary are the same map.
pub proof fn lemma_renumbered_unique(
    old: Map<Seq<char>, u32>,
    a: Map<Seq<char>, u32>,
    b: Map<Seq<char>, u32>,
)
    requires
        renumbered(old, a),
        renumbered(old, b),
    ensures
        a == b,
{
    assert forall|t: Seq<char>| a.contains_key(t) implies a[t] == b[t] by {
        lemma_renumberings_agree(old, a, b, a[t] as nat);
    }
    assert(a =~= b);
}

/// What reindexing makes of a graph is determined.
pub proof fn lemma_reindex_unique(g: GraphView, a: GraphView, b: GraphView)
    requires
        reindex_of(g, a),
        reindex_of(g, b),
    ensures
        a == b,
{
    if !dense(g.vocab) {
        lemma_renumbered_unique(g.vocab, a.vocab, b.vocab);
    }
}

/// Reindexing twice changes nothing the second time.
pub proof fn lemma_reindex_idempotent(g: GraphView, once: GraphView, twice: GraphView)
    requires
        reindex_of(g, once),
        reindex_of(once, twice),
    ensures
        dense(once.vocab),
        twice == once,
{
}

/// No two tokens have the same id.
pub open spec fn unique_ids(v: Map<Seq<char>, u32>) -> bool {
    forall|s: Seq<char>, t: Seq<char>|
        #![trigger v[s], v[t]]
        v.contains_key(s) && v.contains_key(t) && s != t ==> v[s] != v[t]
}

/// A vocabulary with unique ids has no more tokens than there are ids.
pub proof fn lemma_unique_ids_bound(v: Map<Seq<char>, u32>)
    requires
        v.dom().finite(),
        unique_ids(v),
    ensures
        v.len() <= u32::MAX + 1,
{
    let f = |t: Seq<char>| v[t] as int;
    let ids = v.dom().map(f);
    assert(vstd::relations::injective_on(f, v.dom())) by {
        assert forall|s: Seq<char>, t: Seq<char>|
            v.dom().contains(s) && v.dom().contains(t) && #[trigger] f(s) == #[trigger] f(
                t,
            ) implies s == t by {
            if s != t {
                assert(v[s] != v[t]);
            }
        }
    }
    vstd::set_lib::lemma_map_size(v.dom(), ids, f);
    let all = vstd::set_lib::set_int_range(0, u32::MAX + 1);
    vstd::set_lib::lemma_int_range(0, u32::MAX + 1);
    assert(ids.subset_of(all)) by {
        assert forall|i: int| ids.contains(i) implies all.contains(i) by {
            let t = choose|t: Seq<char>| v.dom().contains(t) && f(t) == i;
            assert(0 <= v[t] <= u32::MAX);
        }
    }
    vstd::set_lib::lemma_len_subset(ids, all);
}

/// Dense ids leave no gap: the smallest is 0, the largest is one less than
/// the number of tokens.
pub proof fn lemma_dense_has_no_gaps(v: Map<Seq<char>, u32>, min: u32, max: u32)
    requires
        dense(v),
        v.dom().finite(),
        v.len() > 0,
        is_min_id(v, min),
        is_max_id(v, max),
    ensures
        min == 0,
        max == v.len() - 1,
        gap_count(min, max, v.len()) == 0,
{
    lemma_unique_ids_bound(v);
    assert(has_id(v, 0u32));
    let last = (v.len() - 1) as u32;
    assert(has_id(v, last));
    let t = choose|t: Seq<char>| #[trigger] v.contains_key(t) && v[t] == max;
    assert(v[t] < v.len());
}

/// The sorted keys `s` list the entries by id, and by position where two
/// have the same id.
pub open spec fn id_order(es: Seq<(Seq<char>, u32)>, s: Seq<Key>) -> bool {
    &&& s.len() == es.len()
    &&& forall|p: int|
        0 <= p < s.len() ==> (#[trigger] s[p]).2 < es.len() && s[p].1 == es[s[p].2 as int].1
            && s[p].0 == 0
    &&& forall|i: int|
        0 <= i < es.len() ==> 0 <= #[trigger] listed_at(s, i) < s.len() && s[listed_at(s, i)].2
            == i
    &&& forall|p: int, q: int|
        0 <= p < q < s.len() ==> key_le(#[trigger] s[p], #[trigger] s[q]) && s[p].2 != s[q].2
}

/// A position at which the sorted keys list entry `i`.
pub open spec fn listed_at(s: Seq<Key>, i: int) -> int {
    choose|p: int| 0 <= p < s.len() && (#[trigger] s[p]).2 == i
}

/// The keys by which the entries are sorted.
pub open spec fn id_keys(es: Seq<(Seq<char>, u32)>) -> Seq<Key> {
    Seq::new(es.len(), |i: int| (0usize, es[i].1, i as usize))
}

proof fn lemma_id_order(es: Seq<(Seq<char>, u32)>, s: Seq<Key>)
    requires
        es.len() <= usize::MAX,
        s.to_multiset() == id_keys(es).to_multiset(),
        ascending(s),
    ensures
        id_order(es, s),
{
    let keys = id_keys(es);
    assert(numbered(keys));
    lemma_sorted_keys(keys, s);
    assert forall|i: int| 0 <= i < es.len() implies 0 <= #[trigger] listed_at(s, i) < s.len()
        && s[listed_at(s, i)].2 == i by {
        assert(s.contains(keys[i]));
        let p = choose|p: int| 0 <= p < s.len() && s[p] == keys[i];
        assert(s[p].2 == i);
    }
    assert forall|p: int|
        0 <= p < s.len() implies (#[trigger] s[p]).2 < es.len() && s[p].1 == es[s[p].2 as int].1
            && s[p].0 == 0 by {
        assert(keys[s[p].2 as int] == s[p]);
    }
    assert forall|p: int, q: int|
        0 <= p < q < s.len() implies key_le(#[trigger] s[p], #[trigger] s[q]) && s[p].2 != s[q].2 by {
        assert(keys[s[p].2 as int] == s[p]);
        assert(keys[s[q].2 as int] == s[q]);
    }
}

/// The first and the last of the sorted keys hold the smallest and the
/// largest id.
proof fn lemma_min_max(es: Seq<(Seq<char>, u32)>, s: Seq<Key>)
    requires
        sorted_entries(es),
        id_order(es, s),
        es.len() > 0,
    ensures
        is_min_id(entries_map(es), s[0].1),
        is_max_id(entries_map(es), s[s.len() - 1].1),
{
    let v = entries_map(es);
    let last = s.len() - 1;
    lemma_entry_in_map(es, s[0].2 as int);
    lemma_entry_in_map(es, s[last].2 as int);
    assert(v.contains_key(es[s[0].2 as int].0) && v[es[s[0].2 as int].0] == s[0].1);
    assert(v.contains_key(es[s[last].2 as int].0) && v[es[s[last].2 as int].0] == s[last].1);
    assert forall|t: Seq<char>| #[trigger] v.contains_key(t) implies s[0].1 <= v[t] <= s[last].1 by {
        let i = entry_index(es, t);
        lemma_entry_in_map(es, i);
        let p = listed_at(s, i);
        assert(s[p].2 == i);
        if 0 < p {
            assert(key_le(s[0], s[p]));
        }
        if p < last {
            assert(key_le(s[p], s[last]));
        }
    }
}

/// Where each sorted key holds its position as id, the ids are dense.
proof fn lemma_aligned_is_dense(es: Seq<(Seq<char>, u32)>, s: Seq<Key>)
    requires
        sorted_entries(es),
        id_order(es, s),
        forall|p: int| 0 <= p < s.len() ==> (#[trigger] s[p]).1 == p,
    ensures
        dense(entries_map(es)),
{
    let v = entries_map(es);
    lemma_map_size(es);
    assert forall|t: Seq<char>| #[trigger] v.contains_key(t) implies v[t] < v.len() by {
        let i = entry_index(es, t);
        lemma_entry_in_map(es, i);
        let p = listed_at(s, i);
        assert(s[p].2 == i);
    }
    assert forall|a: Seq<char>, b: Seq<char>|
        #![trigger v[a], v[b]]
        v.contains_key(a) && v.contains_key(b) && a != b implies v[a] != v[b] by {
        let i = entry_index(es, a);
        let j = entry_index(es, b);
        lemma_entry_in_map(es, i);
        lemma_entry_in_map(es, j);
        let p = listed_at(s, i);
        let q = listed_at(s, j);
        assert(s[p].2 == i && s[q].2 == j);
    }
    assert forall|x: u32| x < v.len() implies #[trigger] has_id(v, x) by {
        let i = s[x as int].2 as int;
        lemma_entry_in_map(es, i);
        assert(v.contains_key(es[i].0) && v[es[i].0] == x);
    }
}

/// Ids that ascend strictly along the sorted keys and lie below their
/// number are the positions.
proof fn lemma_increasing_from_below(s: Seq<Key>, p: int)
    requires
        0 <= p < s.len(),
        forall|a: int, b: int| 0 <= a < b < s.len() ==> (#[trigger] s[a]).1 < (#[trigger] s[b]).1,
    ensures
        s[p].1 >= p,
    decreases p,
{
    if p > 0 {
        lemma_increasing_from_below(s, p - 1);
        assert(s[p - 1].1 < s[p].1);
    }
}

proof fn lemma_increasing_from_above(s: Seq<Key>, p: int)
    requires
        0 <= p < s.len(),
        forall|a: int, b: int| 0 <= a < b < s.len() ==> (#[trigger] s[a]).1 < (#[trigger] s[b]).1,
        forall|a: int| 0 <= a < s.len() ==> (#[trigger] s[a]).1 < s.len(),
    ensures
        s[p].1 <= p,
    decreases s.len() - p,
{
    if p < s.len() - 1 {
        lemma_increasing_from_above(s, p + 1);
        assert(s[p].1 < s[p + 1].1);
    }
}

/// Where the ids are dense, each sorted key holds its position as id.
proof fn lemma_dense_is_aligned(es: Seq<(Seq<char>, u32)>, s: Seq<Key>)
    requires
        sorted_entries(es),
        id_order(es, s),
        dense(entries_map(es)),
    ensures
        forall|p: int| 0 <= p < s.len() ==> (#[trigger] s[p]).1 == p,
{
    let v = entries_map(es);
    lemma_map_size(es);
    assert forall|a: int, b: int| 0 <= a < b < s.len() implies (#[trigger] s[a]).1 < (#[trigger] s[b]).1 by {
        let i = s[a].2 as int;
        let j = s[b].2 as int;
        lemma_entry_in_map(es, i);
        lemma_entry_in_map(es, j);
        assert(key_le(s[a], s[b]));
        assert(i != j);
        if i < j {
            lemma_lex_asymmetric(es[i].0, es[j].0);
        } else {
            lemma_lex_asymmetric(es[j].0, es[i].0);
        }
        assert(v[es[i].0] != v[es[j].0]);
    }
    assert forall|a: int| 0 <= a < s.len() implies (#[trigger] s[a]).1 < s.len() by {
        let i = s[a].2 as int;
        lemma_entry_in_map(es, i);
        assert(v.contains_key(es[i].0));
    }
    assert forall|p: int| 0 <= p < s.len() implies (#[trigger] s[p]).1 == p by {
        lemma_increasing_from_below(s, p);
        lemma_increasing_from_above(s, p);
    }
}

/// Entries that got the positions of their keys as ids are renumbered. The
/// last `s.len() - first` of them are counted as remapped where `first` is
/// the first position that is not the id of its key.
proof fn lemma_renumbered(
    es: Seq<(Seq<char>, u32)>,
    ns: Seq<(Seq<char>, u32)>,
    s: Seq<Key>,
    first: int,
)
    requires
        sorted_entries(es),
        id_order(es, s),
        ns.len() == es.len(),
        forall|i: int| 0 <= i < es.len() ==> (#[trigger] ns[i]).0 == es[i].0,
        forall|p: int| 0 <= p < s.len() ==> (#[trigger] ns[s[p].2 as int]).1 == p,
        0 <= first <= s.len(),
    ensures
        sorted_entries(ns),
        renumbered(entries_map(es), entries_map(ns)),
        (forall|p: int| 0 <= p < first ==> (#[trigger] s[p]).1 == p) && (first < s.len() ==> s[first].1
            != first) ==> counts_remapped(
            entries_map(es),
            entries_map(ns),
            (s.len() - first) as nat,
        ),
{
    let old = entries_map(es);
    let new = entries_map(ns);
    assert(sorted_entries(ns)) by {
        assert forall|i: int, j: int| 0 <= i < j < ns.len() implies lex_lt(
            #[trigger] ns[i].0,
            #[trigger] ns[j].0,
        ) by {
            assert(ns[i].0 == es[i].0 && ns[j].0 == es[j].0);
        }
    }
    lemma_map_size(es);
    lemma_map_size(ns);
    assert forall|t: Seq<char>| old.contains_key(t) <==> new.contains_key(t) by {
        if has_entry(es, t) {
            let i = entry_index(es, t);
            assert(ns[i].0 == t);
        }
        if has_entry(ns, t) {
            let i = entry_index(ns, t);
            assert(es[i].0 == t);
        }
    }
    assert(new.dom() =~= old.dom());
    // the new id of entry i is the position of its key
    assert forall|t: Seq<char>| #[trigger] new.contains_key(t) implies ({
        let i = entry_index(ns, t);
        &&& 0 <= i < ns.len()
        &&& es[i].0 == t
        &&& new[t] == listed_at(s, i)
        &&& old[t] == es[i].1
        &&& entry_index(es, t) == i
    }) by {
        let i = entry_index(ns, t);
        lemma_entry_in_map(ns, i);
        lemma_entry_in_map(es, i);
        let p = listed_at(s, i);
        assert(s[p].2 == i);
        assert(ns[s[p].2 as int].1 == p);
    }
    assert forall|t: Seq<char>| #[trigger] new.contains_key(t) implies new[t] < new.len() by {}
    assert forall|a: Seq<char>, b: Seq<char>|
        #![trigger new[a], new[b]]
        new.contains_key(a) && new.contains_key(b) && a != b implies new[a] != new[b] by {
        let i = entry_index(ns, a);
        let j = entry_index(ns, b);
        assert(s[listed_at(s, i)].2 == i);
        assert(s[listed_at(s, j)].2 == j);
    }
    assert forall|x: u32| x < new.len() implies #[trigger] has_id(new, x) by {
        let i = s[x as int].2 as int;
        lemma_entry_in_map(ns, i);
        assert(ns[s[x as int].2 as int].1 == x);
        assert(new.contains_key(ns[i].0) && new[ns[i].0] == x);
    }
    assert(dense(new));
    assert forall|a: Seq<char>, b: Seq<char>|
        #![trigger new[a], new[b]]
        old.contains_key(a) && old.contains_key(b) && comes_before(old, a, b) implies new[a]
        < new[b] by {
        assert(new.contains_key(a) && new.contains_key(b));
        let i = entry_index(ns, a);
        let j = entry_index(ns, b);
        let p = listed_at(s, i);
        let q = listed_at(s, j);
        assert(s[p].2 == i && s[q].2 == j);
        if lex_lt(a, b) {
            lemma_lex_asymmetric(a, b);
            if j < i {
                assert(lex_lt(es[j].0, es[i].0));
            }
        }
        if q < p {
            assert(key_le(s[q], s[p]));
        }
    }
    let remapped = (s.len() - first) as nat;
    if (forall|p: int| 0 <= p < first ==> (#[trigger] s[p]).1 == p) && (first < s.len() ==> s[first].1
        != first) {
        assert forall|t: Seq<char>| #[trigger]
            new.contains_key(t) && new[t] < new.len() - remapped implies old[t] == new[t] by {
            let i = entry_index(ns, t);
            let p = listed_at(s, i);
            assert(s[p].2 == i);
            assert(s[p].1 == p);
        }
        if remapped > 0 {
            let i = s[first].2 as int;
            lemma_entry_in_map(ns, i);
            lemma_entry_in_map(es, i);
            assert(ns[s[first].2 as int].1 == first);
            let t = ns[i].0;
            assert(new.contains_key(t) && new[t] == new.len() - remapped && old[t] != new[t]);
        }
    }
}

/// The number of unused ids below `max`, for `n` tokens with ids from `min` to `max`.
pub fn count_gaps(min: u32, max: u32, n: usize) -> (r: usize)
    requires
        min <= max,
        n >= 1,
    ensures
        r == gap_count(min, max, n as nat),
{
    let range: u64 = (max - min) as u64 + 1;
    if range > n as u64 {
        (max as u64 + 1 - n as u64) as usize
    } else {
        min as usize
    }
}

impl BPETokenizerEditor {
    /// The entries of the vocabulary by id, as sorted keys: each holds an id
    /// and the position of its entry.
    pub(crate) fn sorted_ids(&self) -> (s: Vec<Key>)
        requires
            self.vocab.wf(),
        ensures
            id_order(self.vocab.entries(), s@),
    {
        let ghost es = self.vocab.entries();
        let n = self.vocab.len();
        let mut keys: Vec<Key> = Vec::new();
        let mut i: usize = 0;
        while i < n
            invariant
                i <= n,
                n == es.len(),
                es == self.vocab.entries(),
                keys@ == id_keys(es).take(i as int),
            decreases n - i,
        {
            keys.push((0usize, self.vocab.id_at(i), i));
            assert(keys@ =~= id_keys(es).take(i + 1));
            i = i + 1;
        }
        assert(keys@ =~= id_keys(es));
        sort_keys(&mut keys);
        proof {
            lemma_id_order(es, keys@);
        }
        keys
    }

    /// Gives each entry from position `first` of the sorted keys on the
    /// position of its key as id.
    fn assign_positions(&mut self, s: &Vec<Key>, first: usize)
        requires
            old(self).vocab.wf(),
            id_order(old(self).vocab.entries(), s@),
            first <= s@.len(),
            s@.len() <= u32::MAX + 1,
            forall|p: int| 0 <= p < first ==> (#[trigger] s@[p]).1 == p,
        ensures
            final(self).vocab.wf(),
            final(self).vocab.entries().len() == old(self).vocab.entries().len(),
            forall|i: int|
                0 <= i < s@.len() ==> (#[trigger] final(self).vocab.entries()[i]).0 == old(
                    self,
                ).vocab.entries()[i].0,
            forall|p: int|
                0 <= p < s@.len() ==> (#[trigger] final(self).vocab.entries()[s@[p].2 as int]).1 == p,
            final(self).merges == old(self).merges,
            final(self).index == old(self).index,
            final(self).ids == old(self).ids,
    {
        let ghost es = self.vocab.entries();
        let n = s.len();
        assert forall|p: int| 0 <= p < first implies (#[trigger] es[s@[p].2 as int]).1 == p by {
            assert(s@[p].1 == p);
        }
        let mut q: usize = first;
        while q < n
            invariant
                first <= q <= n,
                n == s@.len(),
                n == es.len(),
                n <= u32::MAX + 1,
                sorted_entries(es),
                id_order(es, s@),
                self.vocab.wf(),
                self.vocab.entries().len() == n,
                forall|i: int| 0 <= i < n ==> (#[trigger] self.vocab.entries()[i]).0 == es[i].0,
                forall|p: int|
                    0 <= p < q ==> (#[trigger] self.vocab.entries()[s@[p].2 as int]).1 == p,
                forall|p: int|
                    q <= p < n ==> #[trigger] self.vocab.entries()[s@[p].2 as int] == es[s@[p].2 as int],
                self.merges == old(self).merges,
                self.index == old(self).index,
                self.ids == old(self).ids,
            decreases n - q,
        {
            let ghost before = self.vocab.entries();
            let at = s[q].2;
            self.vocab.set_id_at(at, q as u32);
            proof {
                let now = self.vocab.entries();
                assert forall|p: int| 0 <= p < q + 1 implies (#[trigger] now[s@[p].2 as int]).1
                    == p by {
                    if p < q {
                        assert(s@[p].2 != s@[q as int].2);
                        assert(before[s@[p].2 as int].1 == p);
                    }
                }
                assert forall|p: int| q + 1 <= p < n implies #[trigger] now[s@[p].2 as int]
                    == es[s@[p].2 as int] by {
                    assert(s@[q as int].2 != s@[p].2);
                    assert(before[s@[p].2 as int] == es[s@[p].2 as int]);
                }
                assert forall|i: int| 0 <= i < n implies (#[trigger] now[i]).0 == es[i].0 by {
                    assert(before[i].0 == es[i].0);
                }
            }
            q = q + 1;
        }
    }

    /// Whether the ids leave gaps: `(has_gaps, total_gaps, min_id, max_id)`.
    /// The gaps are the unused ids below the largest id. An empty vocabulary
    /// has none, and 0 stands for its smallest and largest id.
    pub fn check_vocab_gaps(&self) -> (r: (bool, usize, u32, u32))
        requires
            self.vocab.wf(),
        ensures
            r.0 == (r.1 > 0),
            r.1 >= r.2,
            self@.vocab.len() == 0 ==> r.1 == 0 && r.2 == 0 && r.3 == 0,
            self@.vocab.len() > 0 ==> is_min_id(self@.vocab, r.2) && is_max_id(self@.vocab, r.3)
                && r.1 == gap_count(r.2, r.3, self@.vocab.len()),
            dense(self@.vocab) && self@.vocab.len() > 0 ==> !r.0 && r.1 == 0 && r.2 == 0 && r.3
                == self@.vocab.len() - 1,
    {
        let ghost es = self.vocab.entries();
        let n = self.vocab_size();
        if n == 0 {
            return (false, 0, 0, 0);
        }
        let mut min = self.vocab.id_at(0);
        let mut max = min;
        let ghost mut at_min: int = 0;
        let ghost mut at_max: int = 0;
        let mut i: usize = 1;
        while i < n
            invariant
                1 <= i <= n,
                n == es.len(),
                es == self.vocab.entries(),
                0 <= at_min < i,
                0 <= at_max < i,
                es[at_min].1 == min,
                es[at_max].1 == max,
                forall|j: int| 0 <= j < i ==> min <= (#[trigger] es[j]).1 <= max,
            decreases n - i,
        {
            let id = self.vocab.id_at(i);
            if id < min {
                min = id;
                proof {
                    at_min = i as int;
                }
            }
            if id > max {
                max = id;
                proof {
                    at_max = i as int;
                }
            }
            i = i + 1;
        }
        proof {
            let v = self@.vocab;
            lemma_entry_in_map(es, at_min);
            lemma_entry_in_map(es, at_max);
            assert(v.contains_key(es[at_min].0) && v[es[at_min].0] == min);
            assert(v.contains_key(es[at_max].0) && v[es[at_max].0] == max);
            assert forall|t: Seq<char>| #[trigger] v.contains_key(t) implies min <= v[t] <= max by {
                lemma_entry_in_map(es, entry_index(es, t));
            }
            if dense(v) {
                lemma_map_size(es);
                lemma_dense_has_no_gaps(v, min, max);
            }
        }
        let gaps = count_gaps(min, max, n);
        (gaps > 0, gaps, min, max)
    }

    /// Numbers all tokens anew from 0 in the order of their ids, and starts
    /// the allocator over behind the new ids.
    pub fn reassign_ids(&mut self)
        requires
            old(self).wf(),
            unique_ids(old(self)@.vocab) || old(self)@.vocab.len() <= u32::MAX + 1,
        ensures
            final(self).wf(),
            renumbered(old(self)@.vocab, final(self)@.vocab),
            final(self)@.merges == old(self)@.merges,
            final(self)@.used == Set::new(|i: u32| i < old(self)@.vocab.len()),
            final(self)@.next_id == old(self)@.vocab.len(),
    {
        let ghost es = self.vocab.entries();
        let n = self.vocab_size();
        proof {
            if unique_ids(self@.vocab) {
                lemma_map_size(es);
                lemma_unique_ids_bound(self@.vocab);
            }
        }
        let s = self.sorted_ids();
        self.assign_positions(&s, 0);
        self.ids.reset_dense(n);
        proof {
            lemma_renumbered(es, self.vocab.entries(), s@, 0);
            self.vocab.lemma_size();
            lemma_map_size(es);
        }
    }

    /// Makes the ids dense. The tokens are numbered from 0 in the order of
    /// their ids, so a token keeps its id as long as the ids before it were
    /// dense already. The merges are not touched.
    pub fn reindex_vocab(&mut self) -> (r: ReindexResult)
        requires
            old(self).wf(),
            unique_ids(old(self)@.vocab) || old(self)@.vocab.len() <= u32::MAX + 1,
        ensures
            final(self).wf(),
            reindex_of(old(self)@, final(self)@),
            dense(final(self)@.vocab),
            unique_ids(final(self)@.vocab),
            dense(old(self)@.vocab) ==> final(self)@ == old(self)@ && r.ids_remapped == 0
                && r.gaps_removed == 0,
            final(self)@.vocab.len() == old(self)@.vocab.len(),
            r.vocab_size == old(self)@.vocab.len(),
            r.merges_count == old(self)@.merges.len(),
            counts_remapped(old(self)@.vocab, final(self)@.vocab, r.ids_remapped as nat),
            old(self)@.vocab.len() == 0 ==> r.old_min_id == 0 && r.old_max_id == 0 && r.new_min_id
                == 0 && r.new_max_id == 0 && r.gaps_removed == 0 && r.ids_remapped == 0,
            old(self)@.vocab.len() > 0 ==> is_min_id(old(self)@.vocab, r.old_min_id) && is_max_id(
                old(self)@.vocab,
                r.old_max_id,
            ) && r.new_min_id == 0 && r.new_max_id == old(self)@.vocab.len() - 1 && r.gaps_removed
                == gap_count(r.old_min_id, r.old_max_id, old(self)@.vocab.len()),
    {
        let ghost g = self@;
        let ghost es = self.vocab.entries();
        let n = self.vocab_size();
        let merges_count = self.merges.len();
        proof {
            if unique_ids(g.vocab) {
                lemma_map_size(es);
                lemma_unique_ids_bound(g.vocab);
            }
        }
        if n == 0 {
            proof {
                assert(g.vocab.dom() =~= Set::empty()) by {
                    lemma_map_size(es);
                    assert(g.vocab.dom().len() == 0);
                }
            }
            return ReindexResult {
                vocab_size: 0,
                merges_count,
                old_min_id: 0,
                old_max_id: 0,
                new_min_id: 0,
                new_max_id: 0,
                ids_remapped: 0,
                gaps_removed: 0,
            };
        }
        let s = self.sorted_ids();
        let old_min_id = s[0].1;
        let old_max_id = s[n - 1].1;
        proof {
            lemma_min_max(es, s@);
            let t = choose|t: Seq<char>| #[trigger] g.vocab.contains_key(t) && g.vocab[t] == old_max_id;
            assert(old_min_id <= g.vocab[t]);
        }
        let gaps_removed = count_gaps(old_min_id, old_max_id, n);
        let mut first: usize = 0;
        while first < n && s[first].1 as usize == first
            invariant
                first <= n,
                n == s@.len(),
                forall|p: int| 0 <= p < first ==> (#[trigger] s@[p]).1 == p,
            decreases n - first,
        {
            first = first + 1;
        }
        if first == n {
            proof {
                lemma_aligned_is_dense(es, s@);
                lemma_map_size(es);
                lemma_dense_has_no_gaps(g.vocab, old_min_id, old_max_id);
            }
            return ReindexResult {
                vocab_size: n,
                merges_count,
                old_min_id,
                old_max_id,
                new_min_id: 0,
                new_max_id: (n - 1) as u32,
                ids_remapped: 0,
                gaps_removed,
            };
        }
        proof {
            if dense(g.vocab) {
                lemma_dense_is_aligned(es, s@);
            }
        }
        self.assign_positions(&s, first);
        self.ids.reset_dense(n);
        proof {
            lemma_renumbered(es, self.vocab.entries(), s@, first as int);
            self.vocab.lemma_size();
            lemma_map_size(es);
        }
        ReindexResult {
            vocab_size: n,
            merges_count,
            old_min_id,
            old_max_id,
            new_min_id: 0,
            new_max_id: (n - 1) as u32,
            ids_remapped: n - first,
            gaps_removed,
        }
    }
}

} // verus!
