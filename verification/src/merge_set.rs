//! A set of merges that can be asked for a pair of tokens.

use vstd::prelude::*;
use vstd::string::*;
use vstd::hash_map::StringHashMap;
use vstd::hash_set::StringHashSet;

verus! {

/// A set of pairs of tokens. The right tokens that go with a left token
/// are held together.
pub struct MergeSet {
    slot: StringHashMap<usize>,
    rights: Vec<StringHashSet>,
}

/// The pairs that a table of left tokens and their right tokens holds.
spec fn pairs_of(slot: Map<Seq<char>, usize>, rights: Seq<StringHashSet>) -> Set<
    (Seq<char>, Seq<char>),
> {
    Set::new(
        |p: (Seq<char>, Seq<char>)|
            slot.contains_key(p.0) && slot[p.0] < rights.len() && rights[slot[p.0] as int]@.contains(
                p.1,
            ),
    )
}

/// Each left token has a set of its own.
spec fn slots_apart(slot: Map<Seq<char>, usize>, n: nat) -> bool {
    &&& forall|t: Seq<char>| #[trigger] slot.contains_key(t) ==> slot[t] < n
    &&& forall|a: Seq<char>, b: Seq<char>|
        #![trigger slot[a], slot[b]]
        slot.contains_key(a) && slot.contains_key(b) && slot[a] == slot[b] ==> a == b
}

proof fn lemma_right_added(
    slot: Map<Seq<char>, usize>,
    before: Seq<StringHashSet>,
    after: Seq<StringHashSet>,
    a: Seq<char>,
    b: Seq<char>,
)
    requires
        slots_apart(slot, before.len()),
        slot.contains_key(a),
        after.len() == before.len(),
        after[slot[a] as int]@ == before[slot[a] as int]@.insert(b),
        forall|k: int| 0 <= k < before.len() && k != slot[a] ==> after[k] == before[k],
    ensures
        pairs_of(slot, after) == pairs_of(slot, before).insert((a, b)),
{
    assert forall|p: (Seq<char>, Seq<char>)|
        pairs_of(slot, after).contains(p) <==> pairs_of(slot, before).insert((a, b)).contains(p) by {
        if slot.contains_key(p.0) && p.0 != a {
            assert(slot[p.0] != slot[a]);
        }
    }
    assert(pairs_of(slot, after) =~= pairs_of(slot, before).insert((a, b)));
}

proof fn lemma_left_added(
    slot: Map<Seq<char>, usize>,
    before: Seq<StringHashSet>,
    after: Seq<StringHashSet>,
    a: Seq<char>,
    b: Seq<char>,
    at: usize,
)
    requires
        slots_apart(slot, before.len()),
        !slot.contains_key(a),
        at == before.len(),
        after.len() == before.len() + 1,
        after[at as int]@ == Set::<Seq<char>>::empty().insert(b),
        forall|k: int| 0 <= k < before.len() ==> after[k] == before[k],
    ensures
        pairs_of(slot.insert(a, at), after) == pairs_of(slot, before).insert((a, b)),
        slots_apart(slot.insert(a, at), after.len()),
{
    let slot2 = slot.insert(a, at);
    assert forall|p: (Seq<char>, Seq<char>)|
        pairs_of(slot2, after).contains(p) <==> pairs_of(slot, before).insert((a, b)).contains(p) by {
        if p.0 != a && slot.contains_key(p.0) {
            assert(slot2[p.0] == slot[p.0]);
        }
    }
    assert(pairs_of(slot2, after) =~= pairs_of(slot, before).insert((a, b)));
    assert forall|x: Seq<char>, y: Seq<char>|
        #![trigger slot2[x], slot2[y]]
        slot2.contains_key(x) && slot2.contains_key(y) && slot2[x] == slot2[y] implies x == y by {
        if x != a {
            assert(slot.contains_key(x));
        }
        if y != a {
            assert(slot.contains_key(y));
        }
    }
}

impl View for MergeSet {
    type V = Set<(Seq<char>, Seq<char>)>;

    /// The pairs of the set.
    closed spec fn view(&self) -> Set<(Seq<char>, Seq<char>)> {
        pairs_of(self.slot@, self.rights@)
    }
}

impl MergeSet {
    /// The table of the set is in order.
    pub closed spec fn wf(&self) -> bool {
        slots_apart(self.slot@, self.rights@.len())
    }

    /// The set without pairs.
    pub fn new() -> (r: MergeSet)
        ensures
            r.wf(),
            r@ == Set::<(Seq<char>, Seq<char>)>::empty(),
    {
        let r = MergeSet { slot: StringHashMap::new(), rights: Vec::new() };
        assert(r@ =~= Set::empty());
        r
    }

    /// Whether the pair is in the set.
    pub fn contains(&self, a: &str, b: &str) -> (r: bool)
        requires
            self.wf(),
        ensures
            r == self@.contains((a@, b@)),
    {
        match self.slot.get(a) {
            Some(at) => self.rights[*at].contains(b),
            None => false,
        }
    }

    /// Puts the pair into the set.
    pub fn insert(&mut self, a: &str, b: &str)
        requires
            old(self).wf(),
        ensures
            final(self).wf(),
            final(self)@ == old(self)@.insert((a@, b@)),
    {
        let ghost slot = self.slot@;
        let ghost before = self.rights@;
        match self.slot.get(a) {
            Some(at) => {
                let at: usize = *at;
                self.rights[at].insert(String::from_str(b));
                proof {
                    lemma_right_added(slot, before, self.rights@, a@, b@);
                }
            },
            None => {
                let at = self.rights.len();
                let mut set = StringHashSet::new();
                set.insert(String::from_str(b));
                self.slot.insert(String::from_str(a), at);
                self.rights.push(set);
                proof {
                    lemma_left_added(slot, before, self.rights@, a@, b@, at);
                }
            },
        }
    }
}

} // verus!
