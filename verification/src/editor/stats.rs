//! Statistics of a tokenizer.

use vstd::prelude::*;
use vstd::string::*;
use crate::editor::reindex::{is_max_id, is_min_id};
use crate::editor::shrink::length_within;
use crate::editor::BPETokenizerEditor;
use crate::text::{char_len, is_special, is_special_token};

verus! {

/// The numbers that describe a tokenizer.
#[derive(Debug, Clone)]
pub struct TokenizerStats {
    pub vocab_size: usize,
    pub merges_count: usize,
    pub single_char_count: usize,
    pub special_token_count: usize,
    pub min_token_id: u32,
    pub max_token_id: u32,
    pub length_distribution: Vec<(usize, usize)>,
}

/// The test for an entry whose token is special.
pub open spec fn special_entry() -> spec_fn((Seq<char>, u32)) -> bool {
    |e: (Seq<char>, u32)| is_special(e.0)
}

/// The number of entries whose token has `len` characters.
pub open spec fn count_of_length(es: Seq<(Seq<char>, u32)>, len: usize) -> nat {
    es.filter(length_within(len, len)).len()
}

/// The distribution lists the length.
pub open spec fn lists_length(dist: Seq<(usize, usize)>, len: usize) -> bool {
    exists|a: int| 0 <= a < dist.len() && (#[trigger] dist[a]).0 == len
}

/// `dist` is the distribution of the token lengths: each length that
/// occurs, in ascending order, with the number of tokens that have it.
pub open spec fn is_length_distribution(es: Seq<(Seq<char>, u32)>, dist: Seq<(usize, usize)>) -> bool {
    &&& forall|a: int, b: int| 0 <= a < b < dist.len() ==> (#[trigger] dist[a]).0 < (#[trigger] dist[b]).0
    &&& forall|a: int|
        0 <= a < dist.len() ==> (#[trigger] dist[a]).1 > 0 && dist[a].1 == count_of_length(
            es,
            dist[a].0,
        )
    &&& forall|j: int| 0 <= j < es.len() ==> lists_length(dist, (#[trigger] es[j]).0.len() as usize)
}

/// A length that the distribution of a prefix does not list does not occur there.
proof fn lemma_unlisted_length(es: Seq<(Seq<char>, u32)>, dist: Seq<(usize, usize)>, len: usize)
    requires
        is_length_distribution(es, dist),
        !lists_length(dist, len),
        forall|j: int| 0 <= j < es.len() ==> (#[trigger] es[j]).0.len() <= usize::MAX,
    ensures
        count_of_length(es, len) == 0,
{
    let kept = es.filter(length_within(len, len));
    crate::seqs::lemma_filter_kept(es, length_within(len, len));
    if kept.len() > 0 {
        let x = kept[0];
        assert(es.contains(x));
        let j = choose|j: int| 0 <= j < es.len() && es[j] == x;
        assert(lists_length(dist, es[j].0.len() as usize));
    }
}

/// Counts one more token of length `len` in the distribution of the first
/// `i` entries.
fn count_length(
    dist: &mut Vec<(usize, usize)>,
    len: usize,
    Ghost(es): Ghost<Seq<(Seq<char>, u32)>>,
    Ghost(i): Ghost<int>,
)
    requires
        0 <= i < es.len(),
        es.len() <= usize::MAX,
        es[i].0.len() == len,
        forall|j: int| 0 <= j < es.len() ==> (#[trigger] es[j]).0.len() <= usize::MAX,
        is_length_distribution(es.take(i), old(dist)@),
    ensures
        is_length_distribution(es.take(i + 1), final(dist)@),
{
    let ghost before = dist@;
    let ghost part = es.take(i);
    let ghost more = es.take(i + 1);
    proof {
        assert forall|l: usize| count_of_length(more, l) == count_of_length(part, l) + if l == len {
            1nat
        } else {
            0nat
        } by {
            crate::seqs::lemma_filter_step(es, length_within(l, l), i);
        }
        assert forall|j: int| 0 <= j < part.len() implies (#[trigger] part[j]).0.len() <= usize::MAX by {
            assert(part[j] == es[j]);
        }
    }
    let mut a: usize = 0;
    while a < dist.len() && dist[a].0 < len
        invariant
            a <= dist@.len(),
            dist@ == before,
            forall|b: int| 0 <= b < a ==> (#[trigger] before[b]).0 < len,
        decreases dist@.len() - a,
    {
        a = a + 1;
    }
    if a < dist.len() && dist[a].0 == len {
        let count = dist[a].1;
        proof {
            part.lemma_filter_len(length_within(len, len));
        }
        dist.set(a, (len, count + 1));
        proof {
            let now = dist@;
            assert forall|j: int| 0 <= j < more.len() implies lists_length(
                now,
                (#[trigger] more[j]).0.len() as usize,
            ) by {
                if j < i {
                    assert(part[j] == more[j]);
                    let b = choose|b: int|
                        0 <= b < before.len() && (#[trigger] before[b]).0 == part[j].0.len() as usize;
                    assert(now[b].0 == before[b].0);
                } else {
                    assert(now[a as int].0 == len);
                }
            }
            assert forall|x: int, y: int| 0 <= x < y < now.len() implies (#[trigger] now[x]).0 < (
            #[trigger] now[y]).0 by {
                assert(now[x].0 == before[x].0 && now[y].0 == before[y].0);
            }
            assert forall|x: int| 0 <= x < now.len() implies (#[trigger] now[x]).1 > 0 && now[x].1
                == count_of_length(more, now[x].0) by {
                if x != a {
                    assert(now[x] == before[x]);
                    if x < a {
                        assert(before[x].0 < before[a as int].0);
                    } else {
                        assert(before[a as int].0 < before[x].0);
                    }
                }
            }
        }
    } else {
        proof {
            if lists_length(before, len) {
                let b = choose|b: int| 0 <= b < before.len() && (#[trigger] before[b]).0 == len;
                if b >= a {
                    assert(before[a as int].0 <= before[b].0);
                }
            }
            lemma_unlisted_length(part, before, len);
        }
        dist.insert(a, (len, 1));
        proof {
            let now = dist@;
            assert forall|j: int| 0 <= j < more.len() implies lists_length(
                now,
                (#[trigger] more[j]).0.len() as usize,
            ) by {
                if j < i {
                    assert(part[j] == more[j]);
                    let b = choose|b: int|
                        0 <= b < before.len() && (#[trigger] before[b]).0 == part[j].0.len() as usize;
                    if b < a {
                        assert(now[b].0 == before[b].0);
                    } else {
                        assert(now[b + 1].0 == before[b].0);
                    }
                } else {
                    assert(now[a as int].0 == len);
                }
            }
            assert forall|x: int, y: int| 0 <= x < y < now.len() implies (#[trigger] now[x]).0 < (
            #[trigger] now[y]).0 by {
                if x < a && y > a {
                    assert(now[x] == before[x] && now[y] == before[y - 1]);
                } else if x == a {
                    assert(now[y] == before[y - 1]);
                    if y - 1 > a {
                        assert(before[a as int].0 < before[y - 1].0);
                    }
                } else if y == a {
                    assert(now[x] == before[x]);
                } else if y < a {
                    assert(now[x] == before[x] && now[y] == before[y]);
                } else {
                    assert(now[x] == before[x - 1] && now[y] == before[y - 1]);
                }
            }
            assert forall|x: int| 0 <= x < now.len() implies (#[trigger] now[x]).1 > 0 && now[x].1
                == count_of_length(more, now[x].0) by {
                if x < a {
                    assert(now[x] == before[x]);
                } else if x > a {
                    assert(now[x] == before[x - 1]);
                    if x - 1 > a {
                        assert(before[a as int].0 < before[x - 1].0);
                    }
                }
            }
        }
    }
}

impl BPETokenizerEditor {
    /// The statistics of the tokenizer: its sizes, the number of tokens of
    /// one character and of special tokens, the smallest and the largest id
    /// (0 where there is no token), and how many tokens have each length.
    pub fn get_stats(&self) -> (r: TokenizerStats)
        requires
            self.vocab.wf(),
        ensures
            r.vocab_size == self@.vocab.len(),
            r.merges_count == self@.merges.len(),
            r.single_char_count == self.vocab.entries().filter(length_within(1, 1)).len(),
            r.special_token_count == self.vocab.entries().filter(special_entry()).len(),
            self@.vocab.len() == 0 ==> r.min_token_id == 0 && r.max_token_id == 0,
            self@.vocab.len() > 0 ==> is_min_id(self@.vocab, r.min_token_id) && is_max_id(
                self@.vocab,
                r.max_token_id,
            ),
            is_length_distribution(self.vocab.entries(), r.length_distribution@),
    {
        let ghost es = self.vocab.entries();
        let n = self.vocab_size();
        let (_, _, min_token_id, max_token_id) = self.check_vocab_gaps();
        let mut single_char_count: usize = 0;
        let mut special_token_count: usize = 0;
        let mut dist: Vec<(usize, usize)> = Vec::new();
        let mut i: usize = 0;
        proof {
            crate::seqs::lemma_filter_start(es, length_within(1, 1));
            crate::seqs::lemma_filter_start(es, special_entry());
        }
        while i < n
            invariant
                i <= n,
                n == es.len(),
                es == self.vocab.entries(),
                single_char_count == es.take(i as int).filter(length_within(1, 1)).len(),
                special_token_count == es.take(i as int).filter(special_entry()).len(),
                single_char_count <= i,
                special_token_count <= i,
                forall|j: int| 0 <= j < i ==> (#[trigger] es[j]).0.len() <= usize::MAX,
                is_length_distribution(es.take(i as int), dist@),
            decreases n - i,
        {
            let token = self.vocab.token_at(i);
            let len = char_len(token);
            proof {
                crate::seqs::lemma_filter_step(es, length_within(1, 1), i as int);
                crate::seqs::lemma_filter_step(es, special_entry(), i as int);
            }
            if len == 1 {
                single_char_count = single_char_count + 1;
            }
            if is_special_token(token) {
                special_token_count = special_token_count + 1;
            }
            self.count_token_length(&mut dist, len, Ghost(i as int));
            i = i + 1;
        }
        proof {
            crate::seqs::lemma_filter_start(es, length_within(1, 1));
        }
        TokenizerStats {
            vocab_size: n,
            merges_count: self.merges.len(),
            single_char_count,
            special_token_count,
            min_token_id,
            max_token_id,
            length_distribution: dist,
        }
    }

    /// Counts the token at position `i` in the distribution of the entries before it.
    fn count_token_length(&self, dist: &mut Vec<(usize, usize)>, len: usize, Ghost(i): Ghost<int>)
        requires
            0 <= i < self.vocab.entries().len(),
            self.vocab.entries()[i].0.len() == len,
            forall|j: int| 0 <= j < i ==> (#[trigger] self.vocab.entries()[j]).0.len() <= usize::MAX,
            is_length_distribution(self.vocab.entries().take(i), old(dist)@),
        ensures
            is_length_distribution(self.vocab.entries().take(i + 1), final(dist)@),
    {
        let ghost es = self.vocab.entries();
        let n = self.vocab.len();
        let ghost cut = es.take(i + 1);
        proof {
            assert(cut.take(i) =~= es.take(i));
            assert(cut.take(i + 1) =~= cut);
            assert forall|j: int| 0 <= j < cut.len() implies (#[trigger] cut[j]).0.len() <= usize::MAX by {
                assert(cut[j] == es[j]);
            }
        }
        count_length(dist, len, Ghost(cut), Ghost(i));
    }
}

} // verus!
