//! Paragraph generation: a weighted random walk over the trained statistics.
//!
//! Sampling works on the integer counts directly: a uniform draw below a
//! total picks the entry whose cumulative count range contains the draw,
//! which realizes the distribution `count[i] / total` without ever dividing.

use vstd::prelude::*;
use crate::sums::{
    sum_int, lemma_sum_nonneg, lemma_sum_le, lemma_sum_first, lemma_sum_take_succ,
    lemma_sum_take_le,
};
use crate::markov::{
    Model, ModelView, lemma_start_distribution_total, lemma_next_distribution_total,
};

verus! {

/// The index picked by a draw `r` from the cumulative ranges of `counts`:
/// the first index whose cumulative sum strictly exceeds `r`.
pub open spec fn spec_pick(counts: Seq<int>, r: int) -> int
    decreases counts.len(),
{
    if counts.len() == 0 {
        0
    } else if r < counts[0] {
        0
    } else {
        1 + spec_pick(counts.drop_first(), r - counts[0])
    }
}

/// The picked index is exactly the one whose cumulative range contains `r`.
pub proof fn lemma_spec_pick_cum(counts: Seq<int>, r: int, i: int)
    requires
        forall|k: int| 0 <= k < counts.len() ==> counts[k] >= 0,
        0 <= i < counts.len(),
        sum_int(counts.take(i)) <= r < sum_int(counts.take(i)) + counts[i],
    ensures
        spec_pick(counts, r) == i,
    decreases i,
{
    if i == 0 {
        assert(counts.take(0) =~= Seq::<int>::empty());
    } else {
        lemma_sum_first(counts.take(i));
        lemma_sum_nonneg(counts.take(i).drop_first());
        assert(counts.take(i)[0] == counts[0]);
        assert(r >= counts[0]);
        let d = counts.drop_first();
        assert(d.take(i - 1) =~= counts.take(i).drop_first());
        assert(d[i - 1] == counts[i]);
        lemma_spec_pick_cum(d, r - counts[0], i - 1);
    }
}

/// Pick a weighted index from integer counts: the first index whose
/// cumulative count exceeds `r`.
fn pick_weighted(counts: &Vec<u64>, r: u64) -> (idx: usize)
    requires
        (r as int) < sum_int(counts@.map_values(|c: u64| c as int)),
        sum_int(counts@.map_values(|c: u64| c as int)) <= u64::MAX,
    ensures
        idx < counts@.len(),
        idx as int == spec_pick(counts@.map_values(|c: u64| c as int), r as int),
        counts@[idx as int] > 0,
{
    let ghost cs = counts@.map_values(|c: u64| c as int);
    proof {
        assert(forall|k: int| 0 <= k < cs.len() ==> cs[k] >= 0);
        assert(cs.take(0) =~= Seq::<int>::empty());
    }
    let mut i: usize = 0;
    let mut cum: u64 = 0;
    while i < counts.len()
        invariant
            i <= counts@.len(),
            cs == counts@.map_values(|c: u64| c as int),
            cs.len() == counts@.len(),
            forall|k: int| 0 <= k < cs.len() ==> cs[k] >= 0,
            cum as int == sum_int(cs.take(i as int)),
            cum <= r,
            (r as int) < sum_int(cs),
            sum_int(cs) <= u64::MAX,
        decreases counts@.len() - i,
    {
        let c = counts[i];
        proof {
            lemma_sum_take_succ(cs, i as int);
            lemma_sum_take_le(cs, i + 1);
        }
        if r < cum + c {
            proof {
                lemma_spec_pick_cum(cs, r as int, i as int);
            }
            return i;
        }
        cum = cum + c;
        i += 1;
    }
    proof {
        assert(cs.take(cs.len() as int) =~= cs);
        assert(false);
    }
    0
}

/// Relies on rand::random_range: sampling the nonempty range `0..n` returns
/// one of its values, so the result is always below `n`.
#[verifier::external_body]
fn draw_below(n: u64) -> (r: u64)
    requires
        n > 0,
    ensures
        r < n,
{
    rand::random_range(0..n)
}

/// The most steps one generated paragraph may take: termination of the walk
/// is probabilistic, so a defensive cap keeps generation a total operation.
pub const GENERATION_CAP: usize = 1048576;

/// A nonempty sequence of indices starting at a word that has opened a
/// paragraph and following only observed transitions.
pub open spec fn walk_prefix(v: ModelView, idxs: Seq<int>) -> bool {
    &&& idxs.len() >= 1
    &&& forall|k: int| 0 <= k < idxs.len() ==> 0 <= #[trigger] idxs[k] < v.stats.len()
    &&& v.stats[idxs[0]].start_occurrences > 0
    &&& forall|k: int| 0 < k < idxs.len()
        ==> v.stats[idxs[k - 1]].next_occurrences[#[trigger] idxs[k]] > 0
}

/// A walk the generation can finish on: a walk prefix whose last word has
/// closed a paragraph.
pub open spec fn valid_walk(v: ModelView, idxs: Seq<int>) -> bool {
    &&& walk_prefix(v, idxs)
    &&& v.stats[idxs.last()].end_occurrences > 0
}

/// The words at the given indices joined with single spaces.
pub open spec fn spec_join(v: ModelView, idxs: Seq<int>) -> Seq<char>
    decreases idxs.len(),
{
    if idxs.len() == 0 {
        Seq::empty()
    } else if idxs.len() == 1 {
        v.stats[idxs[0]].word
    } else {
        spec_join(v, idxs.drop_last()) + seq![' '] + v.stats[idxs.last()].word
    }
}

impl Model {
    /// The per-word start counts, aligned with the vocabulary indices.
    fn start_counts_vec(&self) -> (counts: Vec<u64>)
        ensures
            counts@.len() == self@.stats.len(),
            counts@.map_values(|c: u64| c as int) =~= self@.start_counts(),
    {
        let mut counts: Vec<u64> = Vec::new();
        let mut i: usize = 0;
        while i < self.stats.len()
            invariant
                i <= self@.stats.len(),
                counts@.len() == i,
                forall|j: int| 0 <= j < i ==> #[trigger] counts@[j] as int
                    == self@.stats[j].start_occurrences,
            decreases self@.stats.len() - i,
        {
            counts.push(self.stats[i].start_occurrences);
            i += 1;
        }
        counts
    }

    /// Generate one paragraph by a weighted random walk: pick a start word
    /// by the start counts, then repeatedly stop with probability
    /// `end_occurrences / occurrences` or follow a transition picked by the
    /// current word's transition counts.  Whatever the random draws, the
    /// returned text joins, with single spaces, a walk of observed
    /// transitions from an observed start word, and that walk ends at an
    /// observed end word unless the defensive iteration cap cut it short.
    pub fn generate_paragraph(&self) -> (out: String)
        requires
            self@.wf(),
            self@.prob_wf(),
            self@.start_total > 0,
        ensures
            exists|idxs: Seq<int>|
                walk_prefix(self@, idxs) && out@ == spec_join(self@, idxs) && (valid_walk(
                    self@,
                    idxs,
                ) || idxs.len() >= GENERATION_CAP),
    {
        let ghost v = self@;
        let counts = self.start_counts_vec();
        proof {
            lemma_start_distribution_total(v);
        }
        let r = draw_below(self.start_total);
        let cur0 = pick_weighted(&counts, r);
        let mut cur = cur0;
        proof {
            assert(v.start_counts()[cur0 as int] == v.stats[cur0 as int].start_occurrences);
            assert(v.stats[cur0 as int].start_occurrences > 0);
        }
        let mut out = String::new();
        out.append(self.stats[cur].word.as_str());
        let ghost mut idxs: Seq<int> = seq![cur as int];
        proof {
            assert(Seq::<char>::empty() + v.stats[cur as int].word =~= v.stats[cur as int].word);
            assert(out@ == spec_join(v, idxs));
        }
        let mut fuel: usize = GENERATION_CAP - 1;
        loop
            invariant_except_break
                self@ == v,
                v.wf(),
                v.prob_wf(),
                cur < v.stats.len(),
                idxs.len() >= 1,
                idxs.last() == cur as int,
                idxs.len() + fuel == GENERATION_CAP,
                forall|k: int| 0 <= k < idxs.len() ==> 0 <= #[trigger] idxs[k] < v.stats.len(),
                v.stats[idxs[0]].start_occurrences > 0,
                forall|k: int| 0 < k < idxs.len()
                    ==> v.stats[idxs[k - 1]].next_occurrences[#[trigger] idxs[k]] > 0,
                v.stats[cur as int].occurrences > 0,
                out@ == spec_join(v, idxs),
            ensures
                exists|ids: Seq<int>|
                    walk_prefix(v, ids) && out@ == spec_join(v, ids) && (valid_walk(v, ids)
                        || ids.len() >= GENERATION_CAP),
            decreases fuel,
        {
            let occ = self.stats[cur].occurrences;
            let u = draw_below(occ);
            if u < self.stats[cur].end_occurrences {
                proof {
                    assert(valid_walk(v, idxs));
                }
                break;
            }
            if fuel == 0 {
                proof {
                    assert(idxs.len() >= GENERATION_CAP);
                }
                break;
            }
            let nt = self.stats[cur].next_total;
            proof {
                assert(v.stats[cur as int].occurrences == v.stats[cur as int].next_total
                    + v.stats[cur as int].end_occurrences);
                assert(v.stats[cur as int].next_total > 0);
                lemma_next_distribution_total(v, cur as int);
            }
            let r2 = draw_below(nt);
            let next = pick_weighted(&self.stats[cur].next_occurrences, r2);
            proof {
                assert(v.stats[cur as int].next_occurrences[next as int] > 0);
                assert(next < v.stats.len());
                assert(v.stats[next as int].occurrences > 0);
            }
            out.append(" ");
            out.append(self.stats[next].word.as_str());
            proof {
                reveal_strlit(" ");
                assert((" ")@ =~= seq![' ']);
                let new_idxs = idxs.push(next as int);
                assert(new_idxs.drop_last() =~= idxs);
                assert(new_idxs.last() == next as int);
                assert(spec_join(v, new_idxs) == spec_join(v, idxs) + seq![' ']
                    + v.stats[next as int].word);
                idxs = new_idxs;
            }
            cur = next;
            fuel = fuel - 1;
        }
        out
    }

    /// Generate one paragraph from an explicit sequence of random draws, one
    /// draw for the start pick and then, per word, one for the end check and
    /// one for the transition pick, each reduced modulo the relevant total.
    /// The result is a function of the model and the draws alone, so a fixed
    /// draw sequence reproduces the same paragraph exactly; `None` means the
    /// draws ran out (or the model has no start word to offer).
    pub fn generate_paragraph_with(&self, draws: &Vec<u64>) -> (out: Option<String>)
        requires
            self@.wf(),
            self@.prob_wf(),
        ensures
            match out {
                Some(s) => spec_generate(self@, draws@) == Some(s@),
                None => spec_generate(self@, draws@) is None,
            },
    {
        let ghost v = self@;
        if self.start_total == 0 || draws.len() == 0 {
            return None;
        }
        let counts = self.start_counts_vec();
        proof {
            lemma_start_distribution_total(v);
        }
        let r0 = draws[0] % self.start_total;
        let mut cur = pick_weighted(&counts, r0);
        proof {
            assert(r0 as int == (draws@[0] as int) % v.start_total);
            assert(v.start_counts()[cur as int] == v.stats[cur as int].start_occurrences);
            assert(v.stats[cur as int].occurrences > 0);
        }
        let mut d: usize = 1;
        let mut out = String::new();
        out.append(self.stats[cur].word.as_str());
        let ghost mut prefix: Seq<int> = Seq::empty();
        proof {
            assert(Seq::<char>::empty() + v.stats[cur as int].word =~= v.stats[cur as int].word);
            assert(prefix.push(cur as int) =~= seq![cur as int]);
            assert(out@ == spec_join(v, prefix.push(cur as int)));
        }
        loop
            invariant
                self@ == v,
                v.wf(),
                v.prob_wf(),
                cur < v.stats.len(),
                v.stats[cur as int].occurrences > 0,
                1 <= d <= draws@.len(),
                out@ == spec_join(v, prefix.push(cur as int)),
                match spec_walk(v, cur as int, draws@.skip(d as int)) {
                    None => spec_generate(v, draws@) is None,
                    Some(t) => t.len() >= 1 && spec_generate(v, draws@) == Some(
                        spec_join(v, prefix + t),
                    ),
                },
            decreases draws@.len() - d,
        {
            if d >= draws.len() {
                proof {
                    assert(draws@.skip(d as int).len() == 0);
                }
                return None;
            }
            let ghost rem = draws@.skip(d as int);
            proof {
                assert(rem.len() > 0);
                assert(rem[0] == draws@[d as int]);
            }
            let occ = self.stats[cur].occurrences;
            let u = draws[d] % occ;
            if u < self.stats[cur].end_occurrences {
                proof {
                    assert(spec_walk(v, cur as int, rem) == Some(seq![cur as int]));
                    assert(prefix + seq![cur as int] =~= prefix.push(cur as int));
                }
                return Some(out);
            }
            if d + 1 >= draws.len() {
                proof {
                    assert(rem.len() == 1);
                    assert(spec_walk(v, cur as int, rem) is None);
                }
                return None;
            }
            let nt = self.stats[cur].next_total;
            proof {
                assert(v.stats[cur as int].occurrences == v.stats[cur as int].next_total
                    + v.stats[cur as int].end_occurrences);
                assert(v.stats[cur as int].next_total > 0);
                lemma_next_distribution_total(v, cur as int);
                assert(rem[1] == draws@[d + 1]);
            }
            let r2 = draws[d + 1] % nt;
            let next = pick_weighted(&self.stats[cur].next_occurrences, r2);
            proof {
                assert(v.stats[cur as int].next_occurrences[next as int] > 0);
                assert(next < v.stats.len());
                assert(v.stats[next as int].occurrences > 0);
                assert(rem.skip(2) =~= draws@.skip(d + 2));
            }
            out.append(" ");
            out.append(self.stats[next].word.as_str());
            proof {
                reveal_strlit(" ");
                assert((" ")@ =~= seq![' ']);
                let p2 = prefix.push(cur as int);
                assert(p2.push(next as int).drop_last() =~= p2);
                assert(p2.push(next as int).last() == next as int);
                assert(spec_join(v, p2.push(next as int)) == spec_join(v, p2) + seq![' ']
                    + v.stats[next as int].word);
                match spec_walk(v, next as int, draws@.skip(d + 2)) {
                    None => {
                        assert(spec_walk(v, cur as int, rem) is None);
                    },
                    Some(t2) => {
                        assert(spec_walk(v, cur as int, rem) == Some(seq![cur as int] + t2));
                        assert(prefix + (seq![cur as int] + t2) =~= p2 + t2);
                    },
                }
                prefix = p2;
            }
            cur = next;
            d = d + 2;
        }
    }
}

/// One step of the deterministic walk from `cur`: the first draw, reduced
/// modulo the word's occurrence count, decides between ending here and
/// taking the transition the second draw picks.  `None` means the draws ran
/// out before the walk ended.
pub open spec fn spec_walk(v: ModelView, cur: int, draws: Seq<u64>) -> Option<Seq<int>>
    decreases draws.len(),
{
    if draws.len() == 0 {
        None
    } else {
        let occ = v.stats[cur].occurrences;
        if occ <= 0 {
            None
        } else {
            let u = (draws[0] as int) % occ;
            if u < v.stats[cur].end_occurrences {
                Some(seq![cur])
            } else if draws.len() == 1 {
                None
            } else {
                let nt = v.stats[cur].next_total;
                if nt <= 0 {
                    None
                } else {
                    let r = (draws[1] as int) % nt;
                    let next = spec_pick(v.stats[cur].next_occurrences, r);
                    match spec_walk(v, next, draws.skip(2)) {
                        None => None,
                        Some(t) => Some(seq![cur] + t),
                    }
                }
            }
        }
    }
}

/// The paragraph a draw sequence produces: the first draw picks the start
/// word, the rest drive the walk, and the walk's words are joined with
/// single spaces.
pub open spec fn spec_generate(v: ModelView, draws: Seq<u64>) -> Option<Seq<char>> {
    if draws.len() == 0 || v.start_total <= 0 {
        None
    } else {
        let r = (draws[0] as int) % v.start_total;
        let first = spec_pick(v.start_counts(), r);
        match spec_walk(v, first, draws.skip(1)) {
            None => None,
            Some(ids) => Some(spec_join(v, ids)),
        }
    }
}

/// A model holding exactly one word, which has opened a paragraph and has no
/// recorded successor, can only walk through that word once: whatever the
/// random draws, the generated paragraph is exactly that word.
pub proof fn lemma_single_word_generates(v: ModelView, idxs: Seq<int>)
    requires
        v.wf(),
        v.stats.len() == 1,
        v.stats[0].start_occurrences > 0,
        v.stats[0].next_total == 0,
        walk_prefix(v, idxs),
    ensures
        idxs =~= seq![0int],
        spec_join(v, idxs) == v.stats[0].word,
{
    if idxs.len() >= 2 {
        assert(idxs[0] == 0 && idxs[1] == 0);
        assert(v.stats[0].next_occurrences[0] > 0);
        lemma_sum_le(v.stats[0].next_occurrences, 0);
        assert(false);
    }
    assert(idxs.len() == 1);
    assert(idxs[0] == 0);
    assert(idxs =~= seq![0int]);
}

} // verus!
