//! The persisted form of a model: plain data with public fields and no
//! invariant, mirroring the live model field for field.  The index map a
//! live model implies is omitted: the position of an entry in `stats` is its
//! vocabulary index, so loading rebuilds the same indices deterministically.
//! Loading validates every structural invariant and refuses a snapshot that
//! breaks one, so a round trip preserves every count and every index.

use vstd::prelude::*;
use crate::sums::{sum_int, lemma_sum_take_succ, lemma_sum_take_le};
use crate::markov::{ConfigView, StatsView, ModelView, index_list_wf};

verus! {

/// Persisted delimiter configuration.
pub struct Config {
    pub paragraph_delimiter: char,
    pub word_delimiters: Vec<char>,
}

impl View for Config {
    type V = ConfigView;

    open spec fn view(&self) -> ConfigView {
        ConfigView {
            paragraph_delimiter: self.paragraph_delimiter,
            word_delimiters: self.word_delimiters@,
        }
    }
}

/// Persisted per-word counters; the `Nth` entry of a snapshot belongs to
/// vocabulary index `N`.
pub struct WordStats {
    pub word: String,
    pub occurrences: u64,
    pub next_occurrences: Vec<u64>,
    pub next_total: u64,
    pub start_occurrences: u64,
    pub end_occurrences: u64,
}

impl View for WordStats {
    type V = StatsView;

    open spec fn view(&self) -> StatsView {
        StatsView {
            word: self.word@,
            occurrences: self.occurrences as int,
            next_occurrences: self.next_occurrences@.map_values(|c: u64| c as int),
            next_total: self.next_total as int,
            start_occurrences: self.start_occurrences as int,
            end_occurrences: self.end_occurrences as int,
        }
    }
}

/// A whole persisted model.
pub struct Model {
    pub config: Config,
    pub start_words: Vec<usize>,
    pub start_total: u64,
    pub end_words: Vec<usize>,
    pub end_total: u64,
    pub stats: Vec<WordStats>,
}

impl View for Model {
    type V = ModelView;

    open spec fn view(&self) -> ModelView {
        ModelView {
            config: self.config@,
            start_words: self.start_words@.map_values(|i: usize| i as int),
            start_total: self.start_total as int,
            end_words: self.end_words@.map_values(|i: usize| i as int),
            end_total: self.end_total as int,
            stats: self.stats@.map_values(|s: WordStats| s@),
        }
    }
}

/// An element-wise copy of a vector of counters.
fn copy_u64s(v: &Vec<u64>) -> (r: Vec<u64>)
    ensures
        r@ =~= v@,
{
    let mut r: Vec<u64> = Vec::new();
    let mut i: usize = 0;
    while i < v.len()
        invariant
            i <= v@.len(),
            r@.len() == i,
            forall|j: int| 0 <= j < i ==> #[trigger] r@[j] == v@[j],
        decreases v@.len() - i,
    {
        r.push(v[i]);
        i += 1;
    }
    r
}

/// An element-wise copy of a vector of characters.
fn copy_chars(v: &Vec<char>) -> (r: Vec<char>)
    ensures
        r@ =~= v@,
{
    let mut r: Vec<char> = Vec::new();
    let mut i: usize = 0;
    while i < v.len()
        invariant
            i <= v@.len(),
            r@.len() == i,
            forall|j: int| 0 <= j < i ==> #[trigger] r@[j] == v@[j],
        decreases v@.len() - i,
    {
        r.push(v[i]);
        i += 1;
    }
    r
}

/// An element-wise copy of a vector of indices.
fn copy_usizes(v: &Vec<usize>) -> (r: Vec<usize>)
    ensures
        r@ =~= v@,
{
    let mut r: Vec<usize> = Vec::new();
    let mut i: usize = 0;
    while i < v.len()
        invariant
            i <= v@.len(),
            r@.len() == i,
            forall|j: int| 0 <= j < i ==> #[trigger] r@[j] == v@[j],
        decreases v@.len() - i,
    {
        r.push(v[i]);
        i += 1;
    }
    r
}

/// The sum of a vector of counters, or `None` if it exceeds the counter
/// range.
fn sum_u64s(v: &Vec<u64>) -> (r: Option<u64>)
    ensures
        match r {
            Some(t) => t as int == sum_int(v@.map_values(|c: u64| c as int)),
            None => sum_int(v@.map_values(|c: u64| c as int)) > u64::MAX,
        },
{
    let ghost cs = v@.map_values(|c: u64| c as int);
    proof {
        assert(cs.take(0) =~= Seq::<int>::empty());
    }
    let mut acc: u64 = 0;
    let mut i: usize = 0;
    while i < v.len()
        invariant
            i <= v@.len(),
            cs == v@.map_values(|c: u64| c as int),
            cs.len() == v@.len(),
            acc as int == sum_int(cs.take(i as int)),
        decreases v@.len() - i,
    {
        proof {
            lemma_sum_take_succ(cs, i as int);
        }
        match acc.checked_add(v[i]) {
            Some(a) => {
                acc = a;
            },
            None => {
                proof {
                    assert(forall|k: int| 0 <= k < cs.len() ==> cs[k] >= 0);
                    lemma_sum_take_le(cs, i + 1);
                }
                return None;
            },
        }
        i += 1;
    }
    proof {
        assert(cs.take(cs.len() as int) =~= cs);
    }
    Some(acc)
}

/// Whether `words` lists exactly the indices below `n` whose count in
/// `counts` is positive, each exactly once.
fn check_index_list(words: &Vec<usize>, counts: &Vec<u64>) -> (ok: bool)
    ensures
        ok == ({
            let ws = words@.map_values(|i: usize| i as int);
            &&& forall|k: int| 0 <= k < ws.len()
                ==> 0 <= #[trigger] ws[k] < counts@.len() && counts@[ws[k]] > 0
            &&& forall|i: int| 0 <= i < counts@.len() && counts@[i] > 0 ==> ws.contains(i)
            &&& forall|k1: int, k2: int| 0 <= k1 < k2 < ws.len()
                ==> #[trigger] ws[k1] != #[trigger] ws[k2]
        }),
{
    let ghost ws = words@.map_values(|i: usize| i as int);
    let mut k: usize = 0;
    while k < words.len()
        invariant
            k <= words@.len(),
            ws == words@.map_values(|i: usize| i as int),
            ws.len() == words@.len(),
            forall|j: int| 0 <= j < k
                ==> 0 <= #[trigger] ws[j] < counts@.len() && counts@[ws[j]] > 0,
            forall|j1: int, j2: int| 0 <= j1 < j2 < k ==> #[trigger] ws[j1] != #[trigger] ws[j2],
        decreases words@.len() - k,
    {
        let w = words[k];
        if w >= counts.len() || counts[w] == 0 {
            proof {
                assert(ws[k as int] == w as int);
                assert(!(0 <= ws[k as int] < counts@.len() && counts@[ws[k as int]] > 0));
            }
            return false;
        }
        let mut k2: usize = 0;
        while k2 < k
            invariant
                k2 <= k < words@.len(),
                ws == words@.map_values(|i: usize| i as int),
                ws.len() == words@.len(),
                ws[k as int] == w as int,
                forall|j: int| 0 <= j < k2 ==> #[trigger] ws[j] != w as int,
            decreases k - k2,
        {
            if words[k2] == w {
                proof {
                    assert(ws[k2 as int] == w as int);
                    assert(ws[k2 as int] == ws[k as int]);
                }
                return false;
            }
            k2 += 1;
        }
        k += 1;
    }
    let mut i: usize = 0;
    while i < counts.len()
        invariant
            i <= counts@.len(),
            ws == words@.map_values(|i: usize| i as int),
            ws.len() == words@.len(),
            forall|j: int| 0 <= j < ws.len()
                ==> 0 <= #[trigger] ws[j] < counts@.len() && counts@[ws[j]] > 0,
            forall|j1: int, j2: int| 0 <= j1 < j2 < ws.len()
                ==> #[trigger] ws[j1] != #[trigger] ws[j2],
            forall|j: int| 0 <= j < i && counts@[j] > 0 ==> ws.contains(j),
        decreases counts@.len() - i,
    {
        if counts[i] > 0 {
            let mut k3: usize = 0;
            let mut found = false;
            while k3 < words.len()
                invariant
                    k3 <= words@.len(),
                    ws == words@.map_values(|i2: usize| i2 as int),
                    ws.len() == words@.len(),
                    i < counts@.len(),
                    found ==> ws.contains(i as int),
                    !found ==> forall|j: int| 0 <= j < k3 ==> #[trigger] ws[j] != i as int,
                decreases words@.len() - k3,
            {
                if words[k3] == i {
                    found = true;
                    proof {
                        assert(ws[k3 as int] == i as int);
                    }
                }
                k3 += 1;
            }
            if !found {
                proof {
                    assert forall|j: int| 0 <= j < ws.len() implies ws[j] != i as int by {}
                    assert(!ws.contains(i as int));
                }
                return false;
            }
        }
        i += 1;
    }
    true
}

impl crate::markov::Model {
    /// Snapshot the live model into its persisted form: the same fields,
    /// entry for entry, with the implicit index map dropped.
    pub fn to_snapshot(&self) -> (s: Model)
        ensures
            s@ == self@,
    {
        let ghost v = self@;
        let mut stats2: Vec<WordStats> = Vec::new();
        let mut i: usize = 0;
        while i < self.stats.len()
            invariant
                i <= v.stats.len(),
                v == self@,
                v.stats.len() == self.stats@.len(),
                stats2@.len() == i,
                forall|j: int| 0 <= j < i ==> #[trigger] stats2@[j]@ == v.stats[j],
            decreases v.stats.len() - i,
        {
            let st = WordStats {
                word: self.stats[i].word.clone(),
                occurrences: self.stats[i].occurrences,
                next_occurrences: copy_u64s(&self.stats[i].next_occurrences),
                next_total: self.stats[i].next_total,
                start_occurrences: self.stats[i].start_occurrences,
                end_occurrences: self.stats[i].end_occurrences,
            };
            proof {
                assert(st@ =~= v.stats[i as int]);
            }
            stats2.push(st);
            i += 1;
        }
        let s = Model {
            config: Config {
                paragraph_delimiter: self.config.paragraph_delimiter,
                word_delimiters: copy_chars(&self.config.word_delimiters),
            },
            start_words: copy_usizes(&self.start_words),
            start_total: self.start_total,
            end_words: copy_usizes(&self.end_words),
            end_total: self.end_total,
            stats: stats2,
        };
        proof {
            assert(s@ =~~= v);
        }
        s
    }

    /// Load a model from its persisted form.  Every structural invariant of
    /// the live model is validated: row lengths, row sums, stored totals,
    /// word uniqueness, the start and end index lists, and the counting
    /// identities.  A snapshot that breaks any of them is refused with
    /// `None`; an accepted snapshot yields a model with exactly the
    /// snapshot's counts, words and index positions.
    #[verifier::rlimit(60)]
    pub fn from_snapshot(s: &Model) -> (r: Option<crate::markov::Model>)
        ensures
            match r {
                Some(m) => m@ == s@ && s@.wf() && s@.prob_wf(),
                None => !(s@.wf() && s@.prob_wf()),
            },
    {
        let ghost v = s@;
        let n = s.stats.len();
        let mut i: usize = 0;
        while i < n
            invariant
                i <= n,
                v == s@,
                n == v.stats.len(),
                n == s.stats@.len(),
                forall|j: int| 0 <= j < i
                    ==> (#[trigger] v.stats[j]).next_occurrences.len() == n,
                forall|j: int| 0 <= j < i ==> (#[trigger] v.stats[j]).next_total == sum_int(
                    v.stats[j].next_occurrences,
                ),
                forall|j: int| 0 <= j < i ==> (#[trigger] v.stats[j]).occurrences
                    == v.stats[j].next_total + v.stats[j].end_occurrences,
                forall|j: int| 0 <= j < i ==> (#[trigger] v.stats[j]).start_occurrences
                    <= v.stats[j].occurrences,
            decreases n - i,
        {
            proof {
                assert(v.stats[i as int] == s.stats@[i as int]@);
            }
            if s.stats[i].next_occurrences.len() != n {
                proof {
                    assert(v.stats[i as int].next_occurrences.len() != n);
                    assert(!v.rows_square());
                }
                return None;
            }
            let row_ok = match sum_u64s(&s.stats[i].next_occurrences) {
                Some(t) => t == s.stats[i].next_total,
                None => false,
            };
            if !row_ok {
                proof {
                    assert(v.stats[i as int].next_total != sum_int(
                        v.stats[i as int].next_occurrences,
                    ));
                    assert(!v.rows_total());
                }
                return None;
            }
            let ledger_ok = match s.stats[i].next_total.checked_add(s.stats[i].end_occurrences) {
                Some(x) => x == s.stats[i].occurrences,
                None => false,
            };
            if !ledger_ok {
                proof {
                    assert(v.stats[i as int].occurrences != v.stats[i as int].next_total
                        + v.stats[i as int].end_occurrences);
                    assert(!v.prob_wf());
                }
                return None;
            }
            if s.stats[i].start_occurrences > s.stats[i].occurrences {
                proof {
                    assert(!v.prob_wf());
                }
                return None;
            }
            i += 1;
        }
        let mut a: usize = 0;
        while a < n
            invariant
                a <= n,
                v == s@,
                n == v.stats.len(),
                n == s.stats@.len(),
                forall|j: int| 0 <= j < n
                    ==> (#[trigger] v.stats[j]).next_occurrences.len() == n,
                forall|x: int, y: int| 0 <= x < a && 0 <= y < n
                    ==> #[trigger] v.stats[x].next_occurrences[y] <= v.stats[y].occurrences,
            decreases n - a,
        {
            let mut b: usize = 0;
            while b < n
                invariant
                    a < n,
                    b <= n,
                    v == s@,
                    n == v.stats.len(),
                    n == s.stats@.len(),
                    forall|j: int| 0 <= j < n
                        ==> (#[trigger] v.stats[j]).next_occurrences.len() == n,
                    forall|y: int| 0 <= y < b
                        ==> #[trigger] v.stats[a as int].next_occurrences[y]
                            <= v.stats[y].occurrences,
                decreases n - b,
            {
                proof {
                    assert(v.stats[a as int] == s.stats@[a as int]@);
                    assert(v.stats[b as int] == s.stats@[b as int]@);
                    assert(s.stats@[a as int].next_occurrences@.len() == n);
                }
                if s.stats[a].next_occurrences[b] > s.stats[b].occurrences {
                    proof {
                        assert(v.stats[a as int].next_occurrences[b as int]
                            > v.stats[b as int].occurrences);
                        assert(!v.prob_wf());
                    }
                    return None;
                }
                b += 1;
            }
            a += 1;
        }
        let mut x: usize = 0;
        while x < n
            invariant
                x <= n,
                v == s@,
                n == v.stats.len(),
                n == s.stats@.len(),
                forall|j1: int, j2: int| 0 <= j1 < j2 < n && j1 < x
                    ==> (#[trigger] v.stats[j1]).word != (#[trigger] v.stats[j2]).word,
            decreases n - x,
        {
            let mut y: usize = x + 1;
            while y < n
                invariant
                    x < y <= n || (x + 1 == y && y >= n),
                    x < n,
                    v == s@,
                    n == v.stats.len(),
                    n == s.stats@.len(),
                    forall|j2: int| x < j2 < y
                        ==> (#[trigger] v.stats[j2]).word != v.stats[x as int].word,
                decreases n - y,
            {
                if s.stats[x].word == s.stats[y].word {
                    proof {
                        assert(v.stats[x as int] == s.stats@[x as int]@);
                        assert(v.stats[y as int] == s.stats@[y as int]@);
                        assert(v.stats[x as int].word == v.stats[y as int].word);
                        assert(!v.words_distinct());
                    }
                    return None;
                }
                y += 1;
            }
            x += 1;
        }
        let mut starts: Vec<u64> = Vec::new();
        let mut ends: Vec<u64> = Vec::new();
        let mut c: usize = 0;
        while c < n
            invariant
                c <= n,
                v == s@,
                n == v.stats.len(),
                n == s.stats@.len(),
                starts@.len() == c,
                ends@.len() == c,
                forall|j: int| 0 <= j < c ==> #[trigger] starts@[j] as int
                    == v.stats[j].start_occurrences,
                forall|j: int| 0 <= j < c ==> #[trigger] ends@[j] as int
                    == v.stats[j].end_occurrences,
            decreases n - c,
        {
            starts.push(s.stats[c].start_occurrences);
            ends.push(s.stats[c].end_occurrences);
            c += 1;
        }
        proof {
            assert(starts@.map_values(|c2: u64| c2 as int) =~= v.start_counts());
            assert(ends@.map_values(|c2: u64| c2 as int) =~= v.end_counts());
        }
        let start_sum_ok = match sum_u64s(&starts) {
            Some(t) => t == s.start_total,
            None => false,
        };
        if !start_sum_ok {
            proof {
                assert(v.start_total != sum_int(v.start_counts()));
            }
            return None;
        }
        let end_sum_ok = match sum_u64s(&ends) {
            Some(t) => t == s.end_total,
            None => false,
        };
        if !end_sum_ok {
            proof {
                assert(v.end_total != sum_int(v.end_counts()));
            }
            return None;
        }
        let start_list_ok = check_index_list(&s.start_words, &starts);
        proof {
            assert(start_list_ok == index_list_wf(v.start_words, v.stats, v.start_counts()));
        }
        if !start_list_ok {
            return None;
        }
        let end_list_ok = check_index_list(&s.end_words, &ends);
        proof {
            assert(end_list_ok == index_list_wf(v.end_words, v.stats, v.end_counts()));
        }
        if !end_list_ok {
            return None;
        }
        proof {
            assert(v.wf());
            assert(v.prob_wf());
        }
        let mut stats2: Vec<crate::markov::WordStats> = Vec::new();
        let mut i2: usize = 0;
        while i2 < n
            invariant
                i2 <= n,
                v == s@,
                n == v.stats.len(),
                n == s.stats@.len(),
                stats2@.len() == i2,
                forall|j: int| 0 <= j < i2 ==> #[trigger] stats2@[j]@ == v.stats[j],
            decreases n - i2,
        {
            let st = crate::markov::WordStats {
                word: s.stats[i2].word.clone(),
                occurrences: s.stats[i2].occurrences,
                next_occurrences: copy_u64s(&s.stats[i2].next_occurrences),
                next_total: s.stats[i2].next_total,
                start_occurrences: s.stats[i2].start_occurrences,
                end_occurrences: s.stats[i2].end_occurrences,
            };
            proof {
                assert(st@ =~= v.stats[i2 as int]);
            }
            stats2.push(st);
            i2 += 1;
        }
        let m = crate::markov::Model {
            config: crate::markov::Config {
                paragraph_delimiter: s.config.paragraph_delimiter,
                word_delimiters: copy_chars(&s.config.word_delimiters),
            },
            start_words: copy_usizes(&s.start_words),
            start_total: s.start_total,
            end_words: copy_usizes(&s.end_words),
            end_total: s.end_total,
            stats: stats2,
        };
        proof {
            assert(m@ =~~= v);
        }
        Some(m)
    }
}

} // verus!
