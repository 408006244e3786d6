//! Word-level Markov chain model: vocabulary, transition statistics, training.
//!
//! Tokenization is character-based: a word is a maximal run of characters
//! between configured delimiter characters.  Counts are exact `u64` tallies;
//! the derived probability of an event is its count divided by the matching
//! total, a division the callers perform themselves.

pub mod serialize;
pub mod generate;

use vstd::prelude::*;
use crate::sums::{sum_int, lemma_sum_nonneg, lemma_sum_le, lemma_sum_push, lemma_sum_update};
use crate::split::{spec_split, split_words, lemma_split_weight, sum_lens};

verus! {

/// Delimiter configuration: one paragraph delimiter character and a set of
/// word delimiter characters.
pub struct Config {
    pub paragraph_delimiter: char,
    pub word_delimiters: Vec<char>,
}

/// Ghost image of a `Config`.
#[verifier::ext_equal]
pub ghost struct ConfigView {
    pub paragraph_delimiter: char,
    pub word_delimiters: Seq<char>,
}

impl View for Config {
    type V = ConfigView;

    open spec fn view(&self) -> ConfigView {
        ConfigView {
            paragraph_delimiter: self.paragraph_delimiter,
            word_delimiters: self.word_delimiters@,
        }
    }
}

impl Config {
    /// Configuration for plain prose: paragraphs end at a newline, words are
    /// separated by spaces and tabs.
    pub fn prose() -> (cfg: Config)
        ensures
            cfg@.paragraph_delimiter == '\n',
            cfg@.word_delimiters =~= seq![' ', '\t'],
    {
        Config { paragraph_delimiter: '\n', word_delimiters: vec![' ', '\t'] }
    }
}

/// Per-word counters: how often the word was seen, opened or closed a
/// paragraph, and how often each vocabulary word immediately followed it.
pub struct WordStats {
    pub word: String,
    pub occurrences: u64,
    pub next_occurrences: Vec<u64>,
    pub next_total: u64,
    pub start_occurrences: u64,
    pub end_occurrences: u64,
}

/// Ghost image of one word's counters, with mathematical integers.
#[verifier::ext_equal]
pub ghost struct StatsView {
    pub word: Seq<char>,
    pub occurrences: int,
    pub next_occurrences: Seq<int>,
    pub next_total: int,
    pub start_occurrences: int,
    pub end_occurrences: int,
}

impl View for WordStats {
    type V = StatsView;

    open spec fn view(&self) -> StatsView {
        StatsView {
            word: self.word@,
            occurrences: self.occurrences as int,
            next_occurrences: self.next_occurrences@.map_values(|c: u64| c as int),
            next_total: self.next_total as int,
            start_occurrences: self.start_occurrences as int,
            end_occurrences: self.end_occurrences as int,
        }
    }
}

impl WordStats {
    /// A fresh all-zero row for a word entering a vocabulary that will have
    /// `index + 1` entries once the row is appended.
    pub fn new(word: &String, index: usize) -> (st: WordStats)
        requires
            index < usize::MAX,
        ensures
            st@.word == word@,
            st@.occurrences == 0,
            st@.next_total == 0,
            st@.start_occurrences == 0,
            st@.end_occurrences == 0,
            st@.next_occurrences =~= Seq::new((index + 1) as nat, |j: int| 0int),
    {
        let row: Vec<u64> = vec![0; index + 1];
        let st = WordStats {
            word: word.clone(),
            occurrences: 0,
            next_occurrences: row,
            next_total: 0,
            start_occurrences: 0,
            end_occurrences: 0,
        };
        proof {
            assert(st@.next_occurrences =~= Seq::new((index + 1) as nat, |j: int| 0int));
        }
        st
    }
}

/// Markov chain model: known words, and the statistics connecting them.
pub struct Model {
    pub config: Config,
    pub start_words: Vec<usize>,
    pub start_total: u64,
    pub end_words: Vec<usize>,
    pub end_total: u64,
    pub stats: Vec<WordStats>,
}

/// Ghost image of a whole model.
#[verifier::ext_equal]
pub ghost struct ModelView {
    pub config: ConfigView,
    pub start_words: Seq<int>,
    pub start_total: int,
    pub end_words: Seq<int>,
    pub end_total: int,
    pub stats: Seq<StatsView>,
}

impl View for Model {
    type V = ModelView;

    open spec fn view(&self) -> ModelView {
        ModelView {
            config: self.config@,
            start_words: self.start_words@.map_values(|i: usize| i as int),
            start_total: self.start_total as int,
            end_words: self.end_words@.map_values(|i: usize| i as int),
            end_total: self.end_total as int,
            stats: self.stats@.map_values(|s: WordStats| s@),
        }
    }
}

/// Whether some entry holds the word `w`.
pub open spec fn has_word(stats: Seq<StatsView>, w: Seq<char>) -> bool {
    exists|i: int| 0 <= i < stats.len() && stats[i].word == w
}

/// The index of the entry holding the word `w` (meaningful when the words are
/// distinct and `has_word` holds).
pub open spec fn word_idx(stats: Seq<StatsView>, w: Seq<char>) -> int {
    choose|i: int| 0 <= i < stats.len() && stats[i].word == w
}

/// An index list field (`start_words` / `end_words`) lists exactly the
/// indices whose count in `counts` is positive, each once.
pub open spec fn index_list_wf(words: Seq<int>, stats: Seq<StatsView>, counts: Seq<int>) -> bool {
    &&& forall|k: int| 0 <= k < words.len() ==> 0 <= #[trigger] words[k] < stats.len() && counts[words[k]] > 0
    &&& forall|i: int| 0 <= i < stats.len() && counts[i] > 0 ==> words.contains(i)
    &&& forall|k1: int, k2: int| 0 <= k1 < k2 < words.len() ==> #[trigger] words[k1] != #[trigger] words[k2]
}

impl ModelView {
    pub open spec fn start_counts(self) -> Seq<int> {
        self.stats.map_values(|s: StatsView| s.start_occurrences)
    }

    pub open spec fn end_counts(self) -> Seq<int> {
        self.stats.map_values(|s: StatsView| s.end_occurrences)
    }

    pub open spec fn occ_counts(self) -> Seq<int> {
        self.stats.map_values(|s: StatsView| s.occurrences)
    }

    pub open spec fn next_totals(self) -> Seq<int> {
        self.stats.map_values(|s: StatsView| s.next_total)
    }

    /// All counters are nonnegative.
    pub open spec fn nonneg(self) -> bool {
        &&& forall|i: int| 0 <= i < self.stats.len() ==> {
            &&& (#[trigger] self.stats[i]).occurrences >= 0
            &&& self.stats[i].next_total >= 0
            &&& self.stats[i].start_occurrences >= 0
            &&& self.stats[i].end_occurrences >= 0
        }
        &&& forall|i: int, j: int|
            0 <= i < self.stats.len() && 0 <= j < self.stats[i].next_occurrences.len()
                ==> #[trigger] self.stats[i].next_occurrences[j] >= 0
    }

    /// Every transition row spans the whole current vocabulary.
    pub open spec fn rows_square(self) -> bool {
        forall|i: int| 0 <= i < self.stats.len()
            ==> (#[trigger] self.stats[i]).next_occurrences.len() == self.stats.len()
    }

    /// Each `next_total` is the sum of its row.
    pub open spec fn rows_total(self) -> bool {
        forall|i: int| 0 <= i < self.stats.len()
            ==> (#[trigger] self.stats[i]).next_total == sum_int(self.stats[i].next_occurrences)
    }

    /// The stored totals are the sums of the per-word counts.
    pub open spec fn totals_wf(self) -> bool {
        &&& self.start_total == sum_int(self.start_counts())
        &&& self.end_total == sum_int(self.end_counts())
    }

    /// Each word appears in at most one entry: index lookup is a bijection.
    pub open spec fn words_distinct(self) -> bool {
        forall|i: int, j: int| 0 <= i < j < self.stats.len()
            ==> (#[trigger] self.stats[i]).word != (#[trigger] self.stats[j]).word
    }

    /// Structural well-formedness of the model.
    pub open spec fn wf(self) -> bool {
        &&& self.nonneg()
        &&& self.rows_square()
        &&& self.rows_total()
        &&& self.totals_wf()
        &&& self.words_distinct()
        &&& index_list_wf(self.start_words, self.stats, self.start_counts())
        &&& index_list_wf(self.end_words, self.stats, self.end_counts())
    }

    /// The counting identities training maintains: every recorded occurrence
    /// of a word either has a recorded successor or closed a paragraph, and a
    /// word's occurrence count dominates the ways the generation walk can
    /// reach it.
    pub open spec fn prob_wf(self) -> bool {
        &&& forall|i: int| 0 <= i < self.stats.len() ==> (#[trigger] self.stats[i]).occurrences
            == self.stats[i].next_total + self.stats[i].end_occurrences
        &&& forall|i: int| 0 <= i < self.stats.len()
            ==> (#[trigger] self.stats[i]).start_occurrences <= self.stats[i].occurrences
        &&& forall|i: int, j: int|
            0 <= i < self.stats.len() && 0 <= j < self.stats.len()
                ==> #[trigger] self.stats[i].next_occurrences[j] <= self.stats[j].occurrences
    }

    /// Total amount of counting the model holds; every single counter is
    /// bounded by it, which bounds how close training is to overflowing.
    pub open spec fn mass(self) -> int {
        sum_int(self.start_counts()) + sum_int(self.end_counts()) + sum_int(self.next_totals())
            + sum_int(self.occ_counts())
    }
}

/// The model after registering the word `w`: unchanged if known, otherwise
/// every transition row gains a trailing zero and an all-zero entry for `w`
/// is appended, so indices stay dense and stable.
pub open spec fn sv_touch(v: ModelView, w: Seq<char>) -> ModelView {
    if has_word(v.stats, w) {
        v
    } else {
        ModelView {
            stats: v.stats.map_values(
                |s: StatsView| StatsView { next_occurrences: s.next_occurrences.push(0), ..s },
            ).push(
                StatsView {
                    word: w,
                    occurrences: 0,
                    next_occurrences: Seq::new((v.stats.len() + 1) as nat, |j: int| 0int),
                    next_total: 0,
                    start_occurrences: 0,
                    end_occurrences: 0,
                },
            ),
            ..v
        }
    }
}

/// One more paragraph opened with the word at index `i`.
pub open spec fn sv_count_start(v: ModelView, i: int) -> ModelView {
    let st = v.stats[i];
    ModelView {
        stats: v.stats.update(i, StatsView { start_occurrences: st.start_occurrences + 1, ..st }),
        start_total: v.start_total + 1,
        start_words: if st.start_occurrences == 0 {
            v.start_words.push(i)
        } else {
            v.start_words
        },
        ..v
    }
}

/// One more paragraph closed with the word at index `i`.
pub open spec fn sv_count_end(v: ModelView, i: int) -> ModelView {
    let st = v.stats[i];
    ModelView {
        stats: v.stats.update(i, StatsView { end_occurrences: st.end_occurrences + 1, ..st }),
        end_total: v.end_total + 1,
        end_words: if st.end_occurrences == 0 {
            v.end_words.push(i)
        } else {
            v.end_words
        },
        ..v
    }
}

/// One more generic occurrence of the word at index `i`.
pub open spec fn sv_count_occ(v: ModelView, i: int) -> ModelView {
    let st = v.stats[i];
    ModelView {
        stats: v.stats.update(i, StatsView { occurrences: st.occurrences + 1, ..st }),
        ..v
    }
}

/// One more observed transition from index `i` to index `j`.
pub open spec fn sv_count_pair(v: ModelView, i: int, j: int) -> ModelView {
    let st = v.stats[i];
    ModelView {
        stats: v.stats.update(
            i,
            StatsView {
                next_occurrences: st.next_occurrences.update(j, st.next_occurrences[j] + 1),
                next_total: st.next_total + 1,
                ..st
            },
        ),
        ..v
    }
}

/// Registering the first and last token and counting the start, the first
/// token's occurrence, and the end.
pub open spec fn sv_start_end(v: ModelView, toks: Seq<Seq<char>>) -> ModelView {
    let v1 = sv_touch(v, toks[0]);
    let v2 = sv_touch(v1, toks.last());
    let v3 = sv_count_start(v2, word_idx(v2.stats, toks[0]));
    let v4 = sv_count_occ(v3, word_idx(v3.stats, toks[0]));
    sv_count_end(v4, word_idx(v4.stats, toks.last()))
}

/// Counting the adjacent pairs `(toks[k-1], toks[k])` from position `k` on.
pub open spec fn sv_pairs(v: ModelView, toks: Seq<Seq<char>>, k: int) -> ModelView
    decreases toks.len() - k,
{
    if k < 1 || k >= toks.len() {
        v
    } else {
        let v1 = sv_touch(v, toks[k]);
        let v2 = sv_count_pair(
            v1,
            word_idx(v1.stats, toks[k - 1]),
            word_idx(v1.stats, toks[k]),
        );
        let v3 = sv_count_occ(v2, word_idx(v2.stats, toks[k]));
        sv_pairs(v3, toks, k + 1)
    }
}

/// Training on an already tokenized paragraph.
pub open spec fn sv_train_tokens(v: ModelView, toks: Seq<Seq<char>>) -> ModelView {
    if toks.len() == 0 {
        v
    } else {
        sv_pairs(sv_start_end(v, toks), toks, 1)
    }
}

/// Training on one paragraph of raw text: split it on the configured word
/// delimiters, then count starts, ends, occurrences and adjacent pairs.
pub open spec fn spec_train_paragraph(v: ModelView, s: Seq<char>) -> ModelView {
    sv_train_tokens(v, spec_split(s, v.config.word_delimiters))
}

/// Training on the paragraphs of a whole text, from position `k` on.
pub open spec fn sv_train_all(v: ModelView, paras: Seq<Seq<char>>, k: int) -> ModelView
    decreases paras.len() - k,
{
    if k < 0 || k >= paras.len() {
        v
    } else {
        sv_train_all(sv_train_tokens(v, spec_split(paras[k], v.config.word_delimiters)), paras, k + 1)
    }
}

/// Training on a whole text: split it into paragraphs on the configured
/// paragraph delimiter and train on each in order.
pub open spec fn spec_train_text(v: ModelView, s: Seq<char>) -> ModelView {
    sv_train_all(v, spec_split(s, seq![v.config.paragraph_delimiter]), 0)
}

/// With distinct words, an entry holding `w` is the unique one, and
/// `word_idx` finds it.
pub proof fn lemma_word_idx(stats: Seq<StatsView>, w: Seq<char>, i: int)
    requires
        forall|a: int, b: int| 0 <= a < b < stats.len()
            ==> (#[trigger] stats[a]).word != (#[trigger] stats[b]).word,
        0 <= i < stats.len(),
        stats[i].word == w,
    ensures
        has_word(stats, w),
        word_idx(stats, w) == i,
{
    assert(has_word(stats, w));
    let j = word_idx(stats, w);
    assert(0 <= j < stats.len() && stats[j].word == w);
    if i < j {
        assert(stats[i].word != stats[j].word);
    } else if j < i {
        assert(stats[j].word != stats[i].word);
    }
}

/// Every counter of a well-formed model is bounded by its mass.
pub proof fn lemma_count_le_mass(v: ModelView, i: int)
    requires
        v.wf(),
        0 <= i < v.stats.len(),
    ensures
        v.mass() >= 0,
        v.stats[i].start_occurrences <= v.mass(),
        v.stats[i].end_occurrences <= v.mass(),
        v.stats[i].occurrences <= v.mass(),
        v.stats[i].next_total <= v.mass(),
        v.start_total <= v.mass(),
        v.end_total <= v.mass(),
        forall|j: int| 0 <= j < v.stats[i].next_occurrences.len()
            ==> #[trigger] v.stats[i].next_occurrences[j] <= v.mass(),
{
    let sc = v.start_counts();
    let ec = v.end_counts();
    let nt = v.next_totals();
    let oc = v.occ_counts();
    assert forall|k: int| 0 <= k < v.stats.len() implies
        #[trigger] sc[k] >= 0 && ec[k] >= 0 && nt[k] >= 0 && oc[k] >= 0 by {}
    lemma_sum_nonneg(sc);
    lemma_sum_nonneg(ec);
    lemma_sum_nonneg(nt);
    lemma_sum_nonneg(oc);
    lemma_sum_le(sc, i);
    lemma_sum_le(ec, i);
    lemma_sum_le(nt, i);
    lemma_sum_le(oc, i);
    assert forall|j: int| 0 <= j < v.stats[i].next_occurrences.len() implies
        #[trigger] v.stats[i].next_occurrences[j] <= v.mass() by {
        lemma_sum_le(v.stats[i].next_occurrences, j);
    }
}

/// Registering a word keeps the model well formed, keeps its mass and every
/// existing counter, and makes the word present.
pub proof fn lemma_touch_wf(v: ModelView, w: Seq<char>)
    requires
        v.wf(),
    ensures
        sv_touch(v, w).wf(),
        sv_touch(v, w).mass() == v.mass(),
        sv_touch(v, w).config == v.config,
        sv_touch(v, w).start_words == v.start_words,
        sv_touch(v, w).start_total == v.start_total,
        sv_touch(v, w).end_words == v.end_words,
        sv_touch(v, w).end_total == v.end_total,
        v.stats.len() <= sv_touch(v, w).stats.len() <= v.stats.len() + 1,
        has_word(sv_touch(v, w).stats, w),
        forall|i: int| 0 <= i < v.stats.len() ==> {
            &&& (#[trigger] sv_touch(v, w).stats[i]).word == v.stats[i].word
            &&& sv_touch(v, w).stats[i].occurrences == v.stats[i].occurrences
            &&& sv_touch(v, w).stats[i].next_total == v.stats[i].next_total
            &&& sv_touch(v, w).stats[i].start_occurrences == v.stats[i].start_occurrences
            &&& sv_touch(v, w).stats[i].end_occurrences == v.stats[i].end_occurrences
        },
        forall|i: int, j: int| 0 <= i < v.stats.len() && 0 <= j < v.stats.len()
            ==> #[trigger] sv_touch(v, w).stats[i].next_occurrences[j]
                == v.stats[i].next_occurrences[j],
        forall|i: int| v.stats.len() <= i < sv_touch(v, w).stats.len() ==> {
            &&& (#[trigger] sv_touch(v, w).stats[i]).occurrences == 0
            &&& sv_touch(v, w).stats[i].next_total == 0
            &&& sv_touch(v, w).stats[i].start_occurrences == 0
            &&& sv_touch(v, w).stats[i].end_occurrences == 0
        },
        forall|i: int, j: int|
            0 <= i < sv_touch(v, w).stats.len() && 0 <= j < sv_touch(v, w).stats.len()
                && (i >= v.stats.len() || j >= v.stats.len())
                ==> #[trigger] sv_touch(v, w).stats[i].next_occurrences[j] == 0,
{
    if has_word(v.stats, w) {
        return;
    }
    let t = sv_touch(v, w);
    let n = v.stats.len() as int;
    assert forall|i: int| 0 <= i < n implies
        (#[trigger] t.stats[i]).next_occurrences =~= v.stats[i].next_occurrences.push(0) by {}
    assert forall|i: int| 0 <= i < n implies
        #[trigger] sum_int(t.stats[i].next_occurrences) == v.stats[i].next_total by {
        lemma_sum_push(v.stats[i].next_occurrences, 0);
    }
    assert(t.stats[n].next_occurrences =~= Seq::new((n + 1) as nat, |j: int| 0int));
    lemma_sum_zero(t.stats[n].next_occurrences);
    // the four count columns each gain one zero
    assert(t.start_counts() =~= v.start_counts().push(0));
    assert(t.end_counts() =~= v.end_counts().push(0));
    assert(t.next_totals() =~= v.next_totals().push(0));
    assert(t.occ_counts() =~= v.occ_counts().push(0));
    lemma_sum_push(v.start_counts(), 0);
    lemma_sum_push(v.end_counts(), 0);
    lemma_sum_push(v.next_totals(), 0);
    lemma_sum_push(v.occ_counts(), 0);
    // index lists still list exactly the positive counts
    assert forall|i: int| 0 <= i < t.stats.len() && t.start_counts()[i] > 0 implies
        t.start_words.contains(i) by {
        assert(i < n);
        assert(v.start_counts()[i] > 0);
    }
    assert forall|i: int| 0 <= i < t.stats.len() && t.end_counts()[i] > 0 implies
        t.end_words.contains(i) by {
        assert(i < n);
        assert(v.end_counts()[i] > 0);
    }
    assert(t.stats[n].word == w);
    assert(has_word(t.stats, w));
}

/// How the four count columns change when one entry is replaced.
proof fn lemma_columns_update(v: ModelView, i: int, st: StatsView)
    requires
        0 <= i < v.stats.len(),
    ensures
        ({
            let u = ModelView { stats: v.stats.update(i, st), ..v };
            &&& sum_int(u.start_counts()) == sum_int(v.start_counts())
                - v.stats[i].start_occurrences + st.start_occurrences
            &&& sum_int(u.end_counts()) == sum_int(v.end_counts())
                - v.stats[i].end_occurrences + st.end_occurrences
            &&& sum_int(u.next_totals()) == sum_int(v.next_totals())
                - v.stats[i].next_total + st.next_total
            &&& sum_int(u.occ_counts()) == sum_int(v.occ_counts())
                - v.stats[i].occurrences + st.occurrences
        }),
{
    let u = ModelView { stats: v.stats.update(i, st), ..v };
    assert(u.start_counts() =~= v.start_counts().update(i, st.start_occurrences));
    assert(u.end_counts() =~= v.end_counts().update(i, st.end_occurrences));
    assert(u.next_totals() =~= v.next_totals().update(i, st.next_total));
    assert(u.occ_counts() =~= v.occ_counts().update(i, st.occurrences));
    lemma_sum_update(v.start_counts(), i, st.start_occurrences);
    lemma_sum_update(v.end_counts(), i, st.end_occurrences);
    lemma_sum_update(v.next_totals(), i, st.next_total);
    lemma_sum_update(v.occ_counts(), i, st.occurrences);
}

/// An index list that lists exactly the positive counts still does after one
/// count is incremented and its index appended when it was fresh.
proof fn lemma_index_list_bump(words: Seq<int>, stats: Seq<StatsView>, counts: Seq<int>, i: int)
    requires
        index_list_wf(words, stats, counts),
        0 <= i < stats.len(),
        counts.len() == stats.len(),
        counts[i] >= 0,
    ensures
        index_list_wf(
            if counts[i] == 0 { words.push(i) } else { words },
            stats,
            counts.update(i, counts[i] + 1),
        ),
{
    let words2 = if counts[i] == 0 { words.push(i) } else { words };
    let counts2 = counts.update(i, counts[i] + 1);
    if counts[i] == 0 {
        assert forall|k: int| 0 <= k < words2.len() implies
            0 <= #[trigger] words2[k] < stats.len() && counts2[words2[k]] > 0 by {
            if k < words.len() {
                assert(words2[k] == words[k]);
            } else {
                assert(words2[k] == i);
            }
        }
        assert forall|j: int| 0 <= j < stats.len() && counts2[j] > 0 implies
            words2.contains(j) by {
            if j == i {
                assert(words2[words.len() as int] == i);
            } else {
                assert(counts[j] > 0);
                assert(words.contains(j));
                let k = choose|k: int| 0 <= k < words.len() && words[k] == j;
                assert(0 <= k < words.len() && words[k] == j);
                assert(words2[k] == words[k]);
            }
        }
        assert forall|k1: int, k2: int| 0 <= k1 < k2 < words2.len() implies
            #[trigger] words2[k1] != #[trigger] words2[k2] by {
            if k2 == words.len() {
                assert(words2[k2] == i);
                assert(counts[words[k1]] > 0);
            }
        }
    } else {
        assert forall|j: int| 0 <= j < stats.len() && counts2[j] > 0 implies
            words2.contains(j) by {
            if j == i {
                assert(words.contains(i));
            } else {
                assert(counts[j] > 0);
            }
        }
    }
}

/// Counting a paragraph start keeps the model well formed and adds one to
/// its mass; only the one start count, the start total and possibly the
/// start index list change.
pub proof fn lemma_count_start_wf(v: ModelView, i: int)
    requires
        v.wf(),
        0 <= i < v.stats.len(),
    ensures
        ({
            let u = sv_count_start(v, i);
            &&& u.wf()
            &&& u.mass() == v.mass() + 1
            &&& u.config == v.config
            &&& u.stats.len() == v.stats.len()
            &&& u.end_words == v.end_words
            &&& u.end_total == v.end_total
            &&& u.start_total == v.start_total + 1
            &&& forall|j: int| 0 <= j < v.stats.len() && j != i
                ==> #[trigger] u.stats[j] == v.stats[j]
            &&& u.stats[i] == StatsView {
                start_occurrences: v.stats[i].start_occurrences + 1,
                ..v.stats[i]
            }
        }),
{
    let st = v.stats[i];
    let st2 = StatsView { start_occurrences: st.start_occurrences + 1, ..st };
    let u = sv_count_start(v, i);
    lemma_columns_update(v, i, st2);
    assert(v.start_counts()[i] == st.start_occurrences);
    lemma_index_list_bump(v.start_words, v.stats, v.start_counts(), i);
    assert(u.start_counts() =~= v.start_counts().update(i, st.start_occurrences + 1));
    assert(u.end_counts() =~= v.end_counts());
    assert(index_list_wf(u.start_words, u.stats, u.start_counts()));
    assert(index_list_wf(u.end_words, u.stats, u.end_counts()));
}

/// Counting a paragraph end: the mirror image of counting a start.
pub proof fn lemma_count_end_wf(v: ModelView, i: int)
    requires
        v.wf(),
        0 <= i < v.stats.len(),
    ensures
        ({
            let u = sv_count_end(v, i);
            &&& u.wf()
            &&& u.mass() == v.mass() + 1
            &&& u.config == v.config
            &&& u.stats.len() == v.stats.len()
            &&& u.start_words == v.start_words
            &&& u.start_total == v.start_total
            &&& u.end_total == v.end_total + 1
            &&& forall|j: int| 0 <= j < v.stats.len() && j != i
                ==> #[trigger] u.stats[j] == v.stats[j]
            &&& u.stats[i] == StatsView {
                end_occurrences: v.stats[i].end_occurrences + 1,
                ..v.stats[i]
            }
        }),
{
    let st = v.stats[i];
    let st2 = StatsView { end_occurrences: st.end_occurrences + 1, ..st };
    let u = sv_count_end(v, i);
    lemma_columns_update(v, i, st2);
    assert(v.end_counts()[i] == st.end_occurrences);
    lemma_index_list_bump(v.end_words, v.stats, v.end_counts(), i);
    assert(u.end_counts() =~= v.end_counts().update(i, st.end_occurrences + 1));
    assert(u.start_counts() =~= v.start_counts());
    assert(index_list_wf(u.end_words, u.stats, u.end_counts()));
    assert(index_list_wf(u.start_words, u.stats, u.start_counts()));
}

/// Counting a generic occurrence keeps the model well formed and adds one to
/// its mass; only the one occurrence count changes.
pub proof fn lemma_count_occ_wf(v: ModelView, i: int)
    requires
        v.wf(),
        0 <= i < v.stats.len(),
    ensures
        ({
            let u = sv_count_occ(v, i);
            &&& u.wf()
            &&& u.mass() == v.mass() + 1
            &&& u.config == v.config
            &&& u.stats.len() == v.stats.len()
            &&& u.start_words == v.start_words
            &&& u.start_total == v.start_total
            &&& u.end_words == v.end_words
            &&& u.end_total == v.end_total
            &&& forall|j: int| 0 <= j < v.stats.len() && j != i
                ==> #[trigger] u.stats[j] == v.stats[j]
            &&& u.stats[i] == StatsView { occurrences: v.stats[i].occurrences + 1, ..v.stats[i] }
        }),
{
    let st = v.stats[i];
    let st2 = StatsView { occurrences: st.occurrences + 1, ..st };
    let u = sv_count_occ(v, i);
    lemma_columns_update(v, i, st2);
    assert(u.start_counts() =~= v.start_counts());
    assert(u.end_counts() =~= v.end_counts());
    assert(index_list_wf(u.start_words, u.stats, u.start_counts()));
    assert(index_list_wf(u.end_words, u.stats, u.end_counts()));
}

/// Counting a transition keeps the model well formed and adds one to its
/// mass; only the one row entry and that row's total change.
pub proof fn lemma_count_pair_wf(v: ModelView, i: int, j: int)
    requires
        v.wf(),
        0 <= i < v.stats.len(),
        0 <= j < v.stats.len(),
    ensures
        ({
            let u = sv_count_pair(v, i, j);
            &&& u.wf()
            &&& u.mass() == v.mass() + 1
            &&& u.config == v.config
            &&& u.stats.len() == v.stats.len()
            &&& u.start_words == v.start_words
            &&& u.start_total == v.start_total
            &&& u.end_words == v.end_words
            &&& u.end_total == v.end_total
            &&& forall|a: int| 0 <= a < v.stats.len() && a != i
                ==> #[trigger] u.stats[a] == v.stats[a]
            &&& u.stats[i] == StatsView {
                next_occurrences: v.stats[i].next_occurrences.update(
                    j,
                    v.stats[i].next_occurrences[j] + 1,
                ),
                next_total: v.stats[i].next_total + 1,
                ..v.stats[i]
            }
        }),
{
    let st = v.stats[i];
    let st2 = StatsView {
        next_occurrences: st.next_occurrences.update(j, st.next_occurrences[j] + 1),
        next_total: st.next_total + 1,
        ..st
    };
    let u = sv_count_pair(v, i, j);
    lemma_columns_update(v, i, st2);
    lemma_sum_update(st.next_occurrences, j, st.next_occurrences[j] + 1);
    assert(u.start_counts() =~= v.start_counts());
    assert(u.end_counts() =~= v.end_counts());
    assert(index_list_wf(u.start_words, u.stats, u.start_counts()));
    assert(index_list_wf(u.end_words, u.stats, u.end_counts()));
}

impl Model {
    /// A fresh, empty model with the given configuration.
    pub fn new(cfg: Config) -> (m: Model)
        ensures
            m@.config == cfg@,
            m@.stats.len() == 0,
            m@.start_words.len() == 0,
            m@.end_words.len() == 0,
            m@.start_total == 0,
            m@.end_total == 0,
            m@.wf(),
            m@.prob_wf(),
            m@.mass() == 0,
    {
        let m = Model {
            config: cfg,
            start_words: Vec::new(),
            start_total: 0,
            end_words: Vec::new(),
            end_total: 0,
            stats: Vec::new(),
        };
        proof {
            assert(m@.stats =~= Seq::<StatsView>::empty());
            assert(m@.start_words =~= Seq::<int>::empty());
            assert(m@.end_words =~= Seq::<int>::empty());
            assert(m@.start_counts() =~= Seq::<int>::empty());
            assert(m@.end_counts() =~= Seq::<int>::empty());
            assert(m@.next_totals() =~= Seq::<int>::empty());
            assert(m@.occ_counts() =~= Seq::<int>::empty());
        }
        m
    }

    /// A fresh, empty model with the prose configuration.
    pub fn new_prose() -> (m: Model)
        ensures
            m@.config.paragraph_delimiter == '\n',
            m@.config.word_delimiters =~= seq![' ', '\t'],
            m@.stats.len() == 0,
            m@.start_total == 0,
            m@.end_total == 0,
            m@.wf(),
            m@.prob_wf(),
            m@.mass() == 0,
    {
        Self::new(Config::prose())
    }

    /// The index of the entry holding `word`, if any.
    pub fn find_word(&self, word: &String) -> (r: Option<usize>)
        ensures
            match r {
                Some(i) => i < self@.stats.len() && self@.stats[i as int].word == word@,
                None => !has_word(self@.stats, word@),
            },
    {
        let mut k: usize = 0;
        while k < self.stats.len()
            invariant
                k <= self@.stats.len(),
                forall|j: int| 0 <= j < k ==> (#[trigger] self@.stats[j]).word != word@,
            decreases self@.stats.len() - k,
        {
            if self.stats[k].word == *word {
                return Some(k);
            }
            k += 1;
        }
        None
    }

    /// Register `word`: return its index if known, otherwise append a fresh
    /// all-zero entry for it, extending every transition row by one slot.
    pub fn touch_word(&mut self, word: &String) -> (idx: usize)
        requires
            old(self)@.words_distinct(),
            old(self)@.stats.len() < usize::MAX,
        ensures
            final(self)@ == sv_touch(old(self)@, word@),
            idx < final(self)@.stats.len(),
            final(self)@.stats[idx as int].word == word@,
            idx as int == word_idx(final(self)@.stats, word@),
    {
        let ghost v0 = self@;
        let found = self.find_word(word);
        match found {
            Some(i) => {
                proof {
                    lemma_word_idx(v0.stats, word@, i as int);
                }
                i
            },
            None => {
                let n = self.stats.len();
                let mut k: usize = 0;
                while k < n
                    invariant
                        k <= n,
                        self@.stats.len() == n,
                        n == v0.stats.len(),
                        self@.config == v0.config,
                        self@.start_words == v0.start_words,
                        self@.start_total == v0.start_total,
                        self@.end_words == v0.end_words,
                        self@.end_total == v0.end_total,
                        forall|j: int| 0 <= j < k ==> #[trigger] self@.stats[j] == (StatsView {
                            next_occurrences: v0.stats[j].next_occurrences.push(0),
                            ..v0.stats[j]
                        }),
                        forall|j: int| k <= j < n ==> #[trigger] self@.stats[j] == v0.stats[j],
                    decreases n - k,
                {
                    let ghost before = self@;
                    self.stats[k].next_occurrences.push(0);
                    proof {
                        assert(self@.stats[k as int].next_occurrences
                            =~= before.stats[k as int].next_occurrences.push(0));
                        assert(self@.stats[k as int] == StatsView {
                            next_occurrences: v0.stats[k as int].next_occurrences.push(0),
                            ..v0.stats[k as int]
                        });
                        assert forall|j: int| 0 <= j < n && j != k implies
                            #[trigger] self@.stats[j] == before.stats[j] by {}
                    }
                    k += 1;
                }
                let ghost pre = self@;
                let st = WordStats::new(word, n);
                self.stats.push(st);
                proof {
                    let t = sv_touch(v0, word@);
                    assert(!has_word(v0.stats, word@));
                    assert(self@.stats.len() == n + 1);
                    assert(t.stats.len() == n + 1);
                    assert forall|j: int| 0 <= j < n implies self@.stats[j] == t.stats[j] by {
                        assert(self@.stats[j] == pre.stats[j]);
                        assert(t.stats[j] == (StatsView {
                            next_occurrences: v0.stats[j].next_occurrences.push(0),
                            ..v0.stats[j]
                        }));
                    }
                    assert(self@.stats[n as int] == st@);
                    assert(st@.next_occurrences == t.stats[n as int].next_occurrences);
                    assert(self@.stats[n as int] =~= t.stats[n as int]);
                    assert(self@.stats =~= t.stats);
                    assert(self@ =~~= sv_touch(v0, word@));
                    assert forall|a: int, b: int| 0 <= a < b < self@.stats.len() implies
                        (#[trigger] self@.stats[a]).word != (#[trigger] self@.stats[b]).word by {
                        if b == n {
                            assert(self@.stats[a].word == v0.stats[a].word);
                            assert(!has_word(v0.stats, word@));
                        }
                    }
                    lemma_word_idx(self@.stats, word@, n as int);
                }
                n
            },
        }
    }

    /// Record that the word at `idx` opened a paragraph.
    fn count_start_occurrence(&mut self, idx: usize)
        requires
            idx < old(self)@.stats.len(),
            old(self)@.stats[idx as int].start_occurrences < u64::MAX,
            old(self)@.start_total < u64::MAX,
        ensures
            final(self)@ == sv_count_start(old(self)@, idx as int),
    {
        let ghost v0 = self@;
        let c = self.stats[idx].start_occurrences;
        self.stats[idx].start_occurrences = c + 1;
        let t = self.start_total;
        self.start_total = t + 1;
        if c == 0 {
            self.start_words.push(idx);
            proof {
                assert(self@.start_words =~= v0.start_words.push(idx as int));
            }
        }
        proof {
            assert(self@ =~~= sv_count_start(v0, idx as int));
        }
    }

    /// Record that the word at `idx` closed a paragraph.
    fn count_end_occurrence(&mut self, idx: usize)
        requires
            idx < old(self)@.stats.len(),
            old(self)@.stats[idx as int].end_occurrences < u64::MAX,
            old(self)@.end_total < u64::MAX,
        ensures
            final(self)@ == sv_count_end(old(self)@, idx as int),
    {
        let ghost v0 = self@;
        let c = self.stats[idx].end_occurrences;
        self.stats[idx].end_occurrences = c + 1;
        let t = self.end_total;
        self.end_total = t + 1;
        if c == 0 {
            self.end_words.push(idx);
            proof {
                assert(self@.end_words =~= v0.end_words.push(idx as int));
            }
        }
        proof {
            assert(self@ =~~= sv_count_end(v0, idx as int));
        }
    }

    /// Record one generic occurrence of the word at `idx`.
    fn count_occurrence(&mut self, idx: usize)
        requires
            idx < old(self)@.stats.len(),
            old(self)@.stats[idx as int].occurrences < u64::MAX,
        ensures
            final(self)@ == sv_count_occ(old(self)@, idx as int),
    {
        let ghost v0 = self@;
        let c = self.stats[idx].occurrences;
        self.stats[idx].occurrences = c + 1;
        proof {
            assert(self@ =~~= sv_count_occ(v0, idx as int));
        }
    }

    /// Record one observed transition from the word at `i` to the word at `j`.
    fn count_pair(&mut self, i: usize, j: usize)
        requires
            i < old(self)@.stats.len(),
            (j as int) < old(self)@.stats[i as int].next_occurrences.len(),
            old(self)@.stats[i as int].next_occurrences[j as int] < u64::MAX,
            old(self)@.stats[i as int].next_total < u64::MAX,
        ensures
            final(self)@ == sv_count_pair(old(self)@, i as int, j as int),
    {
        let ghost v0 = self@;
        let c = self.stats[i].next_occurrences[j];
        self.stats[i].next_occurrences[j] = c + 1;
        let t = self.stats[i].next_total;
        self.stats[i].next_total = t + 1;
        proof {
            assert(self@.stats[i as int].next_occurrences
                =~= v0.stats[i as int].next_occurrences.update(j as int, c + 1));
            assert(self@ =~~= sv_count_pair(v0, i as int, j as int));
        }
    }
}

/// Mid-training ledger: every occurrence already counted has a matching
/// outgoing-transition or end tally, except that the pair loop still owes the
/// word at `pi` its successor tally while the word at `li` had its paragraph
/// end tallied in advance.
pub open spec fn pairs_identity(v: ModelView, pi: int, li: int) -> bool {
    forall|w: int| 0 <= w < v.stats.len() ==> (#[trigger] v.stats[w]).occurrences
        == v.stats[w].next_total + v.stats[w].end_occurrences + (if w == pi {
            1int
        } else {
            0int
        }) - (if w == li {
            1int
        } else {
            0int
        })
}

/// The inequalities that keep the generation walk inside positive counts.
pub open spec fn reach_ineq(v: ModelView) -> bool {
    &&& forall|i: int| 0 <= i < v.stats.len()
        ==> (#[trigger] v.stats[i]).start_occurrences <= v.stats[i].occurrences
    &&& forall|i: int, j: int| 0 <= i < v.stats.len() && 0 <= j < v.stats.len()
        ==> #[trigger] v.stats[i].next_occurrences[j] <= v.stats[j].occurrences
}

impl Model {
    /// Train on one paragraph of raw text: split it on the configured word
    /// delimiters; if any words remain, count the first as a paragraph start
    /// and an occurrence, the last as a paragraph end, and every adjacent
    /// pair as a transition plus an occurrence of the second word.  A
    /// paragraph with no words leaves the model unchanged.
    #[verifier::rlimit(60)]
    pub fn train_paragraph(&mut self, paragraph: &str)
        requires
            old(self)@.wf(),
            old(self)@.prob_wf(),
            old(self)@.mass() + 2 * paragraph@.len() + 3 <= u64::MAX,
            old(self)@.stats.len() + paragraph@.len() + 2 <= usize::MAX,
        ensures
            final(self)@ == spec_train_paragraph(old(self)@, paragraph@),
            final(self)@.wf(),
            final(self)@.prob_wf(),
            final(self)@.config == old(self)@.config,
            final(self)@.mass() <= old(self)@.mass() + 2 * paragraph@.len() + 3,
            final(self)@.stats.len() <= old(self)@.stats.len() + paragraph@.len() + 2,
            spec_split(paragraph@, old(self)@.config.word_delimiters).len() == 0
                ==> final(self)@ == old(self)@,
    {
        let ghost v0 = self@;
        let words = split_words(paragraph, &self.config.word_delimiters);
        let ghost toks = words.deep_view();
        proof {
            assert(toks =~~= spec_split(paragraph@, v0.config.word_delimiters));
            lemma_split_weight(paragraph@, v0.config.word_delimiters);
            assert(toks.len() == words@.len());
        }
        if words.len() == 0 {
            return;
        }
        let n_words = words.len();
        proof {
            assert forall|j: int| 0 <= j < n_words implies #[trigger] toks[j] == words@[j]@ by {}
            assert(toks.last() == toks[n_words - 1]);
        }
        let fi0 = self.touch_word(&words[0]);
        let ghost va = self@;
        let li0 = self.touch_word(&words[n_words - 1]);
        let ghost vb = self@;
        proof {
            lemma_touch_wf(v0, toks[0]);
            lemma_touch_wf(va, toks.last());
            assert(vb.stats[fi0 as int].word == toks[0]);
            lemma_word_idx(vb.stats, toks[0], fi0 as int);
            lemma_count_le_mass(vb, fi0 as int);
        }
        self.count_start_occurrence(fi0);
        let ghost vc = self@;
        proof {
            lemma_count_start_wf(vb, fi0 as int);
            assert(vc.stats[fi0 as int].word == toks[0]);
            lemma_word_idx(vc.stats, toks[0], fi0 as int);
            lemma_count_le_mass(vc, fi0 as int);
        }
        self.count_occurrence(fi0);
        let ghost vd = self@;
        proof {
            lemma_count_occ_wf(vc, fi0 as int);
            assert(vd.stats[li0 as int].word == toks.last());
            lemma_word_idx(vd.stats, toks.last(), li0 as int);
            lemma_count_le_mass(vd, li0 as int);
        }
        self.count_end_occurrence(li0);
        let ghost ve = self@;
        proof {
            lemma_count_end_wf(vd, li0 as int);
            assert(sv_touch(v0, toks[0]) == va);
            assert(sv_touch(va, toks.last()) == vb);
            assert(sv_count_start(vb, fi0 as int) == vc);
            assert(sv_count_occ(vc, fi0 as int) == vd);
            assert(sv_count_end(vd, li0 as int) == ve);
            assert(ve == sv_start_end(v0, toks));
            assert(ve.mass() == v0.mass() + 3);
            // the mid-training ledger holds as the pair loop begins
            assert forall|w: int| 0 <= w < ve.stats.len() implies
                (#[trigger] ve.stats[w]).occurrences == ve.stats[w].next_total
                    + ve.stats[w].end_occurrences + (if w == fi0 as int {
                    1int
                } else {
                    0int
                }) - (if w == li0 as int {
                    1int
                } else {
                    0int
                }) by {
                if w < v0.stats.len() {
                    assert(v0.stats[w].occurrences == v0.stats[w].next_total
                        + v0.stats[w].end_occurrences);
                }
            }
            assert(pairs_identity(ve, fi0 as int, li0 as int));
            assert(reach_ineq(ve));
        }
        let mut prev = fi0;
        let mut k: usize = 1;
        while k < n_words
            invariant
                1 <= k <= n_words,
                n_words == toks.len(),
                n_words == words@.len(),
                toks =~~= words.deep_view(),
                forall|j: int| 0 <= j < n_words ==> #[trigger] toks[j] == words@[j]@,
                toks.len() + sum_lens(toks) <= paragraph@.len() + 1,
                sum_lens(toks) >= 0,
                v0.wf(),
                v0.mass() + 2 * paragraph@.len() + 3 <= u64::MAX,
                v0.stats.len() + paragraph@.len() + 2 <= usize::MAX,
                self@.wf(),
                self@.config == v0.config,
                self@.stats.len() <= v0.stats.len() + k + 1,
                self@.mass() == v0.mass() + 1 + 2 * k,
                prev < self@.stats.len(),
                self@.stats[prev as int].word == toks[k - 1],
                li0 < self@.stats.len(),
                self@.stats[li0 as int].word == toks[n_words - 1],
                pairs_identity(self@, prev as int, li0 as int),
                reach_ineq(self@),
                sv_pairs(self@, toks, k as int) == sv_pairs(ve, toks, 1),
            decreases n_words - k,
        {
            let ghost vk = self@;
            proof {
                assert(n_words <= paragraph@.len() + 1);
                assert(self@.stats.len() < usize::MAX);
            }
            let wi = self.touch_word(&words[k]);
            let ghost w1 = self@;
            proof {
                assert(w1 == sv_touch(vk, toks[k as int]));
                lemma_touch_wf(vk, toks[k as int]);
                assert(w1.mass() == vk.mass());
                assert(w1.mass() + 2 <= u64::MAX);
                assert(w1.stats[prev as int].word == toks[k - 1]);
                lemma_word_idx(w1.stats, toks[k - 1], prev as int);
                lemma_count_le_mass(w1, prev as int);
                assert(w1.stats[prev as int].next_occurrences.len() == w1.stats.len());
                assert(w1.stats[prev as int].next_occurrences[wi as int] < u64::MAX);
                assert(w1.stats[prev as int].next_total < u64::MAX);
                assert(pairs_identity(w1, prev as int, li0 as int));
                assert(reach_ineq(w1));
            }
            self.count_pair(prev, wi);
            let ghost w2 = self@;
            proof {
                lemma_count_pair_wf(w1, prev as int, wi as int);
                assert(w2.stats[wi as int].word == toks[k as int]);
                lemma_word_idx(w2.stats, toks[k as int], wi as int);
                lemma_count_le_mass(w2, wi as int);
            }
            self.count_occurrence(wi);
            let ghost w3 = self@;
            proof {
                lemma_count_occ_wf(w2, wi as int);
                assert(sv_touch(vk, toks[k as int]) == w1);
                assert(word_idx(w1.stats, toks[k - 1]) == prev as int);
                assert(word_idx(w1.stats, toks[k as int]) == wi as int);
                assert(sv_count_pair(w1, prev as int, wi as int) == w2);
                assert(word_idx(w2.stats, toks[k as int]) == wi as int);
                assert(sv_count_occ(w2, wi as int) == w3);
                assert(sv_pairs(vk, toks, k as int) == sv_pairs(w3, toks, k + 1));
                assert(w3.stats[li0 as int].word == toks[n_words - 1]);
                assert(w3.stats[wi as int].word == toks[k as int]);
                // the ledger moves its owed occurrence from `prev` to `wi`
                assert forall|w: int| 0 <= w < w3.stats.len() implies
                    (#[trigger] w3.stats[w]).occurrences == w3.stats[w].next_total
                        + w3.stats[w].end_occurrences + (if w == wi as int {
                        1int
                    } else {
                        0int
                    }) - (if w == li0 as int {
                        1int
                    } else {
                        0int
                    }) by {
                    assert(0 <= w < w1.stats.len());
                }
                assert(pairs_identity(w3, wi as int, li0 as int));
                assert(reach_ineq(w3));
            }
            prev = wi;
            k += 1;
        }
        proof {
            assert(sv_pairs(self@, toks, k as int) == self@);
            assert(self@ == sv_pairs(ve, toks, 1));
            assert(self@ == sv_train_tokens(v0, toks));
            assert(self@ == spec_train_paragraph(v0, paragraph@));
            // first and last carried the same ledger slot when the loop ended
            assert(self@.stats[prev as int].word == toks[k - 1]);
            assert(self@.stats[li0 as int].word == toks[n_words - 1]);
            lemma_word_idx(self@.stats, toks[n_words - 1], li0 as int);
            lemma_word_idx(self@.stats, toks[k - 1], prev as int);
            assert(prev == li0);
            assert(self@.prob_wf());
        }
    }
}

impl Model {
    /// Train on a whole text: split it into paragraphs at the configured
    /// paragraph delimiter and train on each paragraph in order.  Chunks
    /// between adjacent delimiters are empty paragraphs and train as no-ops.
    pub fn train_text(&mut self, text: &str)
        requires
            old(self)@.wf(),
            old(self)@.prob_wf(),
            old(self)@.mass() + 3 * text@.len() + 3 <= u64::MAX,
            old(self)@.stats.len() + 3 * text@.len() + 5 <= usize::MAX,
        ensures
            final(self)@ == spec_train_text(old(self)@, text@),
            final(self)@.wf(),
            final(self)@.prob_wf(),
            final(self)@.config == old(self)@.config,
    {
        let ghost v0 = self@;
        let delim: Vec<char> = vec![self.config.paragraph_delimiter];
        let paras = split_words(text, &delim);
        let ghost ps = paras.deep_view();
        proof {
            assert(delim@ =~= seq![v0.config.paragraph_delimiter]);
            assert(ps =~~= spec_split(text@, seq![v0.config.paragraph_delimiter]));
            lemma_split_weight(text@, seq![v0.config.paragraph_delimiter]);
            assert(ps.take(0) =~= Seq::<Seq<char>>::empty());
            assert(sum_lens(ps.take(0)) == 0);
            assert forall|j: int| 0 <= j < ps.len() implies #[trigger] ps[j] == paras@[j]@ by {}
        }
        let n = paras.len();
        let mut k: usize = 0;
        while k < n
            invariant
                k <= n,
                n == ps.len(),
                n == paras@.len(),
                forall|j: int| 0 <= j < n ==> #[trigger] ps[j] == paras@[j]@,
                ps.len() + sum_lens(ps) <= text@.len() + 1,
                sum_lens(ps) >= 0,
                v0.wf(),
                v0.mass() + 3 * text@.len() + 3 <= u64::MAX,
                v0.stats.len() + 3 * text@.len() + 5 <= usize::MAX,
                self@.wf(),
                self@.prob_wf(),
                self@.config == v0.config,
                self@.mass() <= v0.mass() + 2 * sum_lens(ps.take(k as int)) + 3 * k,
                self@.stats.len() <= v0.stats.len() + sum_lens(ps.take(k as int)) + 2 * k,
                sum_lens(ps.take(k as int)) >= 0,
                sv_train_all(self@, ps, k as int) == sv_train_all(v0, ps, 0),
            decreases n - k,
        {
            let ghost vk = self@;
            proof {
                assert(ps.take(k + 1).drop_last() =~= ps.take(k as int));
                assert(ps.take(k + 1).last() == ps[k as int]);
                assert(sum_lens(ps.take(k + 1)) == sum_lens(ps.take(k as int))
                    + ps[k as int].len());
                crate::split::lemma_sum_lens_take(ps, k + 1);
                assert(vk.mass() + 2 * ps[k as int].len() + 3 <= u64::MAX);
                assert(vk.stats.len() + ps[k as int].len() + 2 <= usize::MAX);
            }
            self.train_paragraph(paras[k].as_str());
            proof {
                assert(paras@[k as int]@ == ps[k as int]);
                assert(self@ == spec_train_paragraph(vk, ps[k as int]));
                assert(sv_train_all(vk, ps, k as int) == sv_train_all(self@, ps, k + 1));
            }
            k += 1;
        }
        proof {
            assert(sv_train_all(self@, ps, k as int) == self@);
            assert(self@ == spec_train_text(v0, text@));
        }
    }
}

/// In a well-formed model the per-word start counts sum exactly to
/// `start_total`: the start distribution `start_occurrences[i] / start_total`
/// therefore sums to one whenever `start_total` is positive.
pub proof fn lemma_start_distribution_total(v: ModelView)
    requires
        v.wf(),
    ensures
        sum_int(v.start_counts()) == v.start_total,
        v.start_counts().len() == v.stats.len(),
        forall|i: int| 0 <= i < v.stats.len()
            ==> #[trigger] v.start_counts()[i] == v.stats[i].start_occurrences,
{
}

/// In a well-formed model each word's transition row sums exactly to its
/// `next_total`: the distribution `next_occurrences[j] / next_total` sums to
/// one whenever `next_total` is positive.
pub proof fn lemma_next_distribution_total(v: ModelView, i: int)
    requires
        v.wf(),
        0 <= i < v.stats.len(),
    ensures
        sum_int(v.stats[i].next_occurrences) == v.stats[i].next_total,
{
}

/// A sequence of zeros sums to zero.
pub proof fn lemma_sum_zero(s: Seq<int>)
    requires
        forall|j: int| 0 <= j < s.len() ==> s[j] == 0,
    ensures
        sum_int(s) == 0,
    decreases s.len(),
{
    if s.len() > 0 {
        lemma_sum_zero(s.drop_last());
    }
}

} // verus!
