//! Splitting text into words on a set of delimiter characters, dropping the
//! empty pieces that adjacent delimiters would produce.

use vstd::prelude::*;
use crate::sums::sum_int;

verus! {

/// The words of `s`, given that `cur` (a run of non-delimiters) immediately
/// precedes `s`.
pub open spec fn spec_split_from(s: Seq<char>, delims: Seq<char>, cur: Seq<char>) -> Seq<Seq<char>>
    decreases s.len(),
{
    if s.len() == 0 {
        if cur.len() == 0 {
            Seq::empty()
        } else {
            seq![cur]
        }
    } else if delims.contains(s[0]) {
        if cur.len() == 0 {
            spec_split_from(s.drop_first(), delims, Seq::empty())
        } else {
            seq![cur] + spec_split_from(s.drop_first(), delims, Seq::empty())
        }
    } else {
        spec_split_from(s.drop_first(), delims, cur.push(s[0]))
    }
}

/// The maximal nonempty runs of non-delimiter characters of `s`, in order.
pub open spec fn spec_split(s: Seq<char>, delims: Seq<char>) -> Seq<Seq<char>> {
    spec_split_from(s, delims, Seq::empty())
}

/// Total length of a sequence of token sequences.
pub open spec fn sum_lens(toks: Seq<Seq<char>>) -> int
    decreases toks.len(),
{
    if toks.len() == 0 {
        0
    } else {
        sum_lens(toks.drop_last()) + toks.last().len()
    }
}

pub proof fn lemma_sum_lens_nonneg(toks: Seq<Seq<char>>)
    ensures
        sum_lens(toks) >= 0,
    decreases toks.len(),
{
    if toks.len() > 0 {
        lemma_sum_lens_nonneg(toks.drop_last());
    }
}

pub proof fn lemma_sum_lens_take(toks: Seq<Seq<char>>, k: int)
    requires
        0 <= k <= toks.len(),
    ensures
        sum_lens(toks.take(k)) + toks.take(k).len() <= sum_lens(toks) + toks.len(),
    decreases toks.len() - k,
{
    if k == toks.len() {
        assert(toks.take(k) =~= toks);
    } else {
        assert(toks.take(k + 1).drop_last() =~= toks.take(k));
        assert(toks.take(k + 1).last() == toks[k]);
        lemma_sum_lens_take(toks, k + 1);
    }
}

/// The split of `s` carries no more characters (words plus one separator
/// each) than `s` itself, plus what the pending run contributes.
pub proof fn lemma_split_weight_from(s: Seq<char>, delims: Seq<char>, cur: Seq<char>)
    ensures
        sum_lens(spec_split_from(s, delims, cur)) + spec_split_from(s, delims, cur).len()
            <= s.len() + if cur.len() == 0 { 1int } else { cur.len() + 1int },
    decreases s.len(),
{
    if s.len() == 0 {
        if cur.len() > 0 {
            assert(spec_split_from(s, delims, cur) == seq![cur]);
            assert(seq![cur].drop_last() =~= Seq::<Seq<char>>::empty());
            assert(seq![cur].last() == cur);
            assert(sum_lens(Seq::<Seq<char>>::empty()) == 0);
            assert(sum_lens(seq![cur]) == cur.len());
        }
    } else if delims.contains(s[0]) {
        let rest = spec_split_from(s.drop_first(), delims, Seq::empty());
        lemma_split_weight_from(s.drop_first(), delims, Seq::empty());
        assert(s.drop_first().len() == s.len() - 1);
        if cur.len() > 0 {
            assert(spec_split_from(s, delims, cur) == seq![cur] + rest);
            lemma_sum_lens_prepend(cur, rest);
            assert((seq![cur] + rest).len() == 1 + rest.len());
        } else {
            assert(spec_split_from(s, delims, cur) == rest);
        }
    } else {
        lemma_split_weight_from(s.drop_first(), delims, cur.push(s[0]));
        assert(spec_split_from(s, delims, cur) == spec_split_from(
            s.drop_first(),
            delims,
            cur.push(s[0]),
        ));
        assert(cur.push(s[0]).len() == cur.len() + 1);
    }
}

proof fn lemma_sum_lens_prepend(t: Seq<char>, toks: Seq<Seq<char>>)
    ensures
        sum_lens(seq![t] + toks) == t.len() + sum_lens(toks),
    decreases toks.len(),
{
    if toks.len() == 0 {
        assert(seq![t] + toks =~= seq![t]);
        assert(seq![t].drop_last() =~= Seq::<Seq<char>>::empty());
        assert(seq![t].last() == t);
        assert(sum_lens(Seq::<Seq<char>>::empty()) == 0);
        assert(sum_lens(seq![t]) == sum_lens(seq![t].drop_last()) + seq![t].last().len());
        assert(sum_lens(toks) == 0);
    } else {
        assert((seq![t] + toks).len() > 0);
        assert((seq![t] + toks).drop_last() =~= seq![t] + toks.drop_last());
        assert((seq![t] + toks).last() == toks.last());
        assert(sum_lens(seq![t] + toks) == sum_lens(seq![t] + toks.drop_last()) + toks.last().len());
        lemma_sum_lens_prepend(t, toks.drop_last());
        assert(sum_lens(toks) == sum_lens(toks.drop_last()) + toks.last().len());
    }
}

/// The split of `s` carries no more weight than `s` itself plus one.
pub proof fn lemma_split_weight(s: Seq<char>, delims: Seq<char>)
    ensures
        sum_lens(spec_split(s, delims)) + spec_split(s, delims).len() <= s.len() + 1,
        spec_split(s, delims).len() <= s.len() + 1,
        sum_lens(spec_split(s, delims)) >= 0,
{
    lemma_split_weight_from(s, delims, Seq::empty());
    lemma_sum_lens_nonneg(spec_split(s, delims));
}

/// Whether `c` is one of the characters in `delims`.
pub fn contains_char(delims: &Vec<char>, c: char) -> (r: bool)
    ensures
        r == delims@.contains(c),
{
    let mut k: usize = 0;
    while k < delims.len()
        invariant
            k <= delims@.len(),
            forall|j: int| 0 <= j < k ==> delims@[j] != c,
        decreases delims@.len() - k,
    {
        if delims[k] == c {
            return true;
        }
        k += 1;
    }
    false
}

/// Split `s` into its words: the maximal nonempty runs of characters that are
/// not in `delims`.
pub fn split_words(s: &str, delims: &Vec<char>) -> (words: Vec<String>)
    ensures
        words.deep_view() =~= spec_split(s@, delims@),
{
    let n = s.unicode_len();
    let mut words: Vec<String> = Vec::new();
    let mut i: usize = 0;
    let mut start: usize = 0;
    proof {
        assert(s@.subrange(0, n as int) =~= s@);
        assert(s@.subrange(0, 0) =~= Seq::<char>::empty());
        assert(words.deep_view() =~= Seq::<Seq<char>>::empty());
        assert(Seq::<Seq<char>>::empty() + spec_split_from(s@, delims@, Seq::empty())
            =~= spec_split_from(s@, delims@, Seq::empty()));
    }
    while i < n
        invariant
            n == s@.len(),
            start <= i <= n,
            forall|k: int| start <= k < i ==> !delims@.contains(s@[k]),
            spec_split(s@, delims@) =~= words.deep_view() + spec_split_from(
                s@.subrange(i as int, n as int),
                delims@,
                s@.subrange(start as int, i as int),
            ),
        decreases n - i,
    {
        let c = s.get_char(i);
        let ghost rem = s@.subrange(i as int, n as int);
        let ghost cur = s@.subrange(start as int, i as int);
        proof {
            assert(rem[0] == s@[i as int]);
            assert(rem.drop_first() =~= s@.subrange(i + 1, n as int));
        }
        if contains_char(delims, c) {
            let ghost dv0 = words.deep_view();
            if start < i {
                let w = s.substring_char(start, i).to_owned();
                words.push(w);
                proof {
                    assert(words.deep_view() =~= dv0.push(cur));
                    assert(dv0 + (seq![cur] + spec_split_from(
                        rem.drop_first(),
                        delims@,
                        Seq::empty(),
                    )) =~= dv0.push(cur) + spec_split_from(
                        rem.drop_first(),
                        delims@,
                        Seq::empty(),
                    ));
                }
            }
            proof {
                assert(s@.subrange(i + 1, i + 1) =~= Seq::<char>::empty());
            }
            start = i + 1;
            i = i + 1;
        } else {
            proof {
                assert(cur.push(s@[i as int]) =~= s@.subrange(start as int, i + 1));
            }
            i = i + 1;
        }
    }
    let ghost cur = s@.subrange(start as int, n as int);
    proof {
        assert(s@.subrange(n as int, n as int) =~= Seq::<char>::empty());
    }
    if start < n {
        let ghost dv0 = words.deep_view();
        let w = s.substring_char(start, n).to_owned();
        words.push(w);
        proof {
            assert(words.deep_view() =~= dv0.push(cur));
            assert(dv0 + seq![cur] =~= dv0.push(cur));
        }
    }
    words
}

} // verus!
