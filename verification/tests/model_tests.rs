use markov_text::markov::serialize;
use markov_text::markov::{Config, Model};

fn snap_stats_eq(a: &serialize::WordStats, b: &serialize::WordStats) -> bool {
    a.word == b.word && a.occurrences == b.occurrences
        && a.next_occurrences == b.next_occurrences && a.next_total == b.next_total
        && a.start_occurrences == b.start_occurrences && a.end_occurrences == b.end_occurrences
}

fn snap_eq(a: &serialize::Model, b: &serialize::Model) -> bool {
    a.config.paragraph_delimiter == b.config.paragraph_delimiter
        && a.config.word_delimiters == b.config.word_delimiters
        && a.start_words == b.start_words && a.start_total == b.start_total
        && a.end_words == b.end_words && a.end_total == b.end_total
        && a.stats.len() == b.stats.len()
        && a.stats.iter().zip(b.stats.iter()).all(|(x, y)| snap_stats_eq(x, y))
}

fn word_index(s: &serialize::Model, w: &str) -> usize {
    s.stats.iter().position(|st| st.word == w).unwrap()
}

#[test]
fn the_cat_sat_counts() {
    let mut m = Model::new_prose();
    m.train_paragraph("the cat sat");
    let s = m.to_snapshot();
    assert_eq!(s.stats.len(), 3);
    let the = word_index(&s, "the");
    let cat = word_index(&s, "cat");
    let sat = word_index(&s, "sat");
    // the first and the last word enter the vocabulary before the middle ones
    assert_eq!((the, sat, cat), (0, 1, 2));
    assert_eq!(s.stats[the].start_occurrences, 1);
    assert_eq!(s.stats[sat].end_occurrences, 1);
    assert_eq!(s.stats[the].next_occurrences[cat], 1);
    assert_eq!(s.stats[cat].next_occurrences[sat], 1);
    assert_eq!(s.stats[the].occurrences, 1);
    assert_eq!(s.stats[cat].occurrences, 1);
    assert_eq!(s.stats[sat].occurrences, 1);
    assert_eq!(s.start_total, 1);
    assert_eq!(s.end_total, 1);
    assert_eq!(s.stats[the].next_total, 1);
    assert_eq!(s.stats[cat].next_total, 1);
    assert_eq!(s.stats[sat].next_total, 0);
    for st in &s.stats {
        assert_eq!(st.next_occurrences.len(), 3);
    }
}

#[test]
fn empty_paragraph_is_a_no_op() {
    let mut m = Model::new_prose();
    m.train_paragraph("the cat sat");
    let before = m.to_snapshot();
    m.train_paragraph("");
    assert!(snap_eq(&before, &m.to_snapshot()));
    m.train_paragraph("   \t  \t ");
    assert!(snap_eq(&before, &m.to_snapshot()));
}

#[test]
fn whitespace_only_on_fresh_model() {
    let mut m = Model::new_prose();
    m.train_paragraph(" \t ");
    let s = m.to_snapshot();
    assert_eq!(s.stats.len(), 0);
    assert_eq!(s.start_total, 0);
    assert_eq!(s.end_total, 0);
    assert!(s.start_words.is_empty());
    assert!(s.end_words.is_empty());
}

#[test]
fn start_probabilities_sum_to_one() {
    let mut m = Model::new_prose();
    m.train_text("the cat sat\nthe dog ran\na cat ran far\n");
    let s = m.to_snapshot();
    assert!(s.start_total > 0);
    let sum: f64 = s
        .stats
        .iter()
        .map(|st| st.start_occurrences as f64 / s.start_total as f64)
        .sum();
    assert!((sum - 1.0).abs() < 1e-9);
}

#[test]
fn next_probabilities_sum_to_one() {
    let mut m = Model::new_prose();
    m.train_text("the cat sat\nthe cat ran\nthe dog sat down\n");
    let s = m.to_snapshot();
    let mut checked = 0;
    for st in &s.stats {
        if st.next_total > 0 {
            let sum: f64 = st
                .next_occurrences
                .iter()
                .map(|c| *c as f64 / st.next_total as f64)
                .sum();
            assert!((sum - 1.0).abs() < 1e-9);
            checked += 1;
        }
    }
    assert!(checked > 0);
}

#[test]
fn snapshot_round_trip_is_lossless() {
    let mut m = Model::new_prose();
    m.train_text("the cat sat\nthe dog ran\nthe cat ran away\n");
    let s1 = m.to_snapshot();
    let m2 = Model::from_snapshot(&s1).expect("a snapshot of a trained model loads");
    let s2 = m2.to_snapshot();
    assert!(snap_eq(&s1, &s2));
}

#[test]
fn round_trip_preserves_index_positions() {
    let mut m = Model::new_prose();
    m.train_paragraph("alpha beta gamma beta");
    let s1 = m.to_snapshot();
    let m2 = Model::from_snapshot(&s1).unwrap();
    let s2 = m2.to_snapshot();
    for (i, st) in s1.stats.iter().enumerate() {
        assert_eq!(s2.stats[i].word, st.word);
    }
}

#[test]
fn load_rejects_wrong_row_length() {
    let mut m = Model::new_prose();
    m.train_paragraph("the cat sat");
    let mut s = m.to_snapshot();
    s.stats[0].next_occurrences.push(0);
    assert!(Model::from_snapshot(&s).is_none());
}

#[test]
fn load_rejects_wrong_next_total() {
    let mut m = Model::new_prose();
    m.train_paragraph("the cat sat");
    let mut s = m.to_snapshot();
    s.stats[0].next_total = 7;
    assert!(Model::from_snapshot(&s).is_none());
}

#[test]
fn load_rejects_duplicate_words() {
    let mut m = Model::new_prose();
    m.train_paragraph("the cat sat");
    let mut s = m.to_snapshot();
    s.stats[1].word = String::from("the");
    assert!(Model::from_snapshot(&s).is_none());
}

#[test]
fn load_rejects_wrong_start_total() {
    let mut m = Model::new_prose();
    m.train_paragraph("the cat sat");
    let mut s = m.to_snapshot();
    s.start_total = 2;
    assert!(Model::from_snapshot(&s).is_none());
}

#[test]
fn load_rejects_broken_start_list() {
    let mut m = Model::new_prose();
    m.train_paragraph("the cat sat");
    let mut s = m.to_snapshot();
    s.start_words.clear();
    assert!(Model::from_snapshot(&s).is_none());
}

#[test]
fn load_rejects_broken_occurrence_ledger() {
    let mut m = Model::new_prose();
    m.train_paragraph("the cat sat");
    let mut s = m.to_snapshot();
    s.stats[2].occurrences = 5;
    assert!(Model::from_snapshot(&s).is_none());
}

#[test]
fn single_word_model_always_generates_it() {
    let mut m = Model::new_prose();
    m.train_paragraph("hello");
    for _ in 0..20 {
        assert_eq!(m.generate_paragraph(), "hello");
    }
}

#[test]
fn deterministic_chain_generates_whole_walk() {
    let mut m = Model::new_prose();
    m.train_paragraph("the cat sat");
    assert_eq!(m.generate_paragraph(), "the cat sat");
}

#[test]
fn seeded_generation_is_reproducible() {
    let mut m = Model::new_prose();
    m.train_text("the cat sat\nthe dog ran\na cat ran far\n");
    let draws: Vec<u64> = vec![7, 3, 12, 5, 1, 0, 4, 2, 9, 11, 6, 8];
    let a = m.generate_paragraph_with(&draws);
    let b = m.generate_paragraph_with(&draws);
    assert!(a.is_some());
    assert_eq!(a, b);
}

#[test]
fn seeded_generation_exact_output() {
    let mut m = Model::new_prose();
    m.train_paragraph("the cat sat");
    let draws: Vec<u64> = vec![0, 0, 0, 0, 0, 0];
    assert_eq!(m.generate_paragraph_with(&draws), Some(String::from("the cat sat")));
}

#[test]
fn seeded_generation_none_when_draws_run_out() {
    let mut m = Model::new_prose();
    m.train_paragraph("the cat sat");
    let draws: Vec<u64> = vec![0];
    assert_eq!(m.generate_paragraph_with(&draws), None);
}

#[test]
fn seeded_generation_none_on_empty_model() {
    let m = Model::new_prose();
    let draws: Vec<u64> = vec![1, 2, 3];
    assert_eq!(m.generate_paragraph_with(&draws), None);
}

#[test]
fn tabs_separate_words_in_prose() {
    let mut m = Model::new(Config::prose());
    m.train_paragraph("one\ttwo");
    let s = m.to_snapshot();
    assert_eq!(s.stats.len(), 2);
    assert_eq!(s.stats[0].word, "one");
    assert_eq!(s.stats[1].word, "two");
    assert_eq!(s.stats[0].next_occurrences[1], 1);
}

#[test]
fn train_text_splits_paragraphs_on_newline() {
    let mut m = Model::new_prose();
    m.train_text("the cat\nthe dog\n\n");
    let s = m.to_snapshot();
    let the = word_index(&s, "the");
    assert_eq!(s.start_total, 2);
    assert_eq!(s.end_total, 2);
    assert_eq!(s.stats[the].start_occurrences, 2);
    assert_eq!(s.stats[the].occurrences, 2);
    assert_eq!(word_index(&s, "cat"), 1);
    assert_eq!(word_index(&s, "dog"), 2);
}

#[test]
fn repeated_word_paragraph() {
    let mut m = Model::new_prose();
    m.train_paragraph("a b a");
    let s = m.to_snapshot();
    let a = word_index(&s, "a");
    let b = word_index(&s, "b");
    assert_eq!(s.stats[a].occurrences, 2);
    assert_eq!(s.stats[b].occurrences, 1);
    assert_eq!(s.stats[a].next_occurrences[b], 1);
    assert_eq!(s.stats[b].next_occurrences[a], 1);
    assert_eq!(s.stats[a].start_occurrences, 1);
    assert_eq!(s.stats[a].end_occurrences, 1);
    assert_eq!(s.stats[a].next_total, 1);
}

#[test]
fn vocabulary_indices_are_stable_across_training() {
    let mut m = Model::new_prose();
    m.train_paragraph("the cat sat");
    m.train_paragraph("the dog sat");
    let s = m.to_snapshot();
    assert_eq!(word_index(&s, "the"), 0);
    assert_eq!(word_index(&s, "sat"), 1);
    assert_eq!(word_index(&s, "cat"), 2);
    assert_eq!(word_index(&s, "dog"), 3);
    assert_eq!(s.stats[0].start_occurrences, 2);
    for st in &s.stats {
        assert_eq!(st.next_occurrences.len(), 4);
    }
}
