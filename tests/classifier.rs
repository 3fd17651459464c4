use spamclassifier::bayesian_spam_classifier::{BayesianSpamClassifier, Counter, WordRating};
use spamclassifier::utills::{take_and_skip, SpamClassifierError};

fn table(c: &BayesianSpamClassifier) -> Vec<(String, u64, u64)> {
    c.entries().into_iter().map(|(t, k)| (t, k.ham, k.spam)).collect()
}

fn entry(t: &str, ham: u64, spam: u64) -> (String, u64, u64) {
    (t.to_string(), ham, spam)
}

fn lines(ls: &[&str]) -> Vec<String> {
    ls.iter().map(|l| l.to_string()).collect()
}

#[test]
fn new_classifier_is_empty() {
    let c = BayesianSpamClassifier::new();
    assert!(c.entries().is_empty());
    assert_eq!(c.ham_total_count(), 0);
    assert_eq!(c.spam_total_count(), 0);
}

#[test]
fn empty_model_rates_every_word_unknown() {
    let c = BayesianSpamClassifier::new();
    let r = c.rate_words("Win money now");
    assert_eq!(r, vec![WordRating::Unknown, WordRating::Unknown, WordRating::Unknown]);
    assert_eq!(c.ham_total_count(), 0);
    assert_eq!(c.spam_total_count(), 0);
    assert!(c.rate_words("").is_empty());
}

#[test]
fn train_spam_seeds_new_tokens() {
    let mut c = BayesianSpamClassifier::new();
    c.train_spam("Win money");
    assert_eq!(table(&c), vec![entry("Win", 1, 2), entry("money", 1, 2)]);
    assert_eq!(c.ham_total_count(), 2);
    assert_eq!(c.spam_total_count(), 4);
}

#[test]
fn train_ham_seeds_and_increments() {
    let mut c = BayesianSpamClassifier::new();
    c.train_ham("Hi there");
    c.train_ham("Hi Bob");
    c.train_spam("Hi");
    assert_eq!(table(&c), vec![entry("Hi", 3, 2), entry("there", 2, 1), entry("Bob", 2, 1)]);
    assert_eq!(c.ham_total_count(), 7);
    assert_eq!(c.spam_total_count(), 4);
}

#[test]
fn tokenizer_drops_punctuation_and_keeps_contractions() {
    let mut c = BayesianSpamClassifier::new();
    c.train_ham("Hi, Bob! don't forget.");
    assert_eq!(
        table(&c),
        vec![entry("Hi", 2, 1), entry("Bob", 2, 1), entry("don't", 2, 1), entry("forget", 2, 1)]
    );
}

#[test]
fn repeated_word_in_one_message_counts_each_time() {
    let mut c = BayesianSpamClassifier::new();
    c.train_spam("win win win");
    assert_eq!(table(&c), vec![entry("win", 1, 4)]);
}

#[test]
fn training_twice_raises_spam_counts() {
    let mut c = BayesianSpamClassifier::new();
    let msg = "Special promotion today";
    c.train_ham("see you today");
    c.train_spam(msg);
    let once = table(&c);
    c.train_spam(msg);
    let twice = table(&c);
    for w in ["Special", "promotion", "today"] {
        let a = once.iter().find(|e| e.0 == w).unwrap();
        let b = twice.iter().find(|e| e.0 == w).unwrap();
        assert!(b.2 > a.2);
        assert_eq!(b.1, a.1);
    }
}

#[test]
fn every_count_stays_positive() {
    let mut c = BayesianSpamClassifier::new();
    c.train_ham("Hi Bob, meeting at 4pm");
    c.train_spam("Win money now, Bob");
    c.train_ham("money back");
    for (_, ham, spam) in table(&c) {
        assert!(ham >= 1);
        assert!(spam >= 1);
    }
}

#[test]
fn rate_words_reports_counts_of_known_words() {
    let mut c = BayesianSpamClassifier::new();
    c.train_spam("Win money");
    c.train_ham("money back");
    let r = c.rate_words("money for nothing");
    assert_eq!(
        r,
        vec![WordRating::Known { ham: 2, spam: 2 }, WordRating::Unknown, WordRating::Unknown]
    );
}

#[test]
fn dataset_lines_build_table() {
    let mut c = BayesianSpamClassifier::new();
    let r = c.create_model_from_dataset(&lines(&["ham\tHi there", "spam\tWin money now"]));
    assert!(r.is_ok());
    assert_eq!(
        table(&c),
        vec![
            entry("Hi", 2, 1),
            entry("there", 2, 1),
            entry("Win", 1, 2),
            entry("money", 1, 2),
            entry("now", 1, 2),
        ]
    );
}

#[test]
fn dataset_line_without_tab_is_rejected() {
    let mut c = BayesianSpamClassifier::new();
    let r = c.create_model_from_dataset(&lines(&["ham\tHi there", "spam Win money now", "spam\tlater"]));
    assert!(matches!(r, Err(SpamClassifierError::InvalidDatasetFormatError(_))));
    assert_eq!(table(&c), vec![entry("Hi", 2, 1), entry("there", 2, 1)]);
}

#[test]
fn dataset_line_with_empty_label_or_message_is_rejected() {
    let mut c = BayesianSpamClassifier::new();
    let r = c.create_model_from_dataset(&lines(&["\tHi there"]));
    assert!(matches!(r, Err(SpamClassifierError::InvalidDatasetFormatError(_))));
    let r = c.create_model_from_dataset(&lines(&["spam\t"]));
    assert!(matches!(r, Err(SpamClassifierError::InvalidDatasetFormatError(_))));
    assert!(c.entries().is_empty());
}

#[test]
fn dataset_unknown_label_is_skipped() {
    let mut c = BayesianSpamClassifier::new();
    let r = c.create_model_from_dataset(&lines(&["eggs\tHi there", "spam\tWin"]));
    assert!(r.is_ok());
    assert_eq!(table(&c), vec![entry("Win", 1, 2)]);
}

#[test]
fn dataset_message_keeps_later_tabs() {
    let mut c = BayesianSpamClassifier::new();
    let r = c.create_model_from_dataset(&lines(&["ham\tHi\tthere"]));
    assert!(r.is_ok());
    assert_eq!(table(&c), vec![entry("Hi", 2, 1), entry("there", 2, 1)]);
}

#[test]
fn take_and_skip_splits_at_first_target() {
    assert_eq!(take_and_skip("ham\tHi\tthere", '\t'), Some(("ham", "Hi\tthere")));
    assert_eq!(take_and_skip("\t", '\t'), Some(("", "")));
    assert_eq!(take_and_skip("no tab here", '\t'), None);
    assert_eq!(take_and_skip("", '\t'), None);
    assert_eq!(take_and_skip("é\tà", '\t'), Some(("é", "à")));
}

#[test]
fn pre_trained_entries_round_trip() {
    let mut c = BayesianSpamClassifier::new();
    c.train_ham("Hi there");
    c.train_spam("Win there");
    let restored = BayesianSpamClassifier::new_from_pre_trained(c.entries()).unwrap();
    assert_eq!(table(&restored), table(&c));
    assert_eq!(restored.ham_total_count(), c.ham_total_count());
    assert_eq!(restored.spam_total_count(), c.spam_total_count());
}

#[test]
fn pre_trained_entries_are_validated() {
    let zero = vec![("a".to_string(), Counter { ham: 0, spam: 1 })];
    assert!(BayesianSpamClassifier::new_from_pre_trained(zero).is_none());
    let dup = vec![
        ("a".to_string(), Counter { ham: 1, spam: 1 }),
        ("a".to_string(), Counter { ham: 2, spam: 1 }),
    ];
    assert!(BayesianSpamClassifier::new_from_pre_trained(dup).is_none());
    let big = vec![
        ("a".to_string(), Counter { ham: u64::MAX, spam: 1 }),
        ("b".to_string(), Counter { ham: 1, spam: 1 }),
    ];
    assert!(BayesianSpamClassifier::new_from_pre_trained(big).is_none());
    let ok = vec![("a".to_string(), Counter { ham: 3, spam: 5 })];
    let c = BayesianSpamClassifier::new_from_pre_trained(ok).unwrap();
    assert_eq!(c.ham_total_count(), 3);
    assert_eq!(c.spam_total_count(), 5);
}
