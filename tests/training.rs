use oxbed::config::EmbedderKind;
use oxbed::embedder::{build_embedder, latest_version, CustomEmbedder, Embedder};
use oxbed::stage4::{accumulate_counts, accumulate_word_counts, alnum_words, model_name_ok, TrainingTally};

fn count(t: &TrainingTally, token: &str) -> u64 {
    t.counts.iter().find(|e| e.token == token).map(|e| e.weight).unwrap_or(0)
}

#[test]
fn tally_counts_tokens_across_texts() {
    let mut t = TrainingTally::new();
    assert!(accumulate_counts("alpha beta", &mut t));
    assert!(accumulate_counts("Alpha", &mut t));
    assert_eq!(count(&t, "alpha"), 2);
    assert_eq!(count(&t, "beta"), 1);
    assert_eq!(t.total, 3);
    assert_eq!(t.counts.len(), 2);
}

#[test]
fn tally_keeps_examples_up_to_limit() {
    let mut t = TrainingTally::new();
    assert!(t.take_example(2));
    assert!(t.take_example(2));
    assert!(!t.take_example(2));
    assert_eq!(t.examples, 2);
}

#[test]
fn word_tally_splits_on_non_alphanumerics() {
    assert_eq!(alnum_words("it's a_b, x9!"), vec!["it", "s", "a", "b", "x9"]);
    let mut t = TrainingTally::new();
    assert!(accumulate_word_counts(&mut t, "Bb aa, bb; AA bb"));
    let listing: Vec<(String, u64)> = t.ranked_counts().into_iter().map(|e| (e.token, e.weight)).collect();
    assert_eq!(listing, vec![("bb".to_string(), 3), ("aa".to_string(), 2)]);
    let mut ties = TrainingTally::new();
    assert!(accumulate_word_counts(&mut ties, "zeta beta alpha"));
    let names: Vec<String> = ties.ranked_counts().into_iter().map(|e| e.token).collect();
    assert_eq!(names, vec!["alpha", "beta", "zeta"]);
}

#[test]
fn model_names_must_not_be_blank() {
    assert!(model_name_ok(" m "));
    assert!(!model_name_ok(" \t "));
    assert!(!model_name_ok(""));
}

#[test]
fn embedders_are_built_from_their_kind() {
    assert!(matches!(build_embedder(&EmbedderKind::Tf, 0, None), Some(Embedder::Tf(t)) if t.min_freq == 1));
    assert!(matches!(build_embedder(&EmbedderKind::BagOfWords, 3, None), Some(Embedder::BagOfWords(_))));
    let kind = EmbedderKind::Custom { name: "m".into(), version: None };
    assert!(build_embedder(&kind, 1, None).is_none());
    let table = CustomEmbedder::from_table("m".into(), "v".into(), vec![]);
    assert!(matches!(build_embedder(&kind, 1, Some(table)), Some(Embedder::Custom(_))));
}

#[test]
fn latest_version_sorts_last() {
    let names: Vec<String> = vec!["v2".into(), "v10".into(), "v1".into()];
    assert_eq!(latest_version(&names), Some(0));
    assert_eq!(latest_version(&vec!["a".into(), "ab".into()]), Some(1));
    assert_eq!(latest_version(&vec![]), None);
}
