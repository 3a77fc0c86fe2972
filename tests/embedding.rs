use oxbed::embedder::{
    tokenize, BagOfWordsEmbedder, CustomEmbedder, Embedder, SparseVector, TermWeight, TfEmbedder,
};

fn weight(v: &SparseVector, token: &str) -> Option<u64> {
    v.entries.iter().find(|e| e.token == token).map(|e| e.weight)
}

#[test]
fn tf_weights_are_frequencies() {
    let v = TfEmbedder::new(1).embed("foo foo bar");
    assert_eq!(v.denominator, 3);
    assert_eq!(weight(&v, "foo"), Some(2));
    assert_eq!(weight(&v, "bar"), Some(1));
    assert_eq!(weight(&v, "missing"), None);
}

#[test]
fn tf_min_frequency_filters_and_renormalizes() {
    let v = TfEmbedder::new(2).embed("foo foo bar");
    assert_eq!(v.entries.len(), 1);
    assert_eq!(weight(&v, "foo"), Some(2));
    assert_eq!(v.denominator, 2);
    let none = TfEmbedder::new(3).embed("foo foo bar");
    assert!(none.entries.is_empty());
    assert_eq!(TfEmbedder::new(0).min_freq, 1);
}

#[test]
fn tokens_are_lowercased_unicode_words() {
    assert_eq!(tokenize("Hello, WORLD! it's"), vec!["hello", "world", "it's"]);
    assert_eq!(TfEmbedder::token_count("Hello, WORLD! it's"), 3);
}

#[test]
fn bag_of_words_counts_everything() {
    let v = BagOfWordsEmbedder.embed("A a b");
    assert_eq!(v.denominator, 3);
    assert_eq!(weight(&v, "a"), Some(2));
    assert_eq!(BagOfWordsEmbedder.token_count("A a b"), 3);
}

#[test]
fn custom_embedder_uses_the_table_verbatim() {
    let table = vec![
        TermWeight { token: "alpha".into(), weight: 250_000 },
        TermWeight { token: "gamma".into(), weight: 10 },
    ];
    let e = CustomEmbedder::from_table("m".into(), "v1".into(), table);
    let v = e.embed("Alpha beta alpha");
    assert_eq!(v.entries.len(), 1);
    assert_eq!(weight(&v, "alpha"), Some(250_000));
    assert_eq!(v.denominator, 1_000_000);
    let named = Embedder::Custom(e);
    assert_eq!(named.name(), "custom:m:v1");
    assert_eq!(Embedder::Tf(TfEmbedder::new(1)).name(), "tf");
    assert_eq!(Embedder::BagOfWords(BagOfWordsEmbedder).name(), "bag-of-words");
}
