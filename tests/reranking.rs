use oxbed::chunk::{Chunk, ChunkStrategy};
use oxbed::config::{EvaluationQuery, Stage3RerankMode, Stage3RerankerStrategyConfig};
use oxbed::evaluation::evaluate_query;
use oxbed::search::SearchHit;
use oxbed::stage3::{build_context, dedupe_hits, format_prompt, rerank_hits, truncate, RerankedHit};
use oxbed::state::Document;

fn hit(text: &str, score: u64) -> SearchHit {
    SearchHit {
        chunk: Chunk { id: "c".into(), doc_id: "d".into(), text: text.into(), start: 0, end: 0, strategy: ChunkStrategy::Structured },
        document: Document { id: "d".into(), path: "doc".into(), hash: "h".into(), token_count: 0 },
        score,
    }
}

fn strategy(mode: Stage3RerankMode, terms: &[&str], threshold: u64) -> Stage3RerankerStrategyConfig {
    Stage3RerankerStrategyConfig {
        name: "s".into(),
        mode,
        boost_terms: terms.iter().map(|t| t.to_string()).collect(),
        boost_factor: 1_000_000,
        threshold,
        hybrid_weight: 500_000,
    }
}

#[test]
fn build_context_respects_budget() {
    let hits = vec![hit("alpha beta", 1_000_000)];
    let reranked = vec![RerankedHit { hit: 0, score: 1_000_000 }];
    assert_eq!(build_context(&hits, &reranked, 3), "alp");
}

#[test]
fn build_context_joins_with_separator_and_skips_empty() {
    let hits = vec![hit(" one ", 3), hit("   ", 2), hit("two", 1)];
    let reranked = vec![
        RerankedHit { hit: 0, score: 3 },
        RerankedHit { hit: 1, score: 2 },
        RerankedHit { hit: 2, score: 1 },
    ];
    assert_eq!(build_context(&hits, &reranked, 100), "one\n---\ntwo");
    assert_eq!(build_context(&hits, &reranked, 10), "one\n---\ntw");
    assert_eq!(build_context(&hits, &reranked, 0), "");
}

#[test]
fn build_context_never_passes_the_budget() {
    let hits = vec![hit("abcde", 2), hit("xyz", 1)];
    let reranked = vec![RerankedHit { hit: 0, score: 2 }, RerankedHit { hit: 1, score: 1 }];
    assert_eq!(build_context(&hits, &reranked, 7), "abcde");
    assert_eq!(build_context(&hits, &reranked, 10), "abcde");
    assert_eq!(build_context(&hits, &reranked, 11), "abcde\n---\nx");
}

#[test]
fn rerank_accepts_large_boost_factors() {
    let hits = vec![hit("rust", 100), hit("plain", 200)];
    let mut s = strategy(Stage3RerankMode::TermOverlap, &["rust"], 0);
    s.boost_factor = 10_000_000_000;
    let r = rerank_hits(&hits, &s);
    assert_eq!(r[0].hit, 0);
    assert_eq!(r[0].score, 10_000_000_100);
    s.mode = Stage3RerankMode::BaseOnly;
    s.boost_factor = u64::MAX;
    let base = rerank_hits(&hits, &s);
    assert_eq!(base.iter().map(|x| x.hit).collect::<Vec<_>>(), vec![1, 0]);
}

#[test]
fn truncate_counts_characters() {
    assert_eq!(truncate("héllo", 2), "hé");
    assert_eq!(truncate("héllo", 0), "");
    assert_eq!(truncate("hé", 9), "hé");
}

#[test]
fn dedupe_is_case_insensitive_first_wins() {
    let out = dedupe_hits(vec![hit("Alpha", 5), hit("beta", 4), hit("ALPHA", 3)]);
    assert_eq!(out.len(), 2);
    assert_eq!(out[0].score, 5);
    assert_eq!(out[1].chunk.text, "beta");
}

#[test]
fn rerank_base_only_keeps_similarity_order() {
    let hits = vec![hit("a", 900), hit("b", 700), hit("c", 700), hit("d", 100)];
    let r = rerank_hits(&hits, &strategy(Stage3RerankMode::BaseOnly, &["d"], 500));
    let order: Vec<usize> = r.iter().map(|x| x.hit).collect();
    assert_eq!(order, vec![0, 1, 2]);
    assert_eq!(r[0].score, 900);
}

#[test]
fn rerank_term_overlap_and_hybrid() {
    let hits = vec![hit("plain text", 800_000), hit("Rust and Verus", 300_000)];
    let overlap = rerank_hits(&hits, &strategy(Stage3RerankMode::TermOverlap, &["rust", "VERUS", "absent"], 0));
    assert_eq!(overlap[0].hit, 1);
    assert_eq!(overlap[0].score, 2_300_000);
    assert_eq!(overlap[1].score, 800_000);
    let hybrid = rerank_hits(&hits, &strategy(Stage3RerankMode::Hybrid, &["rust"], 450_000));
    assert_eq!(hybrid.len(), 1);
    assert_eq!(hybrid[0].hit, 1);
    assert_eq!(hybrid[0].score, 650_000);
}

#[test]
fn prompt_placeholders_are_filled() {
    let p = format_prompt("Q: {query}\nC: {context}\n{query}", "why", "because");
    assert_eq!(p, "Q: why\nC: because\nwhy");
    assert_eq!(format_prompt("{context}", "{context}", "x"), "x");
}

#[test]
fn evaluation_single_relevant_hit() {
    let q = EvaluationQuery { name: "doc".into(), query: "alpha".into(), expected_terms: vec!["alpha".into()], top_k: Some(1) };
    let r = evaluate_query(&q, &vec![hit("alpha beta", 1)], 1);
    assert_eq!((r.matched, r.expected), (1, 1));
    assert_eq!(r.first_relevant_rank, Some(1));
    assert_eq!(r.relevant, vec![true]);
    assert_eq!(r.name, "doc");
}

#[test]
fn evaluation_counts_terms_once_and_ranks() {
    let q = EvaluationQuery {
        name: "q".into(),
        query: "x".into(),
        expected_terms: vec!["Beta".into(), "gamma".into(), "zeta".into()],
        top_k: None,
    };
    let hits = vec![hit("nothing", 3), hit("beta here", 2), hit("BETA and gamma", 1), hit("beta", 0)];
    let r = evaluate_query(&q, &hits, 4);
    assert_eq!(r.matched, 2);
    assert_eq!(r.expected, 3);
    assert_eq!(r.relevant, vec![false, true, true, false]);
    assert_eq!(r.first_relevant_rank, Some(2));
    assert_eq!(r.hits, 4);
    let none = evaluate_query(&q, &vec![], 4);
    assert_eq!(none.matched, 0);
    assert_eq!(none.first_relevant_rank, None);
}

#[test]
fn hybrid_weight_above_one_is_fine_outside_hybrid_mode() {
    let hits = vec![hit("a", 10), hit("b", 20)];
    let mut s = strategy(Stage3RerankMode::TermOverlap, &["a"], 0);
    s.hybrid_weight = 3_000_000;
    let r = rerank_hits(&hits, &s);
    assert_eq!(r[0].hit, 0);
    assert_eq!(r[0].score, 1_000_010);
}
