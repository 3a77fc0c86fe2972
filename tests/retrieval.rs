use oxbed::chunk::{Chunk, ChunkStrategy, Chunker};
use oxbed::config::{parse_embedder_kind, parse_rerank_mode, Config, EmbedderKind, Stage3RerankMode};
use oxbed::embedder::{Embedder, SparseVector, TermWeight, TfEmbedder};
use oxbed::index::{cosine_similarity, IndexEntry, VectorIndex, SCORE_SCALE};
use oxbed::pipeline::{ingest_document, IngestOutcome};
use oxbed::search::{search_hits, SearchError, SearchHit};
use oxbed::state::{Document, State};

fn vector(pairs: &[(&str, u64)], denominator: u64) -> SparseVector {
    SparseVector {
        entries: pairs.iter().map(|(t, w)| TermWeight { token: t.to_string(), weight: *w }).collect(),
        denominator,
    }
}

fn entry(id: &str, v: SparseVector) -> IndexEntry {
    IndexEntry { chunk_id: id.into(), doc_id: "d".into(), vector: v }
}

#[test]
fn cosine_is_exact_fixed_point() {
    let a = vector(&[("x", 1)], 1);
    let b = vector(&[("x", 1), ("y", 1)], 2);
    // 1 / sqrt(2) = 0.7071067...
    assert_eq!(cosine_similarity(&a, &b), 707_106);
    assert_eq!(cosine_similarity(&a, &a), SCORE_SCALE);
    assert_eq!(cosine_similarity(&a, &vector(&[("z", 3)], 3)), 0);
    assert_eq!(cosine_similarity(&a, &vector(&[], 0)), 0);
}

#[test]
fn cosine_is_symmetric() {
    let a = vector(&[("x", 2), ("y", 1), ("w", 7)], 10);
    let b = vector(&[("y", 3), ("x", 1), ("z", 4)], 8);
    assert_eq!(cosine_similarity(&a, &b), cosine_similarity(&b, &a));
}

#[test]
fn search_ranks_truncates_and_skips_zero_scores() {
    let mut index = VectorIndex::from_entries(vec![]);
    index.add_chunk("c0".into(), "d".into(), vector(&[("x", 1), ("y", 1)], 2));
    index.add_chunk("c1".into(), "d".into(), vector(&[("x", 1)], 1));
    index.add_chunk("c2".into(), "d".into(), vector(&[("z", 1)], 1));
    index.add_chunk("c3".into(), "d".into(), vector(&[("x", 1), ("y", 3)], 4));
    let q = vector(&[("x", 1)], 1);
    let all = index.search(&q, 10);
    assert_eq!(all, vec![(1, 1_000_000), (0, 707_106), (3, 316_227)]);
    let top = index.search(&q, 2);
    assert_eq!(top, vec![(1, 1_000_000), (0, 707_106)]);
    assert!(index.search(&vector(&[], 0), 10).is_empty());
    assert!(index.search(&q, 0).is_empty());
    assert_eq!(index.entries().len(), 4);
}

#[test]
fn search_keeps_ties_in_insertion_order() {
    let index = VectorIndex::from_entries(vec![
        entry("a", vector(&[("x", 1)], 1)),
        entry("b", vector(&[("x", 5)], 5)),
    ]);
    assert_eq!(index.search(&vector(&[("x", 2)], 2), 5), vec![(0, 1_000_000), (1, 1_000_000)]);
}

fn chunk(id: &str, doc: &str, text: &str) -> Chunk {
    Chunk { id: id.into(), doc_id: doc.into(), text: text.into(), start: 0, end: text.len(), strategy: ChunkStrategy::Fixed }
}

fn document(id: &str) -> Document {
    Document { id: id.into(), path: format!("{id}.txt"), hash: "h".into(), token_count: 0 }
}

#[test]
fn search_hits_join_chunks_and_apply_threshold() {
    let tf = Embedder::Tf(TfEmbedder::new(1));
    let mut config = Config::default();
    let state = State {
        documents: vec![document("d1")],
        chunks: vec![chunk("c1", "d1", "gamma delta"), chunk("c2", "d1", "gamma gamma gamma epsilon")],
        index_entries: vec![],
    };
    let index = VectorIndex::from_entries(vec![
        IndexEntry { chunk_id: "c1".into(), doc_id: "d1".into(), vector: tf.embed("gamma delta") },
        IndexEntry { chunk_id: "c2".into(), doc_id: "d1".into(), vector: tf.embed("gamma gamma gamma epsilon") },
    ]);
    let hits = search_hits(&tf, "  Gamma ", 3, &config, &state, &index).unwrap();
    assert_eq!(hits.len(), 2);
    assert_eq!(hits[0].chunk.id, "c2");
    assert_eq!(hits[0].score, 948_683);
    assert_eq!(hits[1].chunk.id, "c1");
    assert_eq!(hits[1].document.path, "d1.txt");
    config.stage1.search.score_threshold = 800_000;
    let hits = search_hits(&tf, "gamma", 3, &config, &state, &index).unwrap();
    assert_eq!(hits.len(), 1);
    config.stage1.search.score_threshold = 948_683;
    assert_eq!(search_hits(&tf, "gamma", 3, &config, &state, &index).unwrap().len(), 1);
}

#[test]
fn search_hits_report_dangling_references() {
    let tf = Embedder::Tf(TfEmbedder::new(1));
    let config = Config::default();
    let index = VectorIndex::from_entries(vec![IndexEntry {
        chunk_id: "c1".into(),
        doc_id: "d1".into(),
        vector: tf.embed("gamma"),
    }]);
    let no_chunk = State { documents: vec![document("d1")], chunks: vec![], index_entries: vec![] };
    assert!(matches!(search_hits(&tf, "gamma", 3, &config, &no_chunk, &index), Err(SearchError::MissingChunk(id)) if id == "c1"));
    let no_doc = State { documents: vec![], chunks: vec![chunk("c1", "d1", "gamma")], index_entries: vec![] };
    assert!(matches!(search_hits(&tf, "gamma", 3, &config, &no_doc, &index), Err(SearchError::MissingDocument(id)) if id == "d1"));
}

#[test]
fn state_lookups() {
    let state = State {
        documents: vec![document("d1"), document("d2")],
        chunks: vec![chunk("c1", "d1", "a"), chunk("c2", "d2", "b")],
        index_entries: vec![],
    };
    assert_eq!(state.find_chunk("c2").map(|c| c.text.clone()), Some("b".to_string()));
    assert!(state.find_chunk("c3").is_none());
    assert_eq!(state.find_document("d2").map(|d| d.path.clone()), Some("d2.txt".to_string()));
    assert!(state.has_document("h"));
    assert!(!state.has_document("other"));
    let hit = SearchHit { chunk: chunk("c1", "d1", "a"), document: document("d1"), score: 3 };
    assert_eq!(hit.duplicate().chunk.id, "c1");
}

#[test]
fn ingest_adds_document_chunks_and_entries() {
    let mut state = State::default();
    let mut index = VectorIndex::from_entries(vec![]);
    let chunker = Chunker::with_config(ChunkStrategy::Structured, 200, 32, true, true, vec!["\n\n".into()]);
    let tf = Embedder::Tf(TfEmbedder::new(1));
    let outcome = ingest_document(&mut state, &mut index, &chunker, &tf, "doc.txt".into(), "alpha\n\nbeta\n\nalpha", true);
    let doc_id = match outcome {
        IngestOutcome::Added { doc_id, chunks, duplicate } => {
            assert_eq!(chunks, 2);
            assert!(!duplicate);
            doc_id
        }
        other => panic!("unexpected outcome {other:?}"),
    };
    assert_eq!(state.documents.len(), 1);
    assert_eq!(state.documents[0].id, doc_id);
    assert_eq!(state.documents[0].token_count, 3);
    assert_eq!(state.documents[0].hash.len(), 64);
    assert_eq!(state.chunks.len(), 2);
    assert_eq!(index.entries().len(), 2);
    assert_eq!(index.entries()[1].chunk_id, state.chunks[1].id);
    assert_eq!(index.entries()[1].doc_id, doc_id);
    let again = ingest_document(&mut state, &mut index, &chunker, &tf, "copy.txt".into(), "alpha\n\nbeta\n\nalpha", true);
    assert!(matches!(again, IngestOutcome::SkippedDuplicate));
    assert_eq!(state.documents.len(), 1);
    let kept = ingest_document(&mut state, &mut index, &chunker, &tf, "copy.txt".into(), "alpha\n\nbeta\n\nalpha", false);
    assert!(matches!(kept, IngestOutcome::Added { duplicate: true, .. }));
    let empty = ingest_document(&mut state, &mut index, &chunker, &tf, "e.txt".into(), "", true);
    assert!(matches!(empty, IngestOutcome::NoChunks { duplicate: false }));
}

#[test]
fn ingest_hash_is_sha256_hex() {
    let mut state = State::default();
    let mut index = VectorIndex::from_entries(vec![]);
    let chunker = Chunker::with_config(ChunkStrategy::Fixed, 5, 0, true, true, vec![]);
    let tf = Embedder::Tf(TfEmbedder::new(1));
    ingest_document(&mut state, &mut index, &chunker, &tf, "a.txt".into(), "abc", true);
    assert_eq!(state.documents[0].hash, "ba7816bf8f01cfea414140de5dae2223b00361a396177a9cb410ff61f20015ad");
}

#[test]
fn embedder_kinds_parse() {
    assert!(matches!(parse_embedder_kind(" TF "), Ok(EmbedderKind::Tf)));
    assert!(matches!(parse_embedder_kind("bag-of-words"), Ok(EmbedderKind::BagOfWords)));
    match parse_embedder_kind("Custom:Model:V2:x") {
        Ok(EmbedderKind::Custom { name, version }) => {
            assert_eq!(name, "model");
            assert_eq!(version.as_deref(), Some("v2:x"));
        }
        other => panic!("unexpected {other:?}"),
    }
    match parse_embedder_kind("custom:m:") {
        Ok(EmbedderKind::Custom { name, version }) => {
            assert_eq!(name, "m");
            assert!(version.is_none());
        }
        other => panic!("unexpected {other:?}"),
    }
    assert!(matches!(parse_embedder_kind("custom:"), Err(oxbed::config::ConfigError::MissingCustomName)));
    assert!(matches!(parse_embedder_kind("dense"), Err(oxbed::config::ConfigError::UnknownEmbedderKind(v)) if v == "dense"));
    assert!(matches!(parse_rerank_mode("term-overlap"), Ok(Stage3RerankMode::TermOverlap)));
    assert!(matches!(parse_rerank_mode("bogus"), Err(oxbed::config::ConfigError::UnknownRerankMode(_))));
}

#[test]
fn config_defaults() {
    let c = Config::default();
    assert_eq!(c.stage1.chunk.max_tokens, 200);
    assert_eq!(c.stage1.chunk.overlap, 32);
    assert_eq!(c.stage1.chunk.chunk_separators.len(), 4);
    assert_eq!(c.stage1.search.top_k, 5);
    assert_eq!(c.stage3.context_budget, 1024);
    assert_eq!(c.stage3.reranker.strategies[0].name, "embedding-only");
    assert_eq!(c.stage4.training.sample_limit, 10_000);
    assert_eq!(c.stage3.prompt_template, "Question: {query}\nContext:\n{context}\nAnswer:");
}

#[test]
fn search_scores_strictly_fall_when_distinct() {
    let index = VectorIndex::from_entries(vec![
        entry("a", vector(&[("x", 1), ("y", 2)], 3)),
        entry("b", vector(&[("x", 1)], 1)),
        entry("c", vector(&[("x", 1), ("y", 1)], 2)),
    ]);
    let r = index.search(&vector(&[("x", 1)], 1), 3);
    assert_eq!(r.iter().map(|m| m.0).collect::<Vec<_>>(), vec![1, 2, 0]);
    assert!(r.windows(2).all(|w| w[0].1 > w[1].1));
}

#[test]
fn large_weights_are_scored_exactly() {
    let big = vector(&[("x", 2_000_000)], 2_000_000);
    let q = vector(&[("x", 1)], 1);
    assert_eq!(cosine_similarity(&q, &big), SCORE_SCALE);
    let index = VectorIndex::from_entries(vec![entry("a", big)]);
    assert_eq!(index.search(&q, 3), vec![(0, 1_000_000)]);
    let huge = vector(&[("x", u64::MAX), ("y", u64::MAX)], u64::MAX);
    assert_eq!(cosine_similarity(&q, &huge), 707_106);
    assert_eq!(cosine_similarity(&huge, &huge), SCORE_SCALE);
}

#[test]
fn tiny_positive_similarity_is_still_returned() {
    let index = VectorIndex::from_entries(vec![
        entry("a", vector(&[("x", 1), ("y", 10_000_000)], 10_000_001)),
        entry("b", vector(&[("z", 1)], 1)),
    ]);
    assert_eq!(index.search(&vector(&[("x", 1)], 1), 5), vec![(0, 0)]);
}

#[test]
fn vectors_with_repeated_tokens_are_not_well_formed() {
    assert!(vector(&[("x", 1), ("y", 2)], 3).is_well_formed());
    assert!(!vector(&[("x", 1), ("x", 2)], 3).is_well_formed());
}
