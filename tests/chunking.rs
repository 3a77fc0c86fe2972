use oxbed::chunk::{ChunkStrategy, Chunker};

#[test]
fn structured_chunks_split_paragraphs_and_dedup() {
    let chunker = Chunker::with_config(ChunkStrategy::Structured, 200, 32, true, true, vec!["\n\n".into()]);
    let input = "alpha\n\nbeta\n\nalpha";
    let chunks = chunker.chunk("doc", input);
    assert_eq!(chunks.len(), 2);
    assert!(chunks.iter().any(|c| c.text.contains("alpha")));
    assert!(chunks.iter().any(|c| c.text.contains("beta")));
}

#[test]
fn fixed_chunks_obey_overlap_and_max() {
    let chunker = Chunker::with_config(ChunkStrategy::Fixed, 200, 32, true, true, vec!["\n\n".into()]);
    let input = "word ".repeat(500);
    let chunks = chunker.chunk("doc", &input);
    assert!(chunks.len() >= 2);
    for chunk in &chunks {
        assert!(chunk.text.len() > 0);
    }
    let start_positions: Vec<_> = chunks.iter().map(|c| c.start).collect();
    assert!(start_positions.windows(2).all(|w| w[1] > w[0]));
}

#[test]
fn structured_offsets_are_byte_offsets_of_trimmed_segments() {
    let chunker = Chunker::with_config(ChunkStrategy::Structured, 200, 32, true, false, vec!["\n\n".into()]);
    let chunks = chunker.chunk("d", "  é one\n\n\t two ");
    assert_eq!(chunks.len(), 2);
    assert_eq!(chunks[0].text, "é one");
    assert_eq!((chunks[0].start, chunks[0].end), (2, 8));
    assert_eq!(chunks[1].text, "two");
    assert_eq!((chunks[1].start, chunks[1].end), (12, 15));
    assert_eq!(chunks[0].doc_id, "d");
    assert_eq!(chunks[0].strategy, ChunkStrategy::Structured);
}

#[test]
fn structured_without_dedup_keeps_repeats() {
    let chunker = Chunker::with_config(ChunkStrategy::Structured, 200, 32, true, false, vec!["\n\n".into()]);
    let chunks = chunker.chunk("doc", "alpha\n\nbeta\n\nalpha");
    assert_eq!(chunks.len(), 3);
    assert_eq!(chunks[2].text, "alpha");
    assert_eq!(chunks[2].start, 13);
}

#[test]
fn structured_picks_leftmost_separator() {
    let chunker = Chunker::with_config(
        ChunkStrategy::Structured,
        200,
        32,
        true,
        true,
        vec!["\n-\n".into(), "\n\n".into(), String::new()],
    );
    let chunks = chunker.chunk("doc", "a\n\nb\n-\nc");
    let texts: Vec<&str> = chunks.iter().map(|c| c.text.as_str()).collect();
    assert_eq!(texts, vec!["a", "b", "c"]);
}

#[test]
fn structured_without_splitting_is_one_chunk() {
    let chunker = Chunker::with_config(ChunkStrategy::Structured, 200, 32, false, true, vec!["\n\n".into()]);
    let chunks = chunker.chunk("doc", "alpha\n\nbeta");
    assert_eq!(chunks.len(), 1);
    assert_eq!(chunks[0].text, "alpha\n\nbeta");
}

#[test]
fn fixed_windows_step_by_max_minus_overlap() {
    let chunker = Chunker::with_config(ChunkStrategy::Fixed, 3, 1, true, false, vec![]);
    let chunks = chunker.chunk("doc", "a b c d e");
    let texts: Vec<&str> = chunks.iter().map(|c| c.text.as_str()).collect();
    assert_eq!(texts, vec!["a b c", "c d e"]);
    assert_eq!(chunks[1].start, 4);
    assert_eq!(chunks[1].end, 9);
}

#[test]
fn fixed_overlap_at_least_max_steps_by_one() {
    let chunker = Chunker::with_config(ChunkStrategy::Fixed, 2, 5, true, false, vec![]);
    let chunks = chunker.chunk("doc", "a b c");
    let texts: Vec<&str> = chunks.iter().map(|c| c.text.as_str()).collect();
    assert_eq!(texts, vec!["a b", "b c"]);
}

#[test]
fn empty_input_gives_no_chunks() {
    let fixed = Chunker::with_config(ChunkStrategy::Fixed, 3, 1, true, true, vec![]);
    assert!(fixed.chunk("doc", "   ").is_empty());
    let structured = Chunker::with_config(ChunkStrategy::Structured, 3, 1, true, true, vec!["\n\n".into()]);
    assert!(structured.chunk("doc", "").is_empty());
}

#[test]
fn rechunking_gives_identical_boundaries() {
    let chunker = Chunker::with_config(ChunkStrategy::Fixed, 4, 1, true, true, vec![]);
    let text = "one two three four five six seven";
    let a: Vec<(usize, usize)> = chunker.chunk("d", text).iter().map(|c| (c.start, c.end)).collect();
    let b: Vec<(usize, usize)> = chunker.chunk("d", text).iter().map(|c| (c.start, c.end)).collect();
    assert_eq!(a, b);
}

#[test]
fn chunk_ids_are_fresh() {
    let chunker = Chunker::with_config(ChunkStrategy::Fixed, 1, 0, true, false, vec![]);
    let chunks = chunker.chunk("d", "x y");
    assert_eq!(chunks.len(), 2);
    assert!(!chunks[0].id.is_empty());
    assert_ne!(chunks[0].id, chunks[1].id);
}

#[test]
fn strategy_names() {
    assert_eq!(ChunkStrategy::Structured.name(), "structured");
    assert_eq!(ChunkStrategy::Fixed.name(), "fixed");
}
