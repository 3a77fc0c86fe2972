//! Ingest of one normalized document: duplicate detection by content hash,
//! chunking, embedding of each chunk and the additions to corpus and index.
use vstd::prelude::*;
use sha2::{Digest, Sha256};
use crate::chunk::{candidate_ranges, chunks_of, fresh_id, kept_ranges, Chunk, Chunker};
use crate::embedder::{embeds, words_of, Embedder};
use crate::index::{IndexEntry, VectorIndex};
use crate::state::{Document, State};

verus! {

/// The SHA-256 digest of the UTF-8 encoding of `s`, in lowercase hex.
pub uninterp spec fn sha256_hex(s: Seq<char>) -> Seq<char>;

/// Relies on `sha2::Sha256`: the digest of the UTF-8 bytes of `text`,
/// written as lowercase hex; it depends on `text` alone.
#[verifier::external_body]
fn hash_text(text: &str) -> (r: String)
    ensures
        r@ == sha256_hex(text@),
{
    let mut hasher = Sha256::new();
    hasher.update(text.as_bytes());
    format!("{:x}", hasher.finalize())
}

#[derive(Clone, Debug)]
pub enum IngestOutcome {
    /// A document of the same content hash was there, and duplicates are skipped.
    SkippedDuplicate,
    /// Chunking left nothing; the corpus is unchanged.
    NoChunks { duplicate: bool },
    /// The document and its chunks were added.
    Added { doc_id: String, chunks: usize, duplicate: bool },
}

/// The corpus holds a document of content hash `h`.
pub open spec fn holds_hash(docs: Seq<Document>, h: Seq<char>) -> bool {
    exists|i: int| 0 <= i < docs.len() && (#[trigger] docs[i]).hash@ == h
}

/// `es` are the index entries of chunks `cs` of document `doc_id`.
pub open spec fn entries_for(es: Seq<IndexEntry>, cs: Seq<Chunk>, doc_id: Seq<char>, e: &Embedder) -> bool {
    &&& es.len() == cs.len()
    &&& forall|k: int| 0 <= k < es.len() ==> {
        &&& (#[trigger] es[k]).chunk_id == cs[k].id
        &&& es[k].doc_id@ == doc_id
        &&& embeds(e, es[k].vector, cs[k].text@)
    }
}

/// Adds the document at `path`, of normalized text `normalized`, to the
/// corpus and the index: one chunk and one index entry per kept segment.
pub fn ingest_document(
    state: &mut State,
    index: &mut VectorIndex,
    chunker: &Chunker,
    embedder: &Embedder,
    path: String,
    normalized: &str,
    skip_duplicates: bool,
) -> (r: IngestOutcome)
    requires
        4 * normalized@.len() <= usize::MAX,
        chunker.strategy == crate::chunk::ChunkStrategy::Fixed ==> chunker.max_tokens > 0,
        old(index).wf(),
    ensures
        final(index).wf(),
        ({
            let dup = holds_hash(old(state).documents@, sha256_hex(normalized@));
            let ks = kept_ranges(normalized@, candidate_ranges(chunker, normalized@), chunker.dedupe_segments);
            &&& final(state).index_entries@ == old(state).index_entries@
            &&& match r {
                IngestOutcome::SkippedDuplicate => dup && skip_duplicates && final(state).documents@
                    == old(state).documents@ && final(state).chunks@ == old(state).chunks@
                    && final(index).entries@ == old(index).entries@,
                IngestOutcome::NoChunks { duplicate } => duplicate == dup && !(dup && skip_duplicates)
                    && ks.len() == 0 && final(state).documents@ == old(state).documents@
                    && final(state).chunks@ == old(state).chunks@ && final(index).entries@ == old(
                    index,
                ).entries@,
                IngestOutcome::Added { doc_id, chunks, duplicate } => {
                    let new_chunks = final(state).chunks@.skip(old(state).chunks@.len() as int);
                    &&& duplicate == dup && !(dup && skip_duplicates)
                    &&& chunks == ks.len() && chunks > 0
                    &&& final(state).chunks@.len() == old(state).chunks@.len() + chunks
                    &&& final(state).chunks@.take(old(state).chunks@.len() as int) == old(state).chunks@
                    &&& chunks_of(new_chunks, normalized@, ks, doc_id@, chunker.strategy)
                    &&& final(state).documents@.len() == old(state).documents@.len() + 1
                    &&& final(state).documents@.drop_last() == old(state).documents@
                    &&& final(state).documents@.last().id@ == doc_id@
                    &&& final(state).documents@.last().path@ == path@
                    &&& final(state).documents@.last().hash@ == sha256_hex(normalized@)
                    &&& final(state).documents@.last().token_count == words_of(normalized@).len()
                    &&& final(index).entries@.take(old(index).entries@.len() as int) == old(index).entries@
                    &&& entries_for(final(index).entries@.skip(old(index).entries@.len() as int), new_chunks, doc_id@, embedder)
                },
            }
        }),
{
    let hash = hash_text(normalized);
    let dup = state.has_document(hash.as_str());
    if dup && skip_duplicates {
        return IngestOutcome::SkippedDuplicate;
    }
    let doc_id = fresh_id();
    let token_count = embedder.token_count(normalized);
    let chunks = chunker.chunk(doc_id.as_str(), normalized);
    if chunks.len() == 0 {
        return IngestOutcome::NoChunks { duplicate: dup };
    }
    let ghost c0 = state.chunks@;
    let ghost e0 = index.entries@;
    let mut i: usize = 0;
    while i < chunks.len()
        invariant
            0 <= i <= chunks@.len(),
            state.chunks@ == c0 + chunks@.take(i as int),
            index.entries@.len() == e0.len() + i,
            index.entries@.take(e0.len() as int) == e0,
            entries_for(index.entries@.skip(e0.len() as int), chunks@.take(i as int), doc_id@, embedder),
            state.documents@ == old(state).documents@,
            state.index_entries@ == old(state).index_entries@,
            index.wf(),
        decreases chunks@.len() - i,
    {
        let vector = embedder.embed(chunks[i].text.as_str());
        let ghost eb = index.entries@;
        index.add_chunk(chunks[i].id.clone(), doc_id.clone(), vector);
        state.chunks.push(chunks[i].duplicate());
        proof {
            assert(state.chunks@ =~= c0 + chunks@.take(i + 1));
            assert(index.entries@.take(e0.len() as int) =~= eb.take(e0.len() as int));
            let es = index.entries@.skip(e0.len() as int);
            assert(es =~= eb.skip(e0.len() as int).push(index.entries@.last()));
            assert forall|k: int| 0 <= k < es.len() implies {
                &&& (#[trigger] es[k]).chunk_id == chunks@.take(i + 1)[k].id
                &&& es[k].doc_id@ == doc_id@
                &&& embeds(embedder, es[k].vector, chunks@.take(i + 1)[k].text@)
            } by {
                if k < i {
                    assert(es[k] == eb.skip(e0.len() as int)[k]);
                }
            }
        }
        i = i + 1;
    }
    let n = chunks.len();
    state.documents.push(Document { id: doc_id.clone(), path, hash, token_count });
    proof {
        assert(chunks@.take(n as int) =~= chunks@);
        assert(state.chunks@.skip(c0.len() as int) =~= chunks@);
        assert(state.chunks@.take(c0.len() as int) =~= c0);
    }
    IngestOutcome::Added { doc_id, chunks: n, duplicate: dup }
}

} // verus!
