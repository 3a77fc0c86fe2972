//! Search-hit assembly: embeds the query, searches the index, keeps the
//! matches at or above the score threshold and joins each to its chunk and
//! document.
use vstd::prelude::*;
use crate::chunk::Chunk;
use crate::config::Config;
use crate::embedder::{embeds, Embedder, SparseVector};
use crate::index::{search_result, VectorIndex};
use crate::normalization::{normalize, normalize_spec};
use crate::state::{first_chunk, first_document, Document, State};

verus! {

#[derive(Clone, Debug)]
pub struct SearchHit {
    pub chunk: Chunk,
    pub document: Document,
    /// Fixed-point, over `SCORE_SCALE`.
    pub score: u64,
}

impl SearchHit {
    /// A field-by-field copy.
    pub fn duplicate(&self) -> (r: SearchHit)
        ensures
            r == *self,
    {
        SearchHit { chunk: self.chunk.duplicate(), document: self.document.duplicate(), score: self.score }
    }
}

#[derive(Clone, Debug)]
pub enum SearchError {
    /// A match names a position past the end of the index.
    MissingIndexEntry,
    /// An index entry names a chunk that the corpus lacks.
    MissingChunk(String),
    /// An index entry names a document that the corpus lacks.
    MissingDocument(String),
}

/// The matches of `ms` of score at least `t`, in order.
pub open spec fn above(ms: Seq<(usize, u64)>, t: u64) -> Seq<(usize, u64)>
    decreases ms.len(),
{
    if ms.len() == 0 {
        Seq::empty()
    } else if ms.last().1 >= t {
        above(ms.drop_last(), t).push(ms.last())
    } else {
        above(ms.drop_last(), t)
    }
}

/// Match `m` resolves to an entry, its chunk and its document.
pub open spec fn resolves(m: (usize, u64), index: &VectorIndex, state: &State) -> bool {
    &&& m.0 < index.entries@.len()
    &&& first_chunk(state.chunks@, index.entries@[m.0 as int].chunk_id@) is Some
    &&& first_document(state.documents@, index.entries@[m.0 as int].doc_id@) is Some
}

/// `h` is the hit of match `m`.
pub open spec fn hit_of(h: SearchHit, m: (usize, u64), index: &VectorIndex, state: &State) -> bool {
    &&& m.0 < index.entries@.len()
    &&& first_chunk(state.chunks@, index.entries@[m.0 as int].chunk_id@) == Some(h.chunk)
    &&& first_document(state.documents@, index.entries@[m.0 as int].doc_id@) == Some(h.document)
    &&& h.score == m.1
}

/// The text that is embedded for query `q`.
pub open spec fn query_text(config: &Config, q: Seq<char>) -> Seq<char> {
    if config.stage1.embedder.normalize_query {
        normalize_spec(q)
    } else {
        q
    }
}

/// `r` is what `search_hits` returns when the query embeds to `qv` and the
/// index answers `ms`: one hit for each match at or above the threshold, or
/// an error when one of those does not resolve.
pub open spec fn hits_for(
    embedder: &Embedder,
    query: Seq<char>,
    top_k: usize,
    config: &Config,
    state: &State,
    index: &VectorIndex,
    qv: SparseVector,
    ms: Seq<(usize, u64)>,
    r: Result<Vec<SearchHit>, SearchError>,
) -> bool {
    let kept = above(ms, config.stage1.search.score_threshold);
    &&& embeds(embedder, qv, query_text(config, query))
    &&& search_result(index.entries@, qv, top_k, ms)
    &&& match r {
        Ok(hits) => hits@.len() == kept.len() && forall|i: int| 0 <= i < kept.len() ==> hit_of(
            #[trigger] hits@[i],
            kept[i],
            index,
            state,
        ),
        Err(_) => exists|i: int| 0 <= i < kept.len() && !resolves(#[trigger] kept[i], index, state),
    }
}

pub fn search_hits(
    embedder: &Embedder,
    query: &str,
    top_k: usize,
    config: &Config,
    state: &State,
    index: &VectorIndex,
) -> (r: Result<Vec<SearchHit>, SearchError>)
    requires
        index.wf(),
    ensures
        exists|qv: SparseVector, ms: Seq<(usize, u64)>| #[trigger] hits_for(embedder, query@, top_k, config, state, index, qv, ms, r),
{
    let text = if config.stage1.embedder.normalize_query {
        normalize(query)
    } else {
        String::from_str(query)
    };
    let query_vector = embedder.embed(text.as_str());
    let matches = index.search(&query_vector, top_k);
    let threshold = config.stage1.search.score_threshold;
    let ghost ms = matches@;
    let mut results: Vec<SearchHit> = Vec::new();
    let mut i: usize = 0;
    proof {
        assert(ms.take(0) =~= Seq::<(usize, u64)>::empty());
    }
    while i < matches.len()
        invariant
            0 <= i <= matches@.len(),
            ms == matches@,
            threshold == config.stage1.search.score_threshold,
            embeds(embedder, query_vector, query_text(config, query@)),
            search_result(index.entries@, query_vector, top_k, ms),
            results@.len() == above(ms.take(i as int), threshold).len(),
            forall|k: int| 0 <= k < results@.len() ==> hit_of(
                #[trigger] results@[k],
                above(ms.take(i as int), threshold)[k],
                index,
                state,
            ),
        decreases matches@.len() - i,
    {
        let ghost pre = above(ms.take(i as int), threshold);
        proof {
            assert(ms.take(i + 1).drop_last() =~= ms.take(i as int));
            assert(ms.take(i + 1).last() == ms[i as int]);
        }
        let (idx, score) = matches[i];
        if score >= threshold {
            let ghost post = above(ms.take(i + 1), threshold);
            proof {
                assert(post == pre.push(ms[i as int]));
            }
            if idx >= index.entries().len() {
                proof {
                    assert(post[pre.len() as int] == ms[i as int]);
                    lemma_above_prefix(ms, threshold, i + 1);
                    assert(above(ms, threshold)[pre.len() as int] == ms[i as int]);
                    assert(hits_for(embedder, query@, top_k, config, state, index, query_vector, ms, Err(SearchError::MissingIndexEntry)));
                }
                return Err(SearchError::MissingIndexEntry);
            }
            let entry = &index.entries()[idx];
            let chunk = match state.find_chunk(entry.chunk_id.as_str()) {
                Some(c) => c,
                None => {
                    let e = SearchError::MissingChunk(entry.chunk_id.clone());
                    proof {
                        lemma_above_prefix(ms, threshold, i + 1);
                        assert(above(ms, threshold)[pre.len() as int] == ms[i as int]);
                        assert(!resolves(above(ms, threshold)[pre.len() as int], index, state));
                        assert(hits_for(embedder, query@, top_k, config, state, index, query_vector, ms, Err(e)));
                    }
                    return Err(e);
                },
            };
            let document = match state.find_document(entry.doc_id.as_str()) {
                Some(d) => d,
                None => {
                    let e = SearchError::MissingDocument(entry.doc_id.clone());
                    proof {
                        lemma_above_prefix(ms, threshold, i + 1);
                        assert(above(ms, threshold)[pre.len() as int] == ms[i as int]);
                        assert(!resolves(above(ms, threshold)[pre.len() as int], index, state));
                        assert(hits_for(embedder, query@, top_k, config, state, index, query_vector, ms, Err(e)));
                    }
                    return Err(e);
                },
            };
            results.push(SearchHit { chunk: chunk.duplicate(), document: document.duplicate(), score });
        }
        i = i + 1;
    }
    proof {
        assert(ms.take(i as int) =~= ms);
        assert(hits_for(embedder, query@, top_k, config, state, index, query_vector, ms, Ok(results)));
    }
    Ok(results)
}

/// `above` of a prefix is a prefix of `above`.
proof fn lemma_above_prefix(ms: Seq<(usize, u64)>, t: u64, n: int)
    requires
        0 <= n <= ms.len(),
    ensures
        above(ms.take(n), t).len() <= above(ms, t).len(),
        forall|k: int| 0 <= k < above(ms.take(n), t).len() ==> above(ms, t)[k] == above(ms.take(n), t)[k],
    decreases ms.len() - n,
{
    if n < ms.len() {
        lemma_above_prefix(ms, t, n + 1);
        assert(ms.take(n + 1).drop_last() =~= ms.take(n));
    } else {
        assert(ms.take(n) =~= ms);
    }
}

} // verus!
