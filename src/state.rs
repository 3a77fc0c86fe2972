//! The corpus: documents, their chunks and the index entries, with the
//! lookups that join an index match back to its records.
use vstd::prelude::*;
use crate::chunk::Chunk;
use crate::index::IndexEntry;

verus! {

#[derive(Clone, Debug)]
pub struct Document {
    pub id: String,
    pub path: String,
    pub hash: String,
    pub token_count: usize,
}

impl Document {
    /// A field-by-field copy.
    pub fn duplicate(&self) -> (r: Document)
        ensures
            r == *self,
    {
        Document {
            id: self.id.clone(),
            path: self.path.clone(),
            hash: self.hash.clone(),
            token_count: self.token_count,
        }
    }
}

pub struct State {
    pub documents: Vec<Document>,
    pub chunks: Vec<Chunk>,
    pub index_entries: Vec<IndexEntry>,
}

/// The first chunk of `cs` with id `id`.
pub open spec fn first_chunk(cs: Seq<Chunk>, id: Seq<char>) -> Option<Chunk>
    decreases cs.len(),
{
    if cs.len() == 0 {
        None
    } else if cs[0].id@ == id {
        Some(cs[0])
    } else {
        first_chunk(cs.drop_first(), id)
    }
}

/// The first document of `ds` with id `id`.
pub open spec fn first_document(ds: Seq<Document>, id: Seq<char>) -> Option<Document>
    decreases ds.len(),
{
    if ds.len() == 0 {
        None
    } else if ds[0].id@ == id {
        Some(ds[0])
    } else {
        first_document(ds.drop_first(), id)
    }
}

impl Default for State {
    fn default() -> (r: Self)
        ensures
            r.documents@.len() == 0,
            r.chunks@.len() == 0,
            r.index_entries@.len() == 0,
    {
        State { documents: Vec::new(), chunks: Vec::new(), index_entries: Vec::new() }
    }
}

impl State {
    /// Whether a document with content hash `hash` is in the corpus.
    pub fn has_document(&self, hash: &str) -> (r: bool)
        ensures
            r == exists|i: int| 0 <= i < self.documents@.len() && (#[trigger] self.documents@[i]).hash@ == hash@,
    {
        let h = String::from_str(hash);
        let mut i: usize = 0;
        while i < self.documents.len()
            invariant
                0 <= i <= self.documents@.len(),
                h@ == hash@,
                forall|k: int| 0 <= k < i ==> (#[trigger] self.documents@[k]).hash@ != hash@,
            decreases self.documents@.len() - i,
        {
            if self.documents[i].hash == h {
                return true;
            }
            i = i + 1;
        }
        false
    }

    pub fn find_chunk(&self, chunk_id: &str) -> (r: Option<&Chunk>)
        ensures
            match r {
                Some(c) => first_chunk(self.chunks@, chunk_id@) == Some(*c),
                None => first_chunk(self.chunks@, chunk_id@) is None,
            },
    {
        let id = String::from_str(chunk_id);
        let mut i: usize = 0;
        proof {
            assert(self.chunks@.skip(0) =~= self.chunks@);
        }
        while i < self.chunks.len()
            invariant
                0 <= i <= self.chunks@.len(),
                id@ == chunk_id@,
                first_chunk(self.chunks@, chunk_id@) == first_chunk(self.chunks@.skip(i as int), chunk_id@),
            decreases self.chunks@.len() - i,
        {
            proof {
                assert(self.chunks@.skip(i as int).drop_first() =~= self.chunks@.skip(i + 1));
            }
            if self.chunks[i].id == id {
                return Some(&self.chunks[i]);
            }
            i = i + 1;
        }
        None
    }

    pub fn find_document(&self, doc_id: &str) -> (r: Option<&Document>)
        ensures
            match r {
                Some(d) => first_document(self.documents@, doc_id@) == Some(*d),
                None => first_document(self.documents@, doc_id@) is None,
            },
    {
        let id = String::from_str(doc_id);
        let mut i: usize = 0;
        proof {
            assert(self.documents@.skip(0) =~= self.documents@);
        }
        while i < self.documents.len()
            invariant
                0 <= i <= self.documents@.len(),
                id@ == doc_id@,
                first_document(self.documents@, doc_id@) == first_document(self.documents@.skip(i as int), doc_id@),
            decreases self.documents@.len() - i,
        {
            proof {
                assert(self.documents@.skip(i as int).drop_first() =~= self.documents@.skip(i + 1));
            }
            if self.documents[i].id == id {
                return Some(&self.documents[i]);
            }
            i = i + 1;
        }
        None
    }
}

} // verus!
