//! The commands the tool offers, as plain values; parsing the command line
//! is left to the program around the library.
use vstd::prelude::*;
use crate::chunk::ChunkStrategy;

verus! {

#[derive(Clone, Debug)]
pub enum Command {
    /// Ingest text/Markdown files into the local corpus plus vector index.
    Ingest { path: String, strategy: ChunkStrategy, emit_word_tally: bool, emit_normalized: bool },
    /// Search the corpus with a query string.
    Search { query: String, top_k: Option<usize> },
    /// Show corpus status (documents, chunks).
    Status,
    /// Run the evaluation harness.
    Evaluate,
    /// Train a custom embedder.
    Train { model: String, version: Option<String>, chunks: Option<String> },
    /// Rerank retrieval hits and assemble a prompt.
    Rag { query: String, top_k: Option<usize> },
}

#[derive(Clone, Debug)]
pub struct Cli {
    pub command: Command,
}

} // verus!
