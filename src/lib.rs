//! A local document retrieval engine: chunking, sparse embeddings, a vector
//! index with cosine search, reranking with context assembly, and retrieval
//! metrics.
pub mod text;
pub mod normalization;
pub mod chunk;
pub mod embedder;
pub mod index;
pub mod config;
pub mod args;
pub mod state;
pub mod search;
pub mod stage3;
pub mod evaluation;
pub mod pipeline;
pub mod stage4;
pub mod natural;
