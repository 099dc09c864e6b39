//! The two operators a pipeline must be given before it ingests: the paragraph chunker
//! and the retriever.

use vstd::prelude::*;
use crate::text::{paragraph_chunks, split_paragraph_chunks, views};

verus! {

/// Splits documents into paragraph chunks.
#[derive(Clone, Debug)]
pub struct CoreSemanticChunker {
    pub config: String,
}

impl CoreSemanticChunker {
    /// A chunker with the default configuration.
    pub fn new() -> (r: Self)
        ensures
            r.config@ == "default"@,
    {
        Self { config: "default".to_owned() }
    }

    /// The paragraphs of `content`: the pieces between occurrences of "\n\n", trimmed,
    /// empty ones dropped.
    pub fn chunk(&self, content: &str) -> (r: Vec<String>)
        ensures
            views(r@) == paragraph_chunks(content@),
    {
        split_paragraph_chunks(content)
    }
}

impl Default for CoreSemanticChunker {
    fn default() -> (r: Self)
        ensures
            r.config@ == "default"@,
    {
        Self::new()
    }
}

/// The retriever, with its rank-fusion constant.
#[derive(Clone, Debug)]
pub struct CoreHybridRetriever {
    pub rrf_k: i32,
}

impl CoreHybridRetriever {
    /// A retriever with rank-fusion constant `rrf_k`.
    pub fn new(rrf_k: i32) -> (r: Self)
        ensures
            r.rrf_k == rrf_k,
    {
        Self { rrf_k }
    }
}

impl Default for CoreHybridRetriever {
    fn default() -> (r: Self)
        ensures
            r.rrf_k == 60,
    {
        Self::new(60)
    }
}

} // verus!
