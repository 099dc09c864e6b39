//! An embedded, multi-tenant retrieval engine: documents are split into paragraph chunks,
//! each tenant's chunks are indexed by search term, and a query scores only the chunks of
//! the tenant that asks.

pub mod index;
pub mod laws;
pub mod operators;
pub mod pipeline;
pub mod text;

pub use index::{Chunk, Posting, TenantIndex};
pub use operators::{CoreHybridRetriever, CoreSemanticChunker};
pub use pipeline::{
    group_by_chunk, ChunkStore, ChunkTerms, CorePipeline, RankedChunk, ScoreTerm, MAX_RESULTS,
};
