//! Document ingestion library: format-aware text extraction under strict
//! memory bounds, sentence-aware chunking with overlap, and two-phase
//! store-then-embed batch orchestration over a pluggable storage backend.

pub mod chars;
pub mod errors;
pub mod format;
pub mod normalize;
pub mod sentences;
pub mod chunk;
pub mod processor;
pub mod storage;
pub mod lancedb_storage;
pub mod embed;
pub mod pipeline;
pub mod pdf;
pub mod html;
pub mod office;
pub mod sheet;
pub mod rag;
