//! The error taxonomy of the ingestion pipeline.
//!
//! Per-file errors (size limit, extraction, empty result, chunking) are
//! caught at the orchestrator boundary and skip only the offending file;
//! global errors (storage, model mismatch, embedding count mismatch) abort
//! a run.

use vstd::prelude::*;
use crate::format::DocumentFormat;

verus! {

/// Everything that can go wrong in the pipeline.
#[derive(Debug, Clone, PartialEq)]
pub enum PortableBrainsError {
    /// The input payload is larger than the configured ceiling.
    SizeLimitExceeded { size: usize, limit: usize },
    /// A format parser could not extract text; the format is absent when
    /// the extension named no supported format.
    ExtractionFailed { format: Option<DocumentFormat>, cause: String },
    /// Parsing succeeded but no text was extracted.
    EmptyResult,
    /// The chunker could not split the text.
    ChunkingFailed { cause: String },
    /// The storage backend or the run configuration rejected an
    /// operation.
    StorageError { cause: String },
    /// The store was created for a different schema version or embedding
    /// model.
    ModelMismatch { expected: String, found: String },
    /// The embedding backend returned a different number of vectors than
    /// texts it was given.
    CountMismatch { expected: usize, got: usize },
}

impl PortableBrainsError {
    /// A short human-readable description of the error.
    pub fn message(&self) -> (r: String)
        ensures
            r@.len() > 0,
    {
        let mut s = String::new();
        match self {
            PortableBrainsError::SizeLimitExceeded { .. } => {
                s.append("input larger than the configured size limit");
            },
            PortableBrainsError::ExtractionFailed { cause, .. } => {
                s.append("text extraction failed: ");
                s.append(cause.as_str());
            },
            PortableBrainsError::EmptyResult => {
                s.append("no text could be extracted");
            },
            PortableBrainsError::ChunkingFailed { cause } => {
                s.append("chunking failed: ");
                s.append(cause.as_str());
            },
            PortableBrainsError::StorageError { cause } => {
                s.append("storage error: ");
                s.append(cause.as_str());
            },
            PortableBrainsError::ModelMismatch { expected, found } => {
                s.append("model or version mismatch: expected ");
                s.append(expected.as_str());
                s.append(", found ");
                s.append(found.as_str());
            },
            PortableBrainsError::CountMismatch { .. } => {
                s.append("embedding count mismatch");
            },
        }
        proof {
            reveal_strlit("input larger than the configured size limit");
            reveal_strlit("text extraction failed: ");
            reveal_strlit("no text could be extracted");
            reveal_strlit("chunking failed: ");
            reveal_strlit("storage error: ");
            reveal_strlit("model or version mismatch: expected ");
            reveal_strlit("embedding count mismatch");
        }
        s
    }
}

} // verus!
