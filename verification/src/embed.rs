//! The embedding port.
//!
//! The embedding backend is an external collaborator: it turns a batch of
//! texts into one vector per text, in order, where an empty vector means
//! "could not embed this text".  Vector components are carried as raw bit
//! patterns.  Nothing is promised of a backend's answers; the orchestrator
//! checks the count and states what holds for every outcome.

use vstd::prelude::*;
use crate::errors::PortableBrainsError;

verus! {

/// A batch embedding backend.
pub trait Embedder: Sized {
    /// One vector per input text, in order; an empty vector marks a text
    /// the backend could not embed.
    fn generate_embeddings_batch(&mut self, texts: &Vec<String>) -> (r: Result<
        Vec<Vec<u64>>,
        PortableBrainsError,
    >);

    /// A backpressure pause between batches; backends may sleep here.
    fn pause_between_batches(&mut self) {
    }
}

/// A deterministic in-process embedder for tests and demonstrations: each
/// text becomes a vector of `dim` copies of its character count, and the
/// batch calls are counted.  `shortfall` vectors can be withheld from the
/// end of each answer and one index per batch can be answered with an
/// empty vector, to exercise the orchestrator's error paths.
pub struct CountingEmbedder {
    pub calls: usize,
    pub dim: usize,
    pub shortfall: usize,
    pub empty_at: Option<usize>,
}

impl CountingEmbedder {
    /// A well-behaved counting embedder.
    pub fn new(dim: usize) -> (r: CountingEmbedder)
        ensures
            r.calls == 0,
            r.dim == dim,
            r.shortfall == 0,
            r.empty_at is None,
    {
        CountingEmbedder { calls: 0, dim, shortfall: 0, empty_at: None }
    }
}

impl Embedder for CountingEmbedder {
    fn generate_embeddings_batch(&mut self, texts: &Vec<String>) -> (r: Result<
        Vec<Vec<u64>>,
        PortableBrainsError,
    >)
        ensures
            final(self).calls == old(self).calls + 1 || (old(self).calls == usize::MAX
                && final(self).calls == usize::MAX),
            final(self).dim == old(self).dim,
            final(self).shortfall == old(self).shortfall,
            final(self).empty_at == old(self).empty_at,
            r matches Ok(v) ==> v@.len() == (if old(self).shortfall <= texts@.len() {
                texts@.len() - old(self).shortfall
            } else {
                0
            }) && forall|k: int|
                0 <= k < v@.len() ==> (#[trigger] v@[k])@.len() == (
                if old(self).empty_at == Some(k as usize) {
                    0int
                } else {
                    old(self).dim as int
                }),
            r is Ok,
    {
        if self.calls < usize::MAX {
            self.calls = self.calls + 1;
        }
        let mut out: Vec<Vec<u64>> = Vec::new();
        let keep: usize = if self.shortfall <= texts.len() {
            texts.len() - self.shortfall
        } else {
            0
        };
        let mut k: usize = 0;
        while k < keep
            invariant
                k <= keep,
                keep <= texts@.len(),
                self.dim == old(self).dim,
                self.shortfall == old(self).shortfall,
                self.empty_at == old(self).empty_at,
                self.calls == old(self).calls + 1 || (old(self).calls == usize::MAX
                    && self.calls == usize::MAX),
                out@.len() == k,
                forall|t: int|
                    0 <= t < k ==> (#[trigger] out@[t])@.len() == (if self.empty_at == Some(
                        t as usize,
                    ) {
                        0int
                    } else {
                        self.dim as int
                    }),
            decreases keep - k,
        {
            let mut make_empty = false;
            match self.empty_at {
                Some(e) => {
                    if e == k {
                        make_empty = true;
                    }
                },
                None => {},
            }
            let mut vec_k: Vec<u64> = Vec::new();
            if !make_empty {
                let value = texts[k].unicode_len() as u64;
                let mut d: usize = 0;
                while d < self.dim
                    invariant
                        d <= self.dim,
                        vec_k@.len() == d,
                    decreases self.dim - d,
                {
                    vec_k.push(value);
                    d = d + 1;
                }
            }
            out.push(vec_k);
            k = k + 1;
        }
        Ok(out)
    }
}

} // verus!
