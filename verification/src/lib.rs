//! Alignment-consistent phrase extraction for statistical machine translation.
//!
//! Given a source sentence, a target sentence, and a word-level alignment
//! between them, the library enumerates every pair of contiguous spans that is
//! consistent with the alignment: no alignment point links a token inside one
//! span to a token outside the other. Unaligned target words at the edges of a
//! phrase may optionally be absorbed, which yields additional pairs sharing
//! the same source span.

pub mod extract;
pub mod text;
pub mod alignment;
pub mod pipeline;
pub mod senna;
