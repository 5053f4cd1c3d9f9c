//! Byte-pair-encoding vocabulary trainer for subword tokenization.
//!
//! The corpus is normalized into character sequences ([`norm`]), held as a
//! linked graph of symbols ([`graph`]), indexed by adjacent symbol pairs
//! ([`index`]) and merged step by step ([`train`]). A reference trainer that
//! recounts every pair at every step lives in [`slow`].
pub mod spec;
pub mod norm;
pub mod decode;
pub mod graph;
pub mod index;
pub mod vocab;
pub mod train;
pub mod slow;
