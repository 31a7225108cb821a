//! Streaming lossless compressor building blocks: a restartable codec driver,
//! a framed multi-stream byte muxer/demuxer, and a rolling-hash block-signature
//! engine that reconstructs a custom dictionary from a reference byte stream.

use vstd::prelude::*;

pub mod codec;
pub mod coder;
pub mod crc;
pub mod dict;
pub mod mux;
pub mod queue;
pub mod sig;

verus! {

/// Outcome of a streaming call: the two pause states ask the caller to retry
/// with more input or more output space; the other two are terminal.
#[derive(Clone, Copy, PartialEq, Eq, Structural, Debug)]
pub enum DivansResult {
    Success,
    Failure,
    NeedsMoreInput,
    NeedsMoreOutput,
}

} // verus!
