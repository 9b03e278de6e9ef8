//! A small pluggable text codec: a context object holds a swappable
//! compression strategy and forwards encode/decode calls to it. The
//! run-length strategy is the algorithmic core; the pass-through strategy
//! and the context are the interface around it.

pub mod codec;
pub mod digits;
pub mod rle;
