//! A verified toolkit for the GFA sequence-graph exchange format: a streaming
//! line parser, a lossless converter between path-style and walk-style
//! traversal records, and a per-sample presence/absence tabulation.

pub mod bytes;
pub mod error;
pub mod convert;
pub mod gfa;
pub mod pav;
pub mod simplify;
