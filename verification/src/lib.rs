//! FAST-9 corner detection and the frame bookkeeping of a small
//! augmented-reality tracking engine.

pub mod fast;
pub mod engine;
