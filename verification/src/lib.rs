//! A flattened, zero-copy representation of a minimal typed instruction
//! language, with a verified encoder, binary persistence layer, interpreter
//! and decoder.
//!
//! A tree-structured function is flattened into an `InstrStore`: fixed-size
//! instruction records plus append-only name buffers and span tables
//! (`flatten`). Stores serialize into one contiguous byte region behind a
//! table of contents, and reconstruct into borrowed `InstrView`s by offset
//! arithmetic alone (`memfile`). The interpreter executes directly against
//! those views (`interp`), and the decoder projects a store back to tree
//! form (`unflatten`). The relations tying all of these together live in
//! `model`.
pub mod flatten;
pub mod interp;
pub mod memfile;
pub mod model;
pub mod types;
pub mod unflatten;
