//! A buffered token reader for whitespace-separated contest-style input.
//!
//! The reader pulls bytes from a re-fillable source one buffered chunk at a
//! time, skips whitespace (every byte up to and including the space, 32), and
//! decodes the next token as an integer of a chosen width, an exact decimal,
//! a raw byte or a byte string, or reads the next line verbatim.
pub mod token;
pub mod source;
pub mod input;
pub mod laws;
