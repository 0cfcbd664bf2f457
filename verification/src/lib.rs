//! A single-pass assembler for a machine with 12-bit words.
//!
//! The crate is organised in dependency order: `token` defines the lexical
//! vocabulary, `lexer` turns source text into tokens, `codec` packs 12-bit
//! words densely into bytes (three bytes for every two words), and `driver`
//! runs the whole pass, resolving forward label references by patching
//! words already emitted into the codec.

pub mod codec;
pub mod driver;
pub mod lexer;
pub mod token;
