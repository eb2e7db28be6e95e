//! Parser and re-serializer for a bracketed, line-oriented scene-description
//! text format.  A document is a sequence of bracketed records
//! (`[name key=value key2="quoted value"]`), each optionally followed by
//! `name = value` property lines and terminated by a blank line.
//!
//! The character-level tokenizer, the token-to-record assembly, and the
//! record-to-token reconstruction are verified: each executable function
//! carries a contract that pins its result down against a mathematical
//! model of the lexer state machine, and the round-trip laws in `laws`
//! are proved from those contracts.

pub mod element;
pub mod laws;
pub mod scene;
pub mod tokenizer;
