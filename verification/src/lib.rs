//! Query layer of an editor-integration server for a small language: given an
//! analyzed document (token stream, annotated syntax tree, type table), it
//! answers what type sits at a cursor offset, which declarations deserve an
//! inline type hint, and how every lexical unit is color-categorized, the
//! last delta-encoded into the wire form the protocol expects.

pub mod span;
pub mod text;
pub mod types;
pub mod ast;
pub mod hover;
pub mod inlay_hints;
pub mod semantic_tokens;
pub mod store;
pub mod coordinator;
