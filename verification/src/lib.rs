//! Parser and formatter for MTML documents: literal text interleaved with
//! `mt` function tags and block tags.
//!
//! [`parse`] reads a document into a tree whose nodes know their place in the
//! document, and [`serialize`] writes a tree back as a document in one form.
//!
//! A document is read as a sequence of bytes. Every contract in this crate is
//! stated over that sequence: over the grammar in [`grammar`], the views of
//! the tree in [`ast`] and the text that [`serializer`] gives a tree. What
//! holds of every document is proved in [`laws`] and [`roundtrip`].

pub mod ast;
pub mod bytes;
pub mod grammar;
pub mod laws;
pub mod locality;
pub mod parser;
pub mod position;
pub mod registry;
pub mod roundtrip;
pub mod scanner;
pub mod serializer;
pub mod sound;
pub mod source;

pub use parser::{parse, parse_with};
pub use serializer::serialize;
