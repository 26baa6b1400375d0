//! A small Markdown-like document parser, verified with Verus.
//!
//! The library turns a sequence of characters into a document tree:
//! block-level elements (headings, paragraphs, lists, code blocks,
//! blockquotes), whose textual content is further decomposed into
//! nested inline formatting spans (bold, italic).
//!
//! The executable parser in [`parser`] is proved to return exactly the
//! document described by the mathematical model in [`model`].

pub mod ast;
pub mod model;
pub mod parser;
pub mod laws;
