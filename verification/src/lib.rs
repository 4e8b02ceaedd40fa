//! Document-to-tree builder and token-budget-aware chunkers for
//! retrieval-sized text units.
//!
//! Text enters either the markdown tree builder (producing a hierarchical
//! [`tree::NodeTree`]) or one of the flat chunkers ([`recursive::RecursiveChunker`],
//! [`faq::FAQChunker`]), which produce bounded-size chunk records tagged with
//! their ancestry or range metadata.

pub mod text;
pub mod tokens;
pub mod tree;
pub mod markdown;
pub mod recursive;
pub mod faq;
pub mod pdf;
pub mod embedding;
