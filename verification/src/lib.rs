//! A verified reader for a small, human-editable media-catalog format: a
//! tokenizer and a recursive-descent parser that decode a catalog file into
//! a `SceneDatabase` of entries, or report the first error with its
//! position's tokens. Every function is specified against a mathematical
//! model of the scan and of the grammar, and proved to follow it.
pub mod text;
pub mod tokenizer;
pub mod scenedatabase;
pub mod dbfiles;
