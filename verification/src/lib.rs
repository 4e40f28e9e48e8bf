//! A piece-table text buffer with a logarithmic offset index.

pub mod chars;
pub mod document;
pub mod editor;
pub mod event;
pub mod fenwick;
pub mod lines;
pub mod ops;
pub mod pieces;
pub mod plan;
pub mod prompt;
pub mod span;
pub mod weights;
