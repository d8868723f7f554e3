//! An in-memory, line-oriented text buffer for a terminal editor.
//!
//! A [`Document`] is an ordered sequence of [`Row`]s. Every position inside a
//! row counts extended grapheme clusters, never bytes or scalar values:
//! insertion, deletion, splitting, search and highlighting all address the
//! text through its segmentation.
//!
//! Each operation is stated over a view of the data (a row is its sequence
//! of scalars and its highlight classes) and proved against that statement.
//! What is taken on trust is said where it stands: the segmentation of text
//! into clusters, the colour sequences of the terminal, and two functions of
//! the standard library.

pub mod document;
pub mod editing;
pub mod highlighting;
pub mod lines;
pub mod position;
pub mod render;
pub mod row;
pub mod search;
pub mod segmentation;
pub mod text;

pub use document::Document;
pub use position::Position;
pub use row::Row;
pub use search::SearchDirection;
