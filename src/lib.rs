//! Word-level inverted index over text documents.
//!
//! [`scanner`] splits text into maximal runs of alphabetic characters;
//! [`index`] maps each word to the set of documents that contain it.

pub mod index;
pub mod scanner;

pub use index::{Entry, Indexes};
pub use scanner::Matcher;
