//! Keyword extraction by the RAKE heuristic: text is cut into phrases at
//! punctuation and stopwords, each word is scored by how often and how widely
//! it co-occurs inside those phrases, and each phrase is scored by the sum of
//! the scores of its words.
pub mod text;
pub mod rake;
pub mod scoring;
pub mod ranking;

pub use crate::rake::{Rake, StopWords};
