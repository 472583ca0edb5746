//! Core of a semantic review-search service: the fixed-dimension vector log
//! and its on-disk format, exact top-k ranking, the metadata line log, and the
//! validation rules that guard both.

mod candidates;
pub mod error;
pub mod metadata;
pub mod ranker;
pub mod review;
pub mod score;
pub mod text;
pub mod tweets;
pub mod vector_store;
