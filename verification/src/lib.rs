//! Retrieval core for a personal study library.
//!
//! The library splits document text into overlapping chunks, ranks and merges
//! retrieval candidates, deduplicates near-identical chunks, assembles a
//! bounded context string, rewrites natural-language queries into search
//! strings, and schedules spaced-repetition reviews.  All lengths, offsets and
//! budgets count characters.

pub mod bucket;
pub mod chat;
pub mod chunker;
pub mod context;
pub mod embedding;
pub mod ingest;
pub mod quiz;
pub mod retrieve;
pub mod search;
pub mod store;
pub mod study;
pub mod text;
pub mod time;
pub mod web;
