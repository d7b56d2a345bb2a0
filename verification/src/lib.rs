//! Anagram subset search: which dictionary words can be spelled with a
//! subset of a target word's letters, keeping their left-to-right order?
//!
//! The library builds a prefix tree (trie) over the corpus once, enumerates
//! every non-empty subset of the target word's character positions as a
//! candidate string, keeps the candidates the index holds — deduplicated in
//! first-seen order — and hands them back sorted by non-increasing length.
//!
//! - [`trie`] holds the dictionary index: construction and exact membership.
//! - [`subsets`] enumerates the candidate subset strings by bit mask.
//! - [`filter`] filters candidates against the index, deduplicates and sorts.
//! - [`report`] renders the result list as newline-joined text.
use vstd::prelude::*;

verus! {

pub mod filter;
pub mod report;
pub mod subsets;
pub mod trie;

} // verus!
