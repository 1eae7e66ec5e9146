//! Classic in-memory data structures with verified contracts.
//!
//! The core is a recency (least-recently-used) cache built over a
//! pluggable storage backend: the same eviction policy runs unmodified
//! over a contiguous array-backed store or a hand-rolled singly-linked
//! list, both implementing one minimal storage capability. Around that
//! core stand the classic exercises: stacks and bounded queues, binary
//! search and its variants, binary trees, a max-heap, a small hash
//! table, and the standard sorting algorithms — each with a contract
//! that pins down what it computes.

pub mod order;

pub mod lru;

pub mod linked;

pub mod queue;

pub mod stack;

pub mod binary_search;

pub mod binary_tree;

pub mod hash_table;

pub mod heap;

pub mod recursion;

pub mod sort;
