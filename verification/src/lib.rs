//! Directory trees in memory, assembled from the entries of a walk in
//! whatever order they arrive.
//!
//! A [`collector::Collector`] takes the entries in one by one, stores each as a
//! node of its own and notes below which path it belongs. When the walk is over,
//! the tree is assembled from the root down: every directory gets its children,
//! the sum of their sizes, and the order that the [`context::Context`] asks for.
//! Two passes may follow, one that prunes directories without files and one that
//! keeps directories only. The finished [`tree::Tree`] is read, never changed.
//!
//! What a run computes is stated on values in [`model`]; [`walk`] holds what
//! follows for the entries of a well-formed walk.

pub mod arena;
pub mod assemble;
pub mod branch;
pub mod branches;
pub mod collector;
pub mod context;
pub mod count;
pub mod cut;
pub mod error;
pub mod filter;
pub mod model;
pub mod node;
pub mod order;
pub mod pending;
pub mod shape;
pub mod sort;
pub mod sum;
pub mod tree;
pub mod walk;
pub mod weight;
