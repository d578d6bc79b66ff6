//! The control side of an engine for audio signal graphs.
//!
//! A client describes the graph it wants as trees of nodes (`node`,
//! `primitives`), whose identity is a hash of their structure (`hash`) and
//! whose properties are JSON-like values (`value`, `key`). `reconcile`
//! compares such a graph with what the runtime holds and gives the batch of
//! instructions that brings the two into agreement; `guarantees` states what
//! holds of every batch, and `walk` proves the steps to it. `encode` gives a
//! batch its wire form, and `engine` keeps the node map between two graphs.

pub mod encode;
pub mod engine;
pub mod guarantees;
pub mod hash;
pub mod key;
pub mod node;
pub mod primitives;
pub mod reconcile;
pub mod value;
pub mod walk;
