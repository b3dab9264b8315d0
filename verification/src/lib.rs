//! A fine-grained reactive runtime: signals, memos, effects, scopes and keyed
//! list reconciliation, with every operation carrying a verified contract.
//!
//! The runtime never calls user code. A host evaluates the bodies of memos and
//! effects and tells the runtime what happened; the runtime decides what is
//! stale, what may run next and what a write invalidates.

pub mod binding;
pub mod error;
pub mod graph;
pub mod handle;
pub mod identity;
pub mod inspect;
pub mod invalidate;
pub mod keyed;
pub mod keys;
pub mod laws;
pub mod model;
pub mod order;
pub mod reconcile;
pub mod runtime;
pub mod schedule;
pub mod scope;
pub mod seqs;
pub mod steps;
pub mod store;
