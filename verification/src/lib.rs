//! Grammar-based sequence compression core in the style of Sequitur.
//!
//! A grammar is a set of production rules; each rule's body is a circular,
//! doubly-linked list of symbols anchored by a sentinel guard node. A symbol
//! carries either a terminal token or a reference to another rule, and every
//! rule tracks the set of symbols elsewhere in the grammar that reference it.
//! The structural operations (append, apply, dissolve, delete) keep the
//! list-splice and reference-count invariants intact; this crate states those
//! invariants and proves that each operation preserves them.

pub mod grammar;
pub mod laws;
pub mod text;
