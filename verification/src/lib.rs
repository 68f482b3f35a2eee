//! A multi-reader / single-writer connection pool whose scheduler is proved
//! against an abstract model, together with a small full-text-search
//! tokenizer that folds case and strips diacritics.
//!
//! The pool arbitrates one writer connection and a fixed set of reader
//! connections among read, write and exclusive requests. A request that
//! cannot be granted at once waits in a queue; whoever releases what it
//! holds wakes those who waited for it. Nothing here blocks and nothing
//! here posts: every operation returns the completions that its caller is
//! to report.
//!
//! * [`pool`] is the scheduler itself, over the storage of [`arena`] and the
//!   queues of [`linked_list`]; [`waiter`], [`message`], [`connection`] and
//!   [`dart`] hold the values it works with, [`registry`] finds pools by
//!   name.
//! * [`model`] states what the scheduler does as a mathematical state
//!   machine. [`preservation`] proves that its invariant holds after every
//!   step; [`laws`], [`reports`] and [`fifo`] prove what follows for callers,
//!   with the help of [`leases`] and [`sequences`].
//! * [`tokenize`] is the tokenizer, [`extension`] the checks for registering
//!   it with a database library.

pub mod arena;
pub mod connection;
pub mod dart;
pub mod extension;
pub mod fifo;
pub mod laws;
pub mod leases;
pub mod linked_list;
pub mod message;
pub mod model;
pub mod pool;
pub mod preservation;
pub mod registry;
pub mod reports;
pub mod sequences;
pub mod tokenize;
pub mod waiter;
