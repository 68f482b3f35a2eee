//! What a waiter asks for and what it has been given so far.

use vstd::prelude::*;
use crate::message::PendingMessage;

verus! {

/// The three kinds of request, each with the resources it holds.
#[derive(Clone, Copy, Debug, PartialEq, Eq, Structural)]
pub enum Waiter {
    /// Wants one reader; `assigned` is the index of the reader it got.
    Reader { assigned: Option<usize> },
    /// Wants the writer.
    Writer { holds_writer: bool },
    /// Wants the writer and every reader; `acquired_readers` counts the
    /// readers it has taken so far.
    Exclusive { holds_writer: bool, acquired_readers: usize },
}

impl Waiter {
    /// A reader request that holds nothing yet.
    pub open spec fn new_reader() -> Waiter {
        Waiter::Reader { assigned: None }
    }

    /// A writer request that holds nothing yet.
    pub open spec fn new_writer() -> Waiter {
        Waiter::Writer { holds_writer: false }
    }

    /// An exclusive request that holds nothing yet.
    pub open spec fn new_exclusive() -> Waiter {
        Waiter::Exclusive { holds_writer: false, acquired_readers: 0 }
    }

    /// Whether this request holds nothing.
    pub open spec fn is_fresh(self) -> bool {
        self == Waiter::new_reader() || self == Waiter::new_writer() || self
            == Waiter::new_exclusive()
    }

    /// Whether this kind waits in the read queue while it is pending.
    pub open spec fn wants_reader(self) -> bool {
        self is Reader || self is Exclusive
    }

    /// Whether this kind waits in the write queue while it is pending.
    pub open spec fn wants_writer(self) -> bool {
        self is Writer || self is Exclusive
    }

    /// Whether this request holds the writer.
    pub open spec fn has_writer(self) -> bool {
        match self {
            Waiter::Reader { .. } => false,
            Waiter::Writer { holds_writer } => holds_writer,
            Waiter::Exclusive { holds_writer, .. } => holds_writer,
        }
    }

    /// Whether a request of this kind may be the holder of reader `i`.
    pub open spec fn may_hold(self, i: usize) -> bool {
        match self {
            Waiter::Reader { assigned } => assigned == Some(i),
            Waiter::Writer { .. } => false,
            Waiter::Exclusive { .. } => true,
        }
    }

    /// Whether this request has everything it asked for, in a pool with
    /// `readers` reader connections.
    pub open spec fn is_completed(self, readers: nat) -> bool {
        match self {
            Waiter::Reader { assigned } => assigned is Some,
            Waiter::Writer { holds_writer } => holds_writer,
            Waiter::Exclusive { holds_writer, acquired_readers } => holds_writer
                && acquired_readers == readers,
        }
    }
}

/// A registered request as the model sees it: where its completion goes,
/// and its kind with what it holds.
pub struct Request {
    pub message: PendingMessage,
    pub kind: Waiter,
}

} // verus!
