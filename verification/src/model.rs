//! The scheduler as a mathematical state machine. The executable pool is
//! proved to follow these transitions step by step; the laws of the
//! scheduler are proved of this model.

use vstd::prelude::*;
use crate::connection::Connection;
use crate::leases::{leased_to, leases_in_order};
use crate::message::{Completion, PendingMessage};
use crate::waiter::{Request, Waiter};

verus! {

/// The state of a pool. Waiters are named by the number of their node.
pub struct PoolView {
    /// The writer connection.
    pub writer: Connection,
    /// The reader connections; their number never changes.
    pub readers: Seq<Connection>,
    /// The waiter that holds the writer, if it is leased.
    pub writer_lease: Option<usize>,
    /// The indices of the readers that nobody holds, first in first out.
    pub idle_readers: Seq<usize>,
    /// For each reader, the waiter that holds it, if it is leased.
    pub reader_leases: Seq<Option<usize>>,
    /// The waiters that wait for a reader, oldest first.
    pub read_queue: Seq<usize>,
    /// The waiters that wait for the writer, oldest first.
    pub write_queue: Seq<usize>,
    /// Every request that has been registered and not yet released.
    pub waiters: Map<usize, Request>,
}

/// The queue `q` with waiter `h` taken out, wherever it stood.
pub open spec fn without(q: Seq<usize>, h: usize) -> Seq<usize> {
    if q.contains(h) {
        q.remove(q.index_of(h))
    } else {
        q
    }
}

impl PoolView {
    /// A pool that has just been opened: every reader idle in index order,
    /// the writer free, nobody waiting.
    pub open spec fn initial(writer: Connection, readers: Seq<Connection>) -> PoolView {
        PoolView {
            writer,
            readers,
            writer_lease: None,
            idle_readers: Seq::new(readers.len(), |i: int| i as usize),
            reader_leases: Seq::new(readers.len(), |i: int| None),
            read_queue: Seq::empty(),
            write_queue: Seq::empty(),
            waiters: Map::empty(),
        }
    }

    /// Whether the writer is leased.
    pub open spec fn writer_acquired(self) -> bool {
        self.writer_lease is Some
    }

    /// Whether `h` names a registered request.
    pub open spec fn is_live(self, h: usize) -> bool {
        self.waiters.contains_key(h)
    }

    /// Whether request `h` has everything it asked for.
    pub open spec fn is_completed(self, h: usize) -> bool {
        self.waiters[h].kind.is_completed(self.readers.len())
    }

    /// The message that reports that `h` has completed.
    pub open spec fn completion(self, h: usize) -> Completion {
        let request = self.waiters[h];
        Completion {
            node: h,
            message: request.message,
            connection: match request.kind {
                Waiter::Reader { assigned } => Some(self.readers[assigned.unwrap() as int]),
                Waiter::Writer { .. } => Some(self.writer),
                Waiter::Exclusive { .. } => None,
            },
        }
    }

    /// One attempt to complete request `h`. A reader takes the idle reader
    /// that has waited longest; a writer takes the writer if it is free; an
    /// exclusive request takes the writer if it is free and every idle
    /// reader, and keeps what it took even when that is not yet everything.
    pub open spec fn attempt(self, h: usize) -> PoolView {
        let request = self.waiters[h];
        match request.kind {
            Waiter::Reader { assigned } => {
                if assigned is None && self.idle_readers.len() > 0 {
                    let i = self.idle_readers[0];
                    PoolView {
                        idle_readers: self.idle_readers.drop_first(),
                        reader_leases: self.reader_leases.update(i as int, Some(h)),
                        waiters: self.waiters.insert(
                            h,
                            Request { kind: Waiter::Reader { assigned: Some(i) }, ..request },
                        ),
                        ..self
                    }
                } else {
                    self
                }
            },
            Waiter::Writer { holds_writer } => {
                if !holds_writer && self.writer_lease is None {
                    PoolView {
                        writer_lease: Some(h),
                        waiters: self.waiters.insert(
                            h,
                            Request { kind: Waiter::Writer { holds_writer: true }, ..request },
                        ),
                        ..self
                    }
                } else {
                    self
                }
            },
            Waiter::Exclusive { holds_writer, acquired_readers } => {
                let takes_writer = !holds_writer && self.writer_lease is None;
                PoolView {
                    writer_lease: if takes_writer {
                        Some(h)
                    } else {
                        self.writer_lease
                    },
                    idle_readers: Seq::empty(),
                    reader_leases: Seq::new(
                        self.reader_leases.len(),
                        |i: int|
                            if self.reader_leases[i] is None {
                                Some(h)
                            } else {
                                self.reader_leases[i]
                            },
                    ),
                    waiters: self.waiters.insert(
                        h,
                        Request {
                            kind: Waiter::Exclusive {
                                holds_writer: holds_writer || takes_writer,
                                acquired_readers: (acquired_readers
                                    + self.idle_readers.len()) as usize,
                            },
                            ..request
                        },
                    ),
                    ..self
                }
            },
        }
    }

    /// The pool with `h` taken out of both queues.
    pub open spec fn unlink(self, h: usize) -> PoolView {
        PoolView {
            read_queue: without(self.read_queue, h),
            write_queue: without(self.write_queue, h),
            ..self
        }
    }

    /// Registers a request under the unused name `h` and tries to complete
    /// it at once. If that fails the request joins the back of the queues
    /// of its kind.
    pub open spec fn register(self, h: usize, message: PendingMessage, kind: Waiter) -> (
        PoolView,
        Seq<Completion>,
    ) {
        let tried = PoolView {
            waiters: self.waiters.insert(h, Request { message, kind }),
            ..self
        }.attempt(h);
        if tried.is_completed(h) {
            (tried, seq![tried.completion(h)])
        } else {
            (
                PoolView {
                    read_queue: if kind.wants_reader() {
                        tried.read_queue.push(h)
                    } else {
                        tried.read_queue
                    },
                    write_queue: if kind.wants_writer() {
                        tried.write_queue.push(h)
                    } else {
                        tried.write_queue
                    },
                    ..tried
                },
                Seq::empty(),
            )
        }
    }

    /// A request for one reader.
    pub open spec fn request_read(self, h: usize, message: PendingMessage) -> (
        PoolView,
        Seq<Completion>,
    ) {
        self.register(h, message, Waiter::new_reader())
    }

    /// A request for the writer.
    pub open spec fn request_write(self, h: usize, message: PendingMessage) -> (
        PoolView,
        Seq<Completion>,
    ) {
        self.register(h, message, Waiter::new_writer())
    }

    /// A request for the writer and all readers.
    pub open spec fn request_exclusive(self, h: usize, message: PendingMessage) -> (
        PoolView,
        Seq<Completion>,
    ) {
        self.register(h, message, Waiter::new_exclusive())
    }

    /// Wakes the head of the write queue: one attempt; if it completes, the
    /// head leaves its queues and its completion is reported.
    pub open spec fn wake_write(self) -> (PoolView, Seq<Completion>) {
        if self.write_queue.len() == 0 {
            (self, Seq::empty())
        } else {
            let h = self.write_queue[0];
            let tried = self.attempt(h);
            if tried.is_completed(h) {
                (tried.unlink(h), seq![tried.completion(h)])
            } else {
                (tried, Seq::empty())
            }
        }
    }

    /// Wakes the read queue from its head: as long as the head completes,
    /// it leaves its queues, its completion is reported and the next head
    /// is woken. A head that cannot complete stays, and stops the wake.
    pub open spec fn wake_read(self) -> (PoolView, Seq<Completion>)
        decreases self.read_queue.len(),
    {
        if self.read_queue.len() == 0 {
            (self, Seq::empty())
        } else {
            let h = self.read_queue[0];
            let tried = self.attempt(h);
            if tried.is_completed(h) {
                let (after, more) = PoolView {
                    read_queue: self.read_queue.drop_first(),
                    write_queue: without(self.write_queue, h),
                    ..tried
                }.wake_read();
                (after, seq![tried.completion(h)] + more)
            } else {
                (tried, Seq::empty())
            }
        }
    }

    /// The readers that `h` gives back when it is released, in the order in
    /// which they rejoin the idle readers.
    pub open spec fn returned_readers(self, h: usize) -> Seq<usize> {
        match self.waiters[h].kind {
            Waiter::Reader { assigned } => match assigned {
                Some(i) => seq![i],
                None => Seq::empty(),
            },
            Waiter::Writer { .. } => Seq::empty(),
            Waiter::Exclusive { .. } => leases_in_order(
                self.reader_leases,
                h,
                self.reader_leases.len(),
            ),
        }
    }

    /// The pool after `h` has left its queues and given back what it held,
    /// before anybody is woken.
    pub open spec fn give_back(self, h: usize) -> PoolView {
        PoolView {
            writer_lease: if self.waiters[h].kind.has_writer() {
                None
            } else {
                self.writer_lease
            },
            idle_readers: self.idle_readers + self.returned_readers(h),
            reader_leases: Seq::new(
                self.reader_leases.len(),
                |i: int|
                    if self.reader_leases[i] == Some(h) {
                        None
                    } else {
                        self.reader_leases[i]
                    },
            ),
            read_queue: without(self.read_queue, h),
            write_queue: without(self.write_queue, h),
            waiters: self.waiters.remove(h),
            ..self
        }
    }

    /// Releases request `h`, completed or not: it leaves its queues and
    /// gives back what it holds. A returned reader wakes the read queue, the
    /// returned writer wakes the write queue, and an exclusive request wakes
    /// first the write queue and then the read queue.
    pub open spec fn release(self, h: usize) -> (PoolView, Seq<Completion>) {
        let given = self.give_back(h);
        match self.waiters[h].kind {
            Waiter::Reader { assigned } => {
                if assigned is Some {
                    given.wake_read()
                } else {
                    (given, Seq::empty())
                }
            },
            Waiter::Writer { holds_writer } => {
                if holds_writer {
                    given.wake_write()
                } else {
                    (given, Seq::empty())
                }
            },
            Waiter::Exclusive { .. } => {
                let (written, first) = given.wake_write();
                let (read, second) = written.wake_read();
                (read, first + second)
            },
        }
    }

    /// What `h` holds agrees with the lease table.
    pub open spec fn holding_ok(self, h: usize) -> bool {
        match self.waiters[h].kind {
            Waiter::Reader { assigned } => assigned matches Some(i) ==> i < self.readers.len()
                && self.reader_leases[i as int] == Some(h),
            Waiter::Writer { .. } => true,
            Waiter::Exclusive { acquired_readers, .. } => acquired_readers == leased_to(
                self.reader_leases,
                Some(h),
            ).len(),
        }
    }

    /// Every connection is accounted for: a reader is idle exactly when
    /// nobody holds it, the lease tables and the waiters agree on who holds
    /// what, and the writer has at most one holder.
    pub open spec fn inv_resources(self) -> bool {
        &&& self.readers.len() <= usize::MAX
        &&& self.reader_leases.len() == self.readers.len()
        &&& self.idle_readers.no_duplicates()
        &&& forall|i: usize| #[trigger]
            self.idle_readers.contains(i) <==> (i < self.readers.len()
                && self.reader_leases[i as int] is None)
        &&& forall|i: int|
            0 <= i < self.readers.len() && #[trigger] self.reader_leases[i] is Some ==> {
                &&& self.is_live(self.reader_leases[i].unwrap())
                &&& self.waiters[self.reader_leases[i].unwrap()].kind.may_hold(i as usize)
            }
        &&& forall|h: usize| #[trigger] self.is_live(h) ==> self.holding_ok(h)
        &&& forall|h: usize| #[trigger]
            self.is_live(h) ==> (self.waiters[h].kind.has_writer() <==> self.writer_lease
                == Some(h))
        &&& self.writer_lease matches Some(h) ==> self.is_live(h)
    }

    /// The queues hold exactly the pending waiters of their kinds, each
    /// once.
    pub open spec fn inv_queues(self) -> bool {
        &&& self.read_queue.no_duplicates()
        &&& self.write_queue.no_duplicates()
        &&& forall|h: usize| #[trigger]
            self.read_queue.contains(h) <==> (self.is_live(h)
                && self.waiters[h].kind.wants_reader() && !self.is_completed(h))
        &&& forall|h: usize| #[trigger]
            self.write_queue.contains(h) <==> (self.is_live(h)
                && self.waiters[h].kind.wants_writer() && !self.is_completed(h))
    }

    /// Nobody waits for a reader while a reader is idle.
    pub open spec fn inv_prompt_read(self) -> bool {
        self.read_queue.len() > 0 ==> self.idle_readers.len() == 0
    }

    /// Nobody waits for the writer while the writer is free.
    pub open spec fn inv_prompt_write(self) -> bool {
        self.write_queue.len() > 0 ==> self.writer_lease is Some
    }

    /// The invariant of the scheduler.
    pub open spec fn wf(self) -> bool {
        &&& self.inv_resources()
        &&& self.inv_queues()
        &&& self.inv_prompt_read()
        &&& self.inv_prompt_write()
    }
}

} // verus!
