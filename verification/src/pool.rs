//! The pool scheduler: it owns the connections and the queues of waiters
//! and decides, for every request and every release, who gets which
//! connection. It never posts anything itself: every operation returns
//! the completions that are to be reported.

use std::collections::VecDeque;
use vstd::prelude::*;
use crate::arena::{occupied, QueueEntry, Slot, WaitArena, WaitNode};
use crate::connection::Connection;
use crate::leases::leases_in_order;
use crate::linked_list::{link_of, LinkedList};
use crate::message::{Completion, PendingMessage};
use crate::model::{without, PoolView};
use crate::preservation::{
    lemma_attempt,
    lemma_attempt_queues,
    lemma_enter,
    lemma_give_back,
    lemma_initial,
    lemma_leave_queues,
    lemma_nothing_leased,
    lemma_register,
    lemma_release,
    lemma_stay_queued,
    lemma_wake_write,
    lemma_without,
};
use crate::waiter::{Request, Waiter};

verus! {

/// The scheduler's state.
pub struct PoolState {
    reads: ReadState,
    writes: WriteState,
    arena: WaitArena,
}

struct ReadState {
    connections: Vec<Connection>,
    idle_connections: VecDeque<usize>,
    leases: Vec<Option<usize>>,
    waiters: LinkedList,
}

struct WriteState {
    connection: Connection,
    acquired: bool,
    holder: Ghost<Option<usize>>,
    waiters: LinkedList,
}

/// The caller's claim on a registered request. It is given out once, by the
/// request that registers the waiter, and given back once, to
/// [`PoolState::drop_waiter`].
pub struct PoolRequestHandle {
    node: usize,
}

impl View for PoolRequestHandle {
    type V = usize;

    /// The name of the waiter that this handle stands for.
    closed spec fn view(&self) -> usize {
        self.node
    }
}

impl PoolRequestHandle {
    /// The number under which completions name this request.
    pub fn node(&self) -> (node: usize)
        ensures
            node == self@,
    {
        self.node
    }
}

/// The completions that an optional completion stands for: one or none.
pub open spec fn completions(completed: Option<Completion>) -> Seq<Completion> {
    match completed {
        Some(completion) => seq![completion],
        None => Seq::empty(),
    }
}

impl View for PoolState {
    type V = PoolView;

    closed spec fn view(&self) -> PoolView {
        PoolView {
            writer: self.writes.connection,
            readers: self.reads.connections@,
            writer_lease: self.writes.holder@,
            idle_readers: self.reads.idle_connections@,
            reader_leases: self.reads.leases@,
            read_queue: self.reads.waiters@,
            write_queue: self.writes.waiters@,
            waiters: Map::new(
                |h: usize| occupied(self.arena@, h),
                |h: usize|
                    Request {
                        message: self.arena@[h as int].unwrap().port,
                        kind: self.arena@[h as int].unwrap().waiter,
                    },
            ),
        }
    }
}

impl PoolState {
    /// The stored state spells out its view: the arena is sound, the links
    /// in the nodes thread the two queues, and the flag of the writer says
    /// whether somebody holds it.
    pub closed spec fn repr_ok(&self) -> bool {
        &&& self.arena.wf()
        &&& self.reads.waiters.wf(self.arena@, Slot::Read)
        &&& self.writes.waiters.wf(self.arena@, Slot::Write)
        &&& self.writes.acquired == (self.writes.holder@ is Some)
    }

    /// The invariant of the pool.
    pub open spec fn wf(&self) -> bool {
        &&& self.repr_ok()
        &&& self@.wf()
    }

    /// The names that have been given back and not been given out again,
    /// the one given back last at the end.
    pub closed spec fn vacant_nodes(&self) -> Seq<usize> {
        self.arena.vacant()
    }

    /// How many names have ever been in use at once.
    pub closed spec fn node_count(&self) -> nat {
        self.arena@.len()
    }

    /// The name that the next request gets: the one that was given back
    /// last, or a new one if none is vacant.
    pub open spec fn next_node(&self) -> usize {
        if self.vacant_nodes().len() > 0 {
            self.vacant_nodes().last()
        } else {
            self.node_count() as usize
        }
    }

    /// The names that are vacant once the next request has its name.
    pub open spec fn vacant_after_request(&self) -> Seq<usize> {
        if self.vacant_nodes().len() > 0 {
            self.vacant_nodes().drop_last()
        } else {
            self.vacant_nodes()
        }
    }

    /// The number of names once the next request has its name.
    pub open spec fn node_count_after_request(&self) -> nat {
        if self.vacant_nodes().len() > 0 {
            self.node_count()
        } else {
            self.node_count() + 1
        }
    }

    /// Opens a pool over `writer` and `reads`: every reader idle, the writer
    /// free, nobody waiting.
    pub fn new(writer: Connection, reads: &[Connection]) -> (pool: PoolState)
        ensures
            pool.wf(),
            pool@ == PoolView::initial(writer, reads@),
            pool.vacant_nodes().len() == 0,
            pool.node_count() == 0,
    {
        let mut connections: Vec<Connection> = Vec::new();
        let mut idle_connections: VecDeque<usize> = VecDeque::new();
        let mut leases: Vec<Option<usize>> = Vec::new();
        let mut i: usize = 0;
        while i < reads.len()
            invariant
                i <= reads.len(),
                connections@ == reads@.subrange(0, i as int),
                idle_connections@ == Seq::new(i as nat, |k: int| k as usize),
                leases@ == Seq::new(i as nat, |k: int| None::<usize>),
            decreases reads.len() - i,
        {
            connections.push(reads[i]);
            idle_connections.push_back(i);
            leases.push(None);
            i = i + 1;
            proof {
                assert(connections@ =~= reads@.subrange(0, i as int));
                assert(idle_connections@ =~= Seq::new(i as nat, |k: int| k as usize));
                assert(leases@ =~= Seq::new(i as nat, |k: int| None::<usize>));
            }
        }
        let pool = PoolState {
            reads: ReadState {
                connections,
                idle_connections,
                leases,
                waiters: LinkedList::new(),
            },
            writes: WriteState {
                connection: writer,
                acquired: false,
                holder: Ghost(None),
                waiters: LinkedList::new(),
            },
            arena: WaitArena::new(),
        };
        proof {
            assert(reads@.subrange(0, reads@.len() as int) =~= reads@);
            assert(pool@.waiters =~= Map::<usize, Request>::empty());
            assert(pool@ == PoolView::initial(writer, reads@));
            lemma_initial(writer, reads@);
        }
        pool
    }

    /// The number of reader connections, idle or not.
    pub fn read_connection_count(&self) -> (count: usize)
        ensures
            count == self@.readers.len(),
    {
        self.reads.connections.len()
    }

    /// The writer and the readers, for inspection. Nothing changes.
    pub fn view_connections(&self) -> (connections: (&Connection, &[Connection]))
        ensures
            *connections.0 == self@.writer,
            connections.1@ == self@.readers,
    {
        (&self.writes.connection, self.reads.connections.as_slice())
    }

    /// Whether `handle` names a request that is registered with this pool.
    pub fn contains(&self, handle: &PoolRequestHandle) -> (found: bool)
        ensures
            found == self@.is_live(handle@),
    {
        self.arena.contains(handle.node)
    }

    /// The kind of the request behind `handle`, with what it holds now.
    pub fn waiter(&self, handle: &PoolRequestHandle) -> (kind: Waiter)
        requires
            self@.is_live(handle@),
        ensures
            kind == self@.waiters[handle@].kind,
    {
        self.arena.get(handle.node).waiter
    }

    /// Whether the writer is leased.
    pub fn writer_acquired(&self) -> (acquired: bool)
        requires
            self.wf(),
        ensures
            acquired == self@.writer_acquired(),
    {
        self.writes.acquired
    }

    /// The indices of the idle readers, the one that has been idle longest
    /// first.
    pub fn idle_readers(&self) -> (idle: Vec<usize>)
        ensures
            idle@ == self@.idle_readers,
    {
        let mut idle: Vec<usize> = Vec::new();
        let mut i: usize = 0;
        while i < self.reads.idle_connections.len()
            invariant
                i <= self.reads.idle_connections@.len(),
                idle@ == self.reads.idle_connections@.subrange(0, i as int),
            decreases self.reads.idle_connections@.len() - i,
        {
            idle.push(self.reads.idle_connections[i]);
            i = i + 1;
            proof {
                assert(idle@ =~= self.reads.idle_connections@.subrange(0, i as int));
            }
        }
        proof {
            assert(idle@ =~= self.reads.idle_connections@);
        }
        idle
    }

    /// The links that the node of waiter `h` carries for the queue of
    /// `slot`, if it carries any.
    pub closed spec fn links(&self, h: usize, slot: Slot) -> Option<QueueEntry> {
        link_of(self.arena@, slot, h)
    }

    /// A waiter's links for a queue are populated exactly while it stands
    /// in that queue.
    pub proof fn lemma_linked_iff_queued(&self, h: usize)
        requires
            self.wf(),
        ensures
            self.links(h, Slot::Read) is Some <==> self@.read_queue.contains(h),
            self.links(h, Slot::Write) is Some <==> self@.write_queue.contains(h),
    {
        self.reads.waiters.lemma_linked_iff_queued(self.arena@, Slot::Read, h);
        self.writes.waiters.lemma_linked_iff_queued(self.arena@, Slot::Write, h);
    }

    /// Whether the request behind `handle` carries links for the queue of
    /// `slot`, that is, whether it waits in that queue.
    pub fn is_queued(&self, handle: &PoolRequestHandle, slot: Slot) -> (queued: bool)
        requires
            self.wf(),
            self@.is_live(handle@),
        ensures
            queued == self.links(handle@, slot) is Some,
            queued == match slot {
                Slot::Read => self@.read_queue.contains(handle@),
                Slot::Write => self@.write_queue.contains(handle@),
            },
    {
        proof {
            self.lemma_linked_iff_queued(handle@);
        }
        self.arena.get(handle.node).entry(slot).is_some()
    }

    /// Whether no connection is leased. Requests that hold nothing may
    /// still wait.
    pub fn is_idle(&self) -> (idle: bool)
        requires
            self.wf(),
        ensures
            idle == (!self@.writer_acquired() && self@.idle_readers.len()
                == self@.readers.len()),
    {
        !self.writes.acquired && self.reads.idle_connections.len()
            == self.reads.connections.len()
    }

    /// Shuts the pool down. No connection may be leased. Returns the
    /// connections that are to be closed, in the order in which to close
    /// them: the writer, then the readers.
    pub fn shutdown(self) -> (closing: Vec<Connection>)
        requires
            self.wf(),
            !self@.writer_acquired(),
            self@.idle_readers.len() == self@.readers.len(),
        ensures
            closing@ == seq![self@.writer] + self@.readers,
    {
        let mut closing: Vec<Connection> = Vec::new();
        closing.push(self.writes.connection);
        let mut i: usize = 0;
        while i < self.reads.connections.len()
            invariant
                i <= self.reads.connections@.len(),
                closing@ == seq![self.writes.connection] + self.reads.connections@.subrange(
                    0,
                    i as int,
                ),
            decreases self.reads.connections@.len() - i,
        {
            closing.push(self.reads.connections[i]);
            i = i + 1;
            proof {
                assert(closing@ =~= seq![self.writes.connection]
                    + self.reads.connections@.subrange(0, i as int));
            }
        }
        proof {
            assert(self.reads.connections@.subrange(0, i as int) =~= self.reads.connections@);
        }
        closing
    }

    /// Gives the writer to `node` if it is free. `has_write` says whether
    /// `node` holds the writer, before and after.
    fn try_assign_write(&mut self, node: usize, has_write: &mut bool) -> (assigned: bool)
        requires
            old(self).writes.acquired == (old(self).writes.holder@ is Some),
        ensures
            assigned == *final(has_write),
            *final(has_write) == (*old(has_write) || !old(self).writes.acquired),
            final(self).reads == old(self).reads,
            final(self).arena == old(self).arena,
            final(self).writes.connection == old(self).writes.connection,
            final(self).writes.waiters == old(self).writes.waiters,
            final(self).writes.acquired == (final(self).writes.holder@ is Some),
            final(self).writes.holder@ == if !*old(has_write) && !old(self).writes.acquired {
                Some(node)
            } else {
                old(self).writes.holder@
            },
    {
        if *has_write {
            true
        } else if !self.writes.acquired {
            self.writes.acquired = true;
            self.writes.holder = Ghost(Some(node));
            *has_write = true;
            true
        } else {
            false
        }
    }

    /// One attempt to complete the pending request in slot `node`. What it
    /// takes it keeps, whether or not that completes it; the completion is
    /// returned when it does.
    fn try_complete(&mut self, node: usize) -> (completed: Option<Completion>)
        requires
            old(self).repr_ok(),
            old(self)@.inv_resources(),
            old(self)@.is_live(node),
            !old(self)@.is_completed(node),
        ensures
            final(self).repr_ok(),
            final(self)@ == old(self)@.attempt(node),
            final(self).vacant_nodes() == old(self).vacant_nodes(),
            final(self).node_count() == old(self).node_count(),
            completed == if final(self)@.is_completed(node) {
                Some(final(self)@.completion(node))
            } else {
                None
            },
    {
        let ghost start = self@;
        let ghost nodes = self.arena@;
        proof {
            crate::preservation::lemma_attempt(start, node);
            assert(start.holding_ok(node));
        }
        let waiting = self.arena.get(node);
        let completed = match waiting.waiter {
            Waiter::Reader { assigned } => {
                match self.reads.idle_connections.pop_front() {
                    Some(index) => {
                        proof {
                            assert(start.idle_readers[0] == index);
                            assert(start.idle_readers.contains(index));
                        }
                        self.reads.leases.set(index, Some(node));
                        self.arena.put(
                            node,
                            WaitNode {
                                waiter: Waiter::Reader { assigned: Some(index) },
                                ..waiting
                            },
                        );
                        Some(
                            Completion {
                                node,
                                message: waiting.port,
                                connection: Some(self.reads.connections[index]),
                            },
                        )
                    },
                    None => None,
                }
            },
            Waiter::Writer { holds_writer } => {
                let mut has_writer = holds_writer;
                if self.try_assign_write(node, &mut has_writer) {
                    self.arena.put(
                        node,
                        WaitNode { waiter: Waiter::Writer { holds_writer: true }, ..waiting },
                    );
                    Some(
                        Completion {
                            node,
                            message: waiting.port,
                            connection: Some(self.writes.connection),
                        },
                    )
                } else {
                    None
                }
            },
            Waiter::Exclusive { holds_writer, acquired_readers } => {
                let mut has_writer = holds_writer;
                self.try_assign_write(node, &mut has_writer);
                let mut acquired = acquired_readers;
                let ghost mut taken: int = 0;
                while self.reads.idle_connections.len() > 0
                    invariant
                        0 <= taken <= start.idle_readers.len(),
                        acquired == acquired_readers + taken,
                        acquired_readers + start.idle_readers.len() <= start.readers.len()
                            <= usize::MAX,
                        start.inv_resources(),
                        self.reads.idle_connections@ == start.idle_readers.skip(taken),
                        self.reads.leases@.len() == start.reader_leases.len(),
                        forall|i: int|
                            0 <= i < start.reader_leases.len() ==> #[trigger] self.reads.leases@[i]
                                == if start.reader_leases[i] is None
                                && !self.reads.idle_connections@.contains(i as usize) {
                                Some(node)
                            } else {
                                start.reader_leases[i]
                            },
                        self.reads.connections == old(self).reads.connections,
                        self.reads.waiters == old(self).reads.waiters,
                        self.arena == old(self).arena,
                        self.writes.connection == old(self).writes.connection,
                        self.writes.waiters == old(self).writes.waiters,
                        self.writes.acquired == (self.writes.holder@ is Some),
                        self.writes.holder@ == if !holds_writer && start.writer_lease is None {
                            Some(node)
                        } else {
                            start.writer_lease
                        },
                    decreases self.reads.idle_connections@.len(),
                {
                    let ghost idle = self.reads.idle_connections@;
                    let ghost leases = self.reads.leases@;
                    let index: usize = self.reads.idle_connections.pop_front().unwrap();
                    proof {
                        assert(start.idle_readers[taken] == index);
                        assert(start.idle_readers.contains(index));
                        assert(idle[0] == index);
                    }
                    self.reads.leases.set(index, Some(node));
                    acquired = acquired + 1;
                    proof {
                        taken = taken + 1;
                        let rest = self.reads.idle_connections@;
                        assert(rest =~= start.idle_readers.skip(taken));
                        assert forall|i: int|
                            0 <= i < start.reader_leases.len() implies #[trigger] self.reads.leases@[i]
                            == if start.reader_leases[i] is None && !rest.contains(i as usize) {
                            Some(node)
                        } else {
                            start.reader_leases[i]
                        } by {
                            assert(leases[i] == if start.reader_leases[i] is None
                                && !idle.contains(i as usize) {
                                Some(node)
                            } else {
                                start.reader_leases[i]
                            });
                            if rest.contains(i as usize) {
                                let k = choose|k: int| 0 <= k < rest.len() && rest[k] == i as usize;
                                assert(idle[k + 1] == i as usize);
                                assert(start.idle_readers[taken + k] == i as usize);
                                assert(i != index);
                            }
                            if idle.contains(i as usize) && i != index {
                                let k = choose|k: int| 0 <= k < idle.len() && idle[k] == i as usize;
                                assert(rest[k - 1] == i as usize);
                            }
                        }
                    }
                }
                self.arena.put(
                    node,
                    WaitNode {
                        waiter: Waiter::Exclusive {
                            holds_writer: has_writer,
                            acquired_readers: acquired,
                        },
                        ..waiting
                    },
                );
                proof {
                    assert(self.reads.idle_connections@ =~= Seq::<usize>::empty());
                    assert(taken == start.idle_readers.len());
                    assert(self.reads.leases@ =~= start.attempt(node).reader_leases);
                }
                if has_writer && acquired == self.reads.connections.len() {
                    Some(Completion { node, message: waiting.port, connection: None })
                } else {
                    None
                }
            },
        };
        proof {
            let after = self.arena@;
            assert forall|i: usize| #[trigger]
                link_of(nodes, Slot::Read, i) == link_of(after, Slot::Read, i) by {}
            assert forall|i: usize| #[trigger]
                link_of(nodes, Slot::Write, i) == link_of(after, Slot::Write, i) by {}
            self.reads.waiters.lemma_same_links(nodes, after, Slot::Read);
            self.writes.waiters.lemma_same_links(nodes, after, Slot::Write);
            assert(self@.waiters =~= start.attempt(node).waiters);
            assert(self@.reader_leases =~= start.attempt(node).reader_leases);
            assert(self@.idle_readers =~= start.attempt(node).idle_readers);
        }
        completed
    }

    /// Takes `node` out of the queues in which it stands.
    fn detach(&mut self, node: usize)
        requires
            old(self).repr_ok(),
            old(self)@.is_live(node),
        ensures
            final(self).repr_ok(),
            final(self)@ == old(self)@.unlink(node),
            final(self).vacant_nodes() == old(self).vacant_nodes(),
            final(self).node_count() == old(self).node_count(),
            link_of(final(self).arena@, Slot::Read, node) is None,
            link_of(final(self).arena@, Slot::Write, node) is None,
            final(self).reads.connections == old(self).reads.connections,
            final(self).reads.idle_connections == old(self).reads.idle_connections,
            final(self).reads.leases == old(self).reads.leases,
            final(self).writes.connection == old(self).writes.connection,
            final(self).writes.acquired == old(self).writes.acquired,
            final(self).writes.holder == old(self).writes.holder,
    {
        let ghost start = self@;
        let ghost nodes = self.arena@;
        proof {
            self.reads.waiters.lemma_linked_iff_queued(nodes, Slot::Read, node);
            self.writes.waiters.lemma_linked_iff_queued(nodes, Slot::Write, node);
        }
        if self.arena.get(node).read_entry.is_some() {
            self.reads.waiters.unlink(&mut self.arena, node, Slot::Read);
            proof {
                self.writes.waiters.lemma_same_links(nodes, self.arena@, Slot::Write);
            }
        }
        let ghost between = self.arena@;
        proof {
            assert(link_of(nodes, Slot::Write, node) == link_of(between, Slot::Write, node));
        }
        if self.arena.get(node).write_entry.is_some() {
            self.writes.waiters.unlink(&mut self.arena, node, Slot::Write);
            proof {
                self.reads.waiters.lemma_same_links(between, self.arena@, Slot::Read);
                assert(link_of(between, Slot::Read, node) == link_of(
                    self.arena@,
                    Slot::Read,
                    node,
                ));
            }
        }
        proof {
            assert(self@.waiters =~= start.waiters);
        }
    }

    /// Registers `waiter`, which holds nothing yet, and tries to complete
    /// it at once. If that fails the new node joins the queues of its kind.
    fn register_waiter(&mut self, msg: PendingMessage, waiter: Waiter) -> (registered: (
        PoolRequestHandle,
        Option<Completion>,
    ))
        requires
            old(self).wf(),
            waiter.is_fresh(),
        ensures
            final(self).wf(),
            registered.0@ == old(self).next_node(),
            !old(self)@.is_live(registered.0@),
            final(self).vacant_nodes() == old(self).vacant_after_request(),
            final(self).node_count() == old(self).node_count_after_request(),
            final(self)@ == old(self)@.register(registered.0@, msg, waiter).0,
            completions(registered.1) == old(self)@.register(registered.0@, msg, waiter).1,
    {
        let ghost start = self@;
        let ghost nodes = self.arena@;
        let node: usize = self.arena.insert(WaitNode::new(msg, waiter));
        let ghost entered = PoolView {
            waiters: start.waiters.insert(node, Request { message: msg, kind: waiter }),
            ..start
        };
        proof {
            let grown = self.arena@;
            assert forall|i: usize| #[trigger]
                link_of(nodes, Slot::Read, i) == link_of(grown, Slot::Read, i) by {}
            assert forall|i: usize| #[trigger]
                link_of(nodes, Slot::Write, i) == link_of(grown, Slot::Write, i) by {}
            self.reads.waiters.lemma_same_links(nodes, grown, Slot::Read);
            self.writes.waiters.lemma_same_links(nodes, grown, Slot::Write);
            assert(self@.waiters =~= entered.waiters);
            assert(self@ == entered);
            lemma_enter(start, node, msg, waiter);
            lemma_register(start, node, msg, waiter);
            lemma_attempt(entered, node);
            assert(!start.read_queue.contains(node));
            assert(!start.write_queue.contains(node));
        }
        let completed = self.try_complete(node);
        if completed.is_none() {
            let (reads, writes) = match waiter {
                Waiter::Reader { .. } => (true, false),
                Waiter::Writer { .. } => (false, true),
                Waiter::Exclusive { .. } => (true, true),
            };
            proof {
                self.reads.waiters.lemma_linked_iff_queued(self.arena@, Slot::Read, node);
                self.writes.waiters.lemma_linked_iff_queued(self.arena@, Slot::Write, node);
                assert(self@.waiters.dom().contains(node));
                assert(occupied(self.arena@, node));
            }
            let ghost tried = self.arena@;
            if reads {
                self.reads.waiters.push_back(&mut self.arena, node, Slot::Read);
                proof {
                    self.writes.waiters.lemma_same_links(tried, self.arena@, Slot::Write);
                    assert(link_of(tried, Slot::Write, node) == link_of(
                        self.arena@,
                        Slot::Write,
                        node,
                    ));
                }
            }
            let ghost between = self.arena@;
            if writes {
                self.writes.waiters.push_back(&mut self.arena, node, Slot::Write);
                proof {
                    self.reads.waiters.lemma_same_links(between, self.arena@, Slot::Read);
                }
            }
            proof {
                assert(self@.waiters =~= entered.attempt(node).waiters);
            }
        }
        (PoolRequestHandle { node }, completed)
    }

    /// Asks for one reader connection. The request completes at once if a
    /// reader is idle, and otherwise waits at the back of the read queue.
    pub fn request_read(&mut self, msg: PendingMessage) -> (registered: (
        PoolRequestHandle,
        Option<Completion>,
    ))
        requires
            old(self).wf(),
        ensures
            final(self).wf(),
            registered.0@ == old(self).next_node(),
            !old(self)@.is_live(registered.0@),
            final(self).vacant_nodes() == old(self).vacant_after_request(),
            final(self).node_count() == old(self).node_count_after_request(),
            final(self)@ == old(self)@.request_read(registered.0@, msg).0,
            completions(registered.1) == old(self)@.request_read(registered.0@, msg).1,
    {
        self.register_waiter(msg, Waiter::Reader { assigned: None })
    }

    /// Asks for the writer connection. The request completes at once if the
    /// writer is free, and otherwise waits at the back of the write queue.
    pub fn request_write(&mut self, msg: PendingMessage) -> (registered: (
        PoolRequestHandle,
        Option<Completion>,
    ))
        requires
            old(self).wf(),
        ensures
            final(self).wf(),
            registered.0@ == old(self).next_node(),
            !old(self)@.is_live(registered.0@),
            final(self).vacant_nodes() == old(self).vacant_after_request(),
            final(self).node_count() == old(self).node_count_after_request(),
            final(self)@ == old(self)@.request_write(registered.0@, msg).0,
            completions(registered.1) == old(self)@.request_write(registered.0@, msg).1,
    {
        self.register_waiter(msg, Waiter::Writer { holds_writer: false })
    }

    /// Asks for the writer and every reader. The request takes at once what
    /// is free; if that is not everything it waits at the back of both
    /// queues and keeps what it took.
    pub fn request_exclusive(&mut self, msg: PendingMessage) -> (registered: (
        PoolRequestHandle,
        Option<Completion>,
    ))
        requires
            old(self).wf(),
        ensures
            final(self).wf(),
            registered.0@ == old(self).next_node(),
            !old(self)@.is_live(registered.0@),
            final(self).vacant_nodes() == old(self).vacant_after_request(),
            final(self).node_count() == old(self).node_count_after_request(),
            final(self)@ == old(self)@.request_exclusive(registered.0@, msg).0,
            completions(registered.1) == old(self)@.request_exclusive(registered.0@, msg).1,
    {
        self.register_waiter(msg, Waiter::Exclusive { holds_writer: false, acquired_readers: 0 })
    }

    /// Puts reader `index` back at the end of the idle readers.
    fn return_read_connection(&mut self, index: usize)
        requires
            index < old(self).reads.leases@.len(),
        ensures
            final(self).reads.leases@ == old(self).reads.leases@.update(index as int, None),
            final(self).reads.idle_connections@ == old(self).reads.idle_connections@.push(index),
            final(self).reads.connections == old(self).reads.connections,
            final(self).reads.waiters == old(self).reads.waiters,
            final(self).writes == old(self).writes,
            final(self).arena == old(self).arena,
    {
        self.reads.leases.set(index, None);
        self.reads.idle_connections.push_back(index);
    }

    /// Marks the writer as free.
    fn return_write_connection(&mut self)
        ensures
            !final(self).writes.acquired,
            final(self).writes.holder@ is None,
            final(self).writes.connection == old(self).writes.connection,
            final(self).writes.waiters == old(self).writes.waiters,
            final(self).reads == old(self).reads,
            final(self).arena == old(self).arena,
    {
        self.writes.acquired = false;
        self.writes.holder = Ghost(None);
    }

    /// Wakes the head of the write queue and appends its completion to
    /// `out` if it completes.
    fn wake_write(&mut self, out: &mut Vec<Completion>)
        requires
            old(self).repr_ok(),
            old(self)@.inv_resources(),
            old(self)@.inv_queues(),
        ensures
            final(self).repr_ok(),
            final(self).vacant_nodes() == old(self).vacant_nodes(),
            final(self).node_count() == old(self).node_count(),
            final(self)@ == old(self)@.wake_write().0,
            final(out)@ == old(out)@ + old(self)@.wake_write().1,
    {
        let ghost start = self@;
        match self.writes.waiters.peek_head() {
            Some(head) => {
                proof {
                    assert(start.write_queue.contains(head));
                    lemma_attempt(start, head);
                }
                match self.try_complete(head) {
                    Some(completion) => {
                        out.push(completion);
                        self.detach(head);
                    },
                    None => {},
                }
            },
            None => {},
        }
    }

    /// Wakes the read queue from its head for as long as heads complete,
    /// and appends their completions to `out`.
    fn wake_read(&mut self, out: &mut Vec<Completion>)
        requires
            old(self).repr_ok(),
            old(self)@.inv_resources(),
            old(self)@.inv_queues(),
        ensures
            final(self).repr_ok(),
            final(self).vacant_nodes() == old(self).vacant_nodes(),
            final(self).node_count() == old(self).node_count(),
            final(self)@ == old(self)@.wake_read().0,
            final(out)@ == old(out)@ + old(self)@.wake_read().1,
    {
        let ghost start = self@;
        let ghost reported = out@;
        let mut done = false;
        while !done
            invariant
                self.repr_ok(),
                self@.inv_resources(),
                self@.inv_queues(),
                self.vacant_nodes() == old(self).vacant_nodes(),
                self.node_count() == old(self).node_count(),
                done ==> self@ == start.wake_read().0 && out@ == reported + start.wake_read().1,
                !done ==> self@.wake_read().0 == start.wake_read().0 && out@
                    + self@.wake_read().1 == reported + start.wake_read().1,
            decreases
                    if done {
                        0
                    } else {
                        1 + self@.read_queue.len()
                    },
        {
            let ghost now = self@;
            let ghost so_far = out@;
            match self.reads.waiters.peek_head() {
                Some(head) => {
                    proof {
                        assert(now.read_queue.contains(head));
                        lemma_attempt(now, head);
                        lemma_attempt_queues(now, head);
                        lemma_without(now.read_queue, head);
                        lemma_without(now.write_queue, head);
                    }
                    match self.try_complete(head) {
                        Some(completion) => {
                            out.push(completion);
                            self.detach(head);
                            proof {
                                let tried = now.attempt(head);
                                lemma_leave_queues(tried, head, self@);
                                assert(self@ == (PoolView {
                                    read_queue: now.read_queue.drop_first(),
                                    write_queue: without(now.write_queue, head),
                                    ..tried
                                }));
                                assert(out@ + self@.wake_read().1 =~= so_far
                                    + now.wake_read().1);
                            }
                        },
                        None => {
                            done = true;
                            proof {
                                lemma_stay_queued(now, head);
                                assert(out@ + Seq::<Completion>::empty() =~= out@);
                            }
                        },
                    }
                },
                None => {
                    done = true;
                    proof {
                        assert(out@ + Seq::<Completion>::empty() =~= out@);
                    }
                },
            }
        }
    }

    /// Releases the request behind `handle`, whether it has completed or is
    /// still waiting. The waiter leaves its queues and gives back all it
    /// holds; then those who waited for it are woken. The completions of
    /// the woken are returned in the order in which they were decided.
    pub fn drop_waiter(&mut self, handle: PoolRequestHandle) -> (woken: Vec<Completion>)
        requires
            old(self).wf(),
            old(self)@.is_live(handle@),
        ensures
            final(self).wf(),
            !final(self)@.is_live(handle@),
            final(self)@.waiters.dom() == old(self)@.waiters.dom().remove(handle@),
            final(self).vacant_nodes() == old(self).vacant_nodes().push(handle@),
            final(self).node_count() == old(self).node_count(),
            final(self)@ == old(self)@.release(handle@).0,
            woken@ == old(self)@.release(handle@).1,
    {
        let ghost start = self@;
        let node: usize = handle.node;
        let waiting = self.arena.get(node);
        proof {
            lemma_give_back(start, node);
            lemma_release(start, node);
            assert(start.holding_ok(node));
        }
        self.detach(node);
        let ghost linked = self.arena@;
        self.arena.remove(node);
        proof {
            let emptied = self.arena@;
            assert forall|i: usize| #[trigger]
                link_of(linked, Slot::Read, i) == link_of(emptied, Slot::Read, i) by {}
            assert forall|i: usize| #[trigger]
                link_of(linked, Slot::Write, i) == link_of(emptied, Slot::Write, i) by {}
            self.reads.waiters.lemma_same_links(linked, emptied, Slot::Read);
            self.writes.waiters.lemma_same_links(linked, emptied, Slot::Write);
            assert(self@.waiters =~= start.waiters.remove(node));
        }
        let mut woken: Vec<Completion> = Vec::new();
        match waiting.waiter {
            Waiter::Reader { assigned } => {
                match assigned {
                    Some(index) => {
                        self.return_read_connection(index);
                        proof {
                            assert(self@.reader_leases =~= start.give_back(node).reader_leases)
                                by {
                                assert forall|j: int|
                                    0 <= j < start.reader_leases.len() implies (
                                #[trigger] start.reader_leases[j] == Some(node) <==> j
                                    == index) by {
                                    if start.reader_leases[j] == Some(node) {
                                        assert(start.reader_leases[j] is Some);
                                    }
                                }
                            }
                            assert(self@.idle_readers =~= start.give_back(node).idle_readers);
                            assert(self@ == start.give_back(node));
                        }
                        self.wake_read(&mut woken);
                    },
                    None => {
                        proof {
                            lemma_nothing_leased(start, node);
                            assert(self@ == start.give_back(node));
                        }
                    },
                }
            },
            Waiter::Writer { holds_writer } => {
                proof {
                    lemma_nothing_leased(start, node);
                }
                if holds_writer {
                    self.return_write_connection();
                    proof {
                        assert(self@ == start.give_back(node));
                    }
                    self.wake_write(&mut woken);
                } else {
                    proof {
                        assert(self@ == start.give_back(node));
                    }
                }
            },
            Waiter::Exclusive { holds_writer, .. } => {
                if holds_writer {
                    self.return_write_connection();
                }
                let count: usize = self.reads.leases.len();
                let mut index: usize = 0;
                while index < count
                    invariant
                        index <= count == start.reader_leases.len(),
                        self.reads.leases@ == Seq::new(
                            count as nat,
                            |j: int|
                                if j < index && start.reader_leases[j] == Some(node) {
                                    None
                                } else {
                                    start.reader_leases[j]
                                },
                        ),
                        self.reads.idle_connections@ == start.idle_readers + leases_in_order(
                            start.reader_leases,
                            node,
                            index as nat,
                        ),
                        self.reads.connections@ == start.readers,
                        self.reads.waiters@ == without(start.read_queue, node),
                        self.writes.waiters@ == without(start.write_queue, node),
                        self.writes.connection == start.writer,
                        self.writes.holder@ == start.give_back(node).writer_lease,
                        self@.waiters == start.waiters.remove(node),
                        self.repr_ok(),
                        self.vacant_nodes() == old(self).vacant_nodes().push(node),
                        self.node_count() == old(self).node_count(),
                    decreases count - index,
                {
                    let ghost leases = self.reads.leases@;
                    let ghost idle = self.reads.idle_connections@;
                    let ghost pool = *self;
                    let mine = match self.reads.leases[index] {
                        Some(holder) => holder == node,
                        None => false,
                    };
                    if mine {
                        self.return_read_connection(index);
                    }
                    index = index + 1;
                    proof {
                        assert(self.reads.leases@ =~= Seq::new(
                            count as nat,
                            |j: int|
                                if j < index && start.reader_leases[j] == Some(node) {
                                    None
                                } else {
                                    start.reader_leases[j]
                                },
                        ));
                        assert(self@.waiters == pool@.waiters);
                    }
                }
                proof {
                    assert(self@.reader_leases =~= start.give_back(node).reader_leases);
                    assert(self@ == start.give_back(node));
                    lemma_wake_write(start.give_back(node));
                }
                self.wake_write(&mut woken);
                self.wake_read(&mut woken);
                proof {
                    let given = start.give_back(node);
                    assert(woken@ =~= given.wake_write().1 + given.wake_write().0.wake_read().1);
                }
            },
        }
        woken
    }
}

} // verus!
