//! What holds of the scheduler in every state that it can reach, and of
//! every step that it can take.

use vstd::prelude::*;
use crate::connection::Connection;
use crate::leases::{
    below,
    leased,
    lemma_holds_all,
    lemma_idle_counts_free,
    lemma_leased_or_free,
};
use crate::message::{Completion, PendingMessage};
use crate::model::PoolView;
use crate::preservation::{
    lemma_give_back,
    lemma_initial,
    lemma_register,
    lemma_release,
    lemma_wake_write,
};
use crate::reports::{lemma_register_reports, lemma_wake_read_order};
use crate::sequences::lemma_dropped;
use crate::waiter::Waiter;

verus! {

impl PoolView {
    /// Whether waiter `h` holds reader `i`: a reader request holds the
    /// reader assigned to it, an exclusive request the readers that the
    /// lease table gives it.
    pub open spec fn holds_reader(self, h: usize, i: usize) -> bool {
        &&& self.is_live(h)
        &&& i < self.readers.len()
        &&& match self.waiters[h].kind {
            Waiter::Reader { assigned } => assigned == Some(i),
            Waiter::Writer { .. } => false,
            Waiter::Exclusive { .. } => self.reader_leases[i as int] == Some(h),
        }
    }

    /// Whether nothing is leased and nobody is registered: every reader
    /// idle, the writer free, both queues empty.
    pub open spec fn is_quiescent(self) -> bool {
        &&& self.writer_lease is None
        &&& self.read_queue.len() == 0
        &&& self.write_queue.len() == 0
        &&& self.waiters.dom() =~= Set::<usize>::empty()
        &&& self.idle_readers.len() == self.readers.len()
        &&& self.idle_readers.no_duplicates()
        &&& self.idle_readers.to_set() =~= below(self.readers.len())
        &&& forall|i: int| 0 <= i < self.reader_leases.len() ==> self.reader_leases[i] is None
    }
}

/// The lease table and the waiters tell the same story: `h` holds reader
/// `i` exactly when the table leases `i` to `h`.
pub proof fn lemma_leases_are_holdings(s: PoolView, h: usize, i: usize)
    requires
        s.wf(),
        i < s.readers.len(),
    ensures
        s.holds_reader(h, i) <==> s.reader_leases[i as int] == Some(h),
{
    if s.reader_leases[i as int] == Some(h) {
        assert(s.reader_leases[i as int] is Some);
    }
    if s.is_live(h) {
        assert(s.holding_ok(h));
    }
}

/// Every reader is idle or held, never both: the idle readers and the held
/// readers together are as many as the pool has readers.
pub proof fn lemma_readers_accounted(s: PoolView)
    requires
        s.wf(),
    ensures
        leased(s.reader_leases).finite(),
        s.idle_readers.len() + leased(s.reader_leases).len() == s.readers.len(),
        forall|i: usize|
            i < s.readers.len() ==> (s.idle_readers.contains(i) <==> !leased(
                s.reader_leases,
            ).contains(i)),
{
    lemma_leased_or_free(s.reader_leases);
    lemma_idle_counts_free(s.idle_readers, s.reader_leases);
}

/// The writer is marked as acquired exactly when some waiter holds it.
pub proof fn lemma_writer_acquired_iff_held(s: PoolView)
    requires
        s.wf(),
    ensures
        s.writer_acquired() <==> exists|h: usize|
            s.is_live(h) && #[trigger] s.waiters[h].kind.has_writer(),
{
    if s.writer_acquired() {
        let h = s.writer_lease.unwrap();
        assert(s.is_live(h));
        assert(s.waiters[h].kind.has_writer());
    }
    if exists|h: usize| s.is_live(h) && #[trigger] s.waiters[h].kind.has_writer() {
        let h = choose|h: usize| s.is_live(h) && #[trigger] s.waiters[h].kind.has_writer();
        assert(s.is_live(h));
    }
}

/// At most one waiter holds the writer.
pub proof fn lemma_one_writer(s: PoolView, a: usize, b: usize)
    requires
        s.wf(),
        s.is_live(a),
        s.is_live(b),
        s.waiters[a].kind.has_writer(),
        s.waiters[b].kind.has_writer(),
    ensures
        a == b,
{
}

/// No reader is counted twice: the idle readers are distinct, an idle
/// reader is held by nobody, and a held reader has one holder.
pub proof fn lemma_no_reader_twice(s: PoolView)
    requires
        s.wf(),
    ensures
        s.idle_readers.no_duplicates(),
        forall|h: usize, i: usize| #[trigger]
            s.holds_reader(h, i) ==> !s.idle_readers.contains(i),
        forall|a: usize, b: usize, i: usize|
            #[trigger] s.holds_reader(a, i) && #[trigger] s.holds_reader(b, i) ==> a == b,
{
    assert forall|h: usize, i: usize| #[trigger] s.holds_reader(h, i) implies !s.idle_readers.contains(
        i,
    ) by {
        lemma_leases_are_holdings(s, h, i);
    }
    assert forall|a: usize, b: usize, i: usize|
        #[trigger] s.holds_reader(a, i) && #[trigger] s.holds_reader(b, i) implies a == b by {
        lemma_leases_are_holdings(s, a, i);
        lemma_leases_are_holdings(s, b, i);
    }
}

/// While an exclusive request is completed it holds the writer and every
/// reader, and no reader is idle.
pub proof fn lemma_exclusive_holds_all(s: PoolView, h: usize)
    requires
        s.wf(),
        s.is_live(h),
        s.waiters[h].kind is Exclusive,
        s.is_completed(h),
    ensures
        s.writer_acquired(),
        s.writer_lease == Some(h),
        forall|i: usize| i < s.readers.len() ==> #[trigger] s.holds_reader(h, i),
        s.idle_readers.len() == 0,
{
    assert(s.holding_ok(h));
    lemma_holds_all(s.reader_leases, Some(h));
    assert forall|i: usize| i < s.readers.len() implies #[trigger] s.holds_reader(h, i) by {
        assert(s.reader_leases[i as int] == Some(h));
    }
    if s.idle_readers.len() > 0 {
        let i = s.idle_readers[0];
        assert(s.idle_readers.contains(i));
        assert(s.reader_leases[i as int] == Some(h));
    }
}

/// A completed request stands in no queue, and a pending request stands in
/// the queues of its kind.
pub proof fn lemma_queued_iff_pending(s: PoolView, h: usize)
    requires
        s.wf(),
        s.is_live(h),
    ensures
        s.read_queue.contains(h) <==> (!s.is_completed(h) && s.waiters[h].kind.wants_reader()),
        s.write_queue.contains(h) <==> (!s.is_completed(h) && s.waiters[h].kind.wants_writer()),
{
}

/// With no request registered the pool is as it was opened, but for the
/// order of the idle readers: nothing is leased and nobody waits.
pub proof fn lemma_no_waiters_quiescent(s: PoolView)
    requires
        s.wf(),
        s.waiters.dom() =~= Set::<usize>::empty(),
    ensures
        s.is_quiescent(),
{
    if s.writer_lease is Some {
        assert(s.is_live(s.writer_lease.unwrap()));
    }
    if s.read_queue.len() > 0 {
        assert(s.read_queue.contains(s.read_queue[0]));
    }
    if s.write_queue.len() > 0 {
        assert(s.write_queue.contains(s.write_queue[0]));
    }
    assert forall|i: int| 0 <= i < s.reader_leases.len() implies s.reader_leases[i] is None by {
        if s.reader_leases[i] is Some {
            assert(s.is_live(s.reader_leases[i].unwrap()));
        }
    }
    lemma_idle_counts_free(s.idle_readers, s.reader_leases);
    lemma_leased_or_free(s.reader_leases);
    assert(leased(s.reader_leases) =~= Set::<usize>::empty());
    assert(s.idle_readers.to_set() =~= below(s.readers.len()));
}

/// One operation on the pool, as a caller issues it.
pub enum Operation {
    /// `request_read`, registering under the given name.
    Read(usize, PendingMessage),
    /// `request_write`, registering under the given name.
    Write(usize, PendingMessage),
    /// `request_exclusive`, registering under the given name.
    Exclusive(usize, PendingMessage),
    /// Release of the request with the given name.
    Release(usize),
}

impl PoolView {
    /// Whether `op` may be issued now: a request registers under a name
    /// that is not in use, a release names a registered request.
    pub open spec fn admits(self, op: Operation) -> bool {
        match op {
            Operation::Read(h, _) => !self.is_live(h),
            Operation::Write(h, _) => !self.is_live(h),
            Operation::Exclusive(h, _) => !self.is_live(h),
            Operation::Release(h) => self.is_live(h),
        }
    }

    /// The pool after `op`.
    pub open spec fn step(self, op: Operation) -> PoolView {
        match op {
            Operation::Read(h, message) => self.request_read(h, message).0,
            Operation::Write(h, message) => self.request_write(h, message).0,
            Operation::Exclusive(h, message) => self.request_exclusive(h, message).0,
            Operation::Release(h) => self.release(h).0,
        }
    }

    /// Whether the operations `ops` may be issued one after the other.
    pub open spec fn admits_all(self, ops: Seq<Operation>) -> bool
        decreases ops.len(),
    {
        ops.len() > 0 ==> self.admits(ops[0]) && self.step(ops[0]).admits_all(ops.drop_first())
    }

    /// The pool after the operations `ops`.
    pub open spec fn run(self, ops: Seq<Operation>) -> PoolView
        decreases ops.len(),
    {
        if ops.len() == 0 {
            self
        } else {
            self.step(ops[0]).run(ops.drop_first())
        }
    }

    /// The pool and the completions after the release of each of `names`,
    /// in their order.
    pub open spec fn release_all(self, names: Seq<usize>) -> (PoolView, Seq<Completion>)
        decreases names.len(),
    {
        if names.len() == 0 {
            (self, Seq::empty())
        } else {
            let (next, first) = self.release(names[0]);
            let (last, rest) = next.release_all(names.drop_first());
            (last, first + rest)
        }
    }
}

/// Every operation that may be issued keeps the invariant, adds or removes
/// exactly the request it names, and leaves the connections alone.
pub proof fn lemma_step(s: PoolView, op: Operation)
    requires
        s.wf(),
        s.admits(op),
    ensures
        s.step(op).wf(),
        s.step(op).readers == s.readers,
        s.step(op).writer == s.writer,
        s.step(op).waiters.dom() == match op {
            Operation::Read(h, _) => s.waiters.dom().insert(h),
            Operation::Write(h, _) => s.waiters.dom().insert(h),
            Operation::Exclusive(h, _) => s.waiters.dom().insert(h),
            Operation::Release(h) => s.waiters.dom().remove(h),
        },
{
    match op {
        Operation::Read(h, message) => lemma_register(s, h, message, Waiter::new_reader()),
        Operation::Write(h, message) => lemma_register(s, h, message, Waiter::new_writer()),
        Operation::Exclusive(h, message) => lemma_register(
            s,
            h,
            message,
            Waiter::new_exclusive(),
        ),
        Operation::Release(h) => lemma_release(s, h),
    }
}

/// The invariant holds after every sequence of operations.
pub proof fn lemma_run(s: PoolView, ops: Seq<Operation>)
    requires
        s.wf(),
        s.admits_all(ops),
    ensures
        s.run(ops).wf(),
        s.run(ops).readers == s.readers,
        s.run(ops).writer == s.writer,
    decreases ops.len(),
{
    if ops.len() > 0 {
        lemma_step(s, ops[0]);
        lemma_run(s.step(ops[0]), ops.drop_first());
    }
}

/// Cancellation restores: whatever was requested and released on a pool
/// since it was opened, once every request has been released the pool is
/// as it was opened, but for the order of the idle readers.
pub proof fn lemma_cancellation_restores(
    writer: Connection,
    readers: Seq<Connection>,
    ops: Seq<Operation>,
)
    requires
        readers.len() <= usize::MAX,
        PoolView::initial(writer, readers).admits_all(ops),
        PoolView::initial(writer, readers).run(ops).waiters.dom() =~= Set::<usize>::empty(),
    ensures
        PoolView::initial(writer, readers).run(ops).is_quiescent(),
        PoolView::initial(writer, readers).run(ops).readers == readers,
        PoolView::initial(writer, readers).run(ops).writer == writer,
{
    lemma_initial(writer, readers);
    lemma_run(PoolView::initial(writer, readers), ops);
    lemma_no_waiters_quiescent(PoolView::initial(writer, readers).run(ops));
}

/// Releasing everybody, in whatever order, leaves the pool as it was
/// opened, but for the order of the idle readers.
pub proof fn lemma_release_everybody(s: PoolView, names: Seq<usize>)
    requires
        s.wf(),
        names.no_duplicates(),
        forall|h: usize| #[trigger] s.is_live(h) <==> names.contains(h),
    ensures
        s.release_all(names).0.is_quiescent(),
        s.release_all(names).0.readers == s.readers,
        s.release_all(names).0.writer == s.writer,
    decreases names.len(),
{
    if names.len() == 0 {
        assert forall|h: usize| !s.waiters.dom().contains(h) by {
            assert(s.is_live(h) <==> names.contains(h));
        }
        lemma_no_waiters_quiescent(s);
    } else {
        let h = names[0];
        assert(names.contains(h));
        lemma_release(s, h);
        let next = s.release(h).0;
        assert forall|w: usize| #[trigger] next.is_live(w) <==> names.drop_first().contains(
            w,
        ) by {
            assert(s.is_live(w) <==> names.contains(w));
            lemma_dropped(names, w);
        }
        lemma_dropped(names, h);
        lemma_release_everybody(next, names.drop_first());
    }
}

/// A completed request stays as it is until it is released: no step that
/// does not release it touches it.
pub proof fn lemma_completed_until_released(s: PoolView, op: Operation, w: usize)
    requires
        s.wf(),
        s.admits(op),
        s.is_live(w),
        s.is_completed(w),
        op != Operation::Release(w),
    ensures
        s.step(op).is_live(w),
        s.step(op).waiters[w] == s.waiters[w],
        s.step(op).is_completed(w),
{
    lemma_step(s, op);
    assert(!s.read_queue.contains(w));
    assert(!s.write_queue.contains(w));
    match op {
        Operation::Read(h, message) => {
            lemma_register_reports(s, h, message, Waiter::new_reader());
        },
        Operation::Write(h, message) => {
            lemma_register_reports(s, h, message, Waiter::new_writer());
        },
        Operation::Exclusive(h, message) => {
            lemma_register_reports(s, h, message, Waiter::new_exclusive());
        },
        Operation::Release(h) => {
            let given = s.give_back(h);
            lemma_give_back(s, h);
            lemma_wake_write(given);
            lemma_wake_read_order(given);
            let written = given.wake_write().0;
            lemma_wake_read_order(written);
        },
    }
}

} // verus!
