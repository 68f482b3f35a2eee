//! Proofs that every transition of the model keeps the scheduler's
//! invariant.

use vstd::prelude::*;
use vstd::set_lib::lemma_set_disjoint_lens;
use crate::connection::Connection;
use crate::leases::{
    leased_to,
    lemma_holds_all,
    lemma_idle_counts_free,
    lemma_lease_changes,
    lemma_leased_to_bounded,
    lemma_leases_in_order,
};
use crate::message::PendingMessage;
use crate::model::{without, PoolView};
use crate::waiter::{Request, Waiter};

verus! {

/// An attempt keeps the accounting of resources intact, touches no queue
/// and no waiter but the one that tries, and never frees anything.
pub proof fn lemma_attempt(s: PoolView, h: usize)
    requires
        s.inv_resources(),
        s.is_live(h),
    ensures
        s.attempt(h).inv_resources(),
        s.attempt(h).read_queue == s.read_queue,
        s.attempt(h).write_queue == s.write_queue,
        s.attempt(h).readers == s.readers,
        s.attempt(h).writer == s.writer,
        s.attempt(h).waiters.dom() == s.waiters.dom(),
        s.attempt(h).waiters[h].message == s.waiters[h].message,
        forall|other: usize| other != h ==> s.attempt(h).waiters[other] == s.waiters[other],
        s.writer_lease is Some ==> s.attempt(h).writer_lease == s.writer_lease,
        s.idle_readers.len() == 0 ==> s.attempt(h).idle_readers.len() == 0,
        s.waiters[h].kind matches Waiter::Exclusive { acquired_readers, .. } ==> acquired_readers
            + s.idle_readers.len() <= s.readers.len(),
{
    let after = s.attempt(h);
    let kind = s.waiters[h].kind;
    assert(s.holding_ok(h));
    assert(after.waiters.dom() =~= s.waiters.dom());
    match kind {
        Waiter::Reader { assigned } => {
            if assigned is None && s.idle_readers.len() > 0 {
                lemma_attempt_reader(s, h);
            }
        },
        Waiter::Writer { holds_writer } => {
            if !holds_writer && s.writer_lease is None {
                assert forall|w: usize| #[trigger] after.is_live(w) implies after.holding_ok(w) by {
                    assert(s.is_live(w));
                    assert(s.holding_ok(w));
                }
                assert forall|w: usize| #[trigger] after.is_live(w) implies (
                after.waiters[w].kind.has_writer() <==> after.writer_lease == Some(w)) by {
                    assert(s.is_live(w));
                }
                assert forall|i: int|
                    0 <= i < after.readers.len() && #[trigger] after.reader_leases[i] is Some implies {
                    &&& after.is_live(after.reader_leases[i].unwrap())
                    &&& after.waiters[after.reader_leases[i].unwrap()].kind.may_hold(i as usize)
                } by {
                    assert(s.reader_leases[i] is Some);
                }
            }
        },
        Waiter::Exclusive { .. } => {
            lemma_attempt_exclusive(s, h);
        },
    }
}

proof fn lemma_attempt_reader(s: PoolView, h: usize)
    requires
        s.inv_resources(),
        s.is_live(h),
        s.waiters[h].kind == (Waiter::Reader { assigned: None }),
        s.idle_readers.len() > 0,
    ensures
        s.attempt(h).inv_resources(),
{
    let after = s.attempt(h);
    let i = s.idle_readers[0];
    assert(s.idle_readers.contains(i));
    assert(i < s.readers.len() && s.reader_leases[i as int] is None);
    lemma_lease_changes(s.reader_leases, i, Some(h));
    assert forall|j: usize| #[trigger]
        after.idle_readers.contains(j) <==> (j < after.readers.len()
            && after.reader_leases[j as int] is None) by {
        if after.idle_readers.contains(j) {
            let k = choose|k: int| 0 <= k < after.idle_readers.len() && after.idle_readers[k] == j;
            assert(s.idle_readers[k + 1] == j);
            assert(s.idle_readers.contains(j));
        }
        if j < after.readers.len() && after.reader_leases[j as int] is None {
            assert(s.idle_readers.contains(j));
            let k = choose|k: int| 0 <= k < s.idle_readers.len() && s.idle_readers[k] == j;
            assert(after.idle_readers[k - 1] == j);
        }
    }
    assert forall|j: int|
        0 <= j < after.readers.len() && #[trigger] after.reader_leases[j] is Some implies {
        &&& after.is_live(after.reader_leases[j].unwrap())
        &&& after.waiters[after.reader_leases[j].unwrap()].kind.may_hold(j as usize)
    } by {
        if j != i {
            assert(s.reader_leases[j] is Some);
        }
    }
    assert forall|w: usize| #[trigger] after.is_live(w) implies after.holding_ok(w) by {
        assert(s.is_live(w));
        assert(s.holding_ok(w));
        if w != h {
            assert(leased_to(after.reader_leases, Some(w)) == leased_to(
                s.reader_leases,
                Some(w),
            ));
        }
    }
    assert forall|w: usize| #[trigger] after.is_live(w) implies (
    after.waiters[w].kind.has_writer() <==> after.writer_lease == Some(w)) by {
        assert(s.is_live(w));
    }
}

proof fn lemma_attempt_exclusive(s: PoolView, h: usize)
    requires
        s.inv_resources(),
        s.is_live(h),
        s.waiters[h].kind is Exclusive,
    ensures
        s.attempt(h).inv_resources(),
        s.waiters[h].kind->Exclusive_acquired_readers + s.idle_readers.len() <= s.readers.len(),
{
    let after = s.attempt(h);
    let before = leased_to(s.reader_leases, Some(h));
    let free = leased_to(s.reader_leases, None);
    assert(s.holding_ok(h));
    lemma_idle_counts_free(s.idle_readers, s.reader_leases);
    lemma_leased_to_bounded(s.reader_leases, Some(h));
    lemma_leased_to_bounded(s.reader_leases, None);
    lemma_leased_to_bounded(after.reader_leases, Some(h));
    lemma_set_disjoint_lens(before, free);
    assert(leased_to(after.reader_leases, Some(h)) =~= before + free);
    assert forall|j: usize| #[trigger]
        after.idle_readers.contains(j) <==> (j < after.readers.len()
            && after.reader_leases[j as int] is None) by {}
    assert forall|j: int|
        0 <= j < after.readers.len() && #[trigger] after.reader_leases[j] is Some implies {
        &&& after.is_live(after.reader_leases[j].unwrap())
        &&& after.waiters[after.reader_leases[j].unwrap()].kind.may_hold(j as usize)
    } by {
        if s.reader_leases[j] is Some {
        }
    }
    assert forall|w: usize| #[trigger] after.is_live(w) implies after.holding_ok(w) by {
        assert(s.is_live(w));
        assert(s.holding_ok(w));
        if w != h {
            assert(leased_to(after.reader_leases, Some(w)) =~= leased_to(
                s.reader_leases,
                Some(w),
            ));
        }
    }
    assert forall|w: usize| #[trigger] after.is_live(w) implies (
    after.waiters[w].kind.has_writer() <==> after.writer_lease == Some(w)) by {
        assert(s.is_live(w));
    }
}

/// Taking a waiter out of a duplicate-free queue removes that waiter and
/// nobody else.
pub proof fn lemma_without(q: Seq<usize>, h: usize)
    requires
        q.no_duplicates(),
    ensures
        without(q, h).no_duplicates(),
        forall|x: usize| #[trigger] without(q, h).contains(x) <==> (q.contains(x) && x != h),
        q.len() > 0 && q[0] == h ==> without(q, h) == q.drop_first(),
        without(q, h).len() <= q.len(),
{
    let rest = without(q, h);
    if q.contains(h) {
        let at = q.index_of(h);
        assert forall|x: usize| #[trigger] rest.contains(x) <==> (q.contains(x) && x != h) by {
            if rest.contains(x) {
                let k = choose|k: int| 0 <= k < rest.len() && rest[k] == x;
                if k < at {
                    assert(q[k] == x);
                } else {
                    assert(q[k + 1] == x);
                }
            }
            if q.contains(x) && x != h {
                let k = choose|k: int| 0 <= k < q.len() && q[k] == x;
                if k < at {
                    assert(rest[k] == x);
                } else {
                    assert(rest[k - 1] == x);
                }
            }
        }
        if q[0] == h {
            assert(at == 0);
            assert(rest =~= q.drop_first());
        }
    }
}

/// The accounting of resources does not depend on the queues.
pub proof fn lemma_requeued(a: PoolView, b: PoolView)
    requires
        a.inv_resources(),
        b == (PoolView { read_queue: b.read_queue, write_queue: b.write_queue, ..a }),
    ensures
        b.inv_resources(),
{
    assert forall|i: usize| #[trigger]
        b.idle_readers.contains(i) <==> (i < b.readers.len()
            && b.reader_leases[i as int] is None) by {
        assert(a.idle_readers.contains(i) <==> (i < a.readers.len()
            && a.reader_leases[i as int] is None));
    }
    assert forall|w: usize| #[trigger] b.is_live(w) implies b.holding_ok(w) by {
        assert(a.is_live(w));
        assert(a.holding_ok(w));
    }
    assert forall|w: usize| #[trigger] b.is_live(w) implies (b.waiters[w].kind.has_writer()
        <==> b.writer_lease == Some(w)) by {
        assert(a.is_live(w));
    }
    assert forall|i: int|
        0 <= i < b.readers.len() && #[trigger] b.reader_leases[i] is Some implies {
        &&& b.is_live(b.reader_leases[i].unwrap())
        &&& b.waiters[b.reader_leases[i].unwrap()].kind.may_hold(i as usize)
    } by {
        assert(a.reader_leases[i] is Some);
        assert(a.is_live(a.reader_leases[i].unwrap()));
    }
    if b.writer_lease is Some {
        assert(a.is_live(a.writer_lease.unwrap()));
    }
}

/// A fresh request that has been entered under an unused name, and has not
/// tried anything yet, leaves the accounting of resources intact.
pub proof fn lemma_enter(s: PoolView, h: usize, message: PendingMessage, kind: Waiter)
    requires
        s.wf(),
        !s.is_live(h),
        kind.is_fresh(),
    ensures
        (PoolView {
            waiters: s.waiters.insert(h, Request { message, kind }),
            ..s
        }).inv_resources(),
{
    let entered = PoolView {
        waiters: s.waiters.insert(h, Request { message, kind }),
        ..s
    };
    assert(leased_to(s.reader_leases, Some(h)) =~= Set::<usize>::empty()) by {
        assert forall|i: usize| !leased_to(s.reader_leases, Some(h)).contains(i) by {
            if i < s.reader_leases.len() && s.reader_leases[i as int] == Some(h) {
                assert(s.reader_leases[i as int] is Some);
            }
        }
    }
    assert forall|w: usize| #[trigger] entered.is_live(w) implies entered.holding_ok(w) by {
        if w != h {
            assert(s.is_live(w));
            assert(s.holding_ok(w));
        }
    }
    assert forall|w: usize| #[trigger] entered.is_live(w) implies (
    entered.waiters[w].kind.has_writer() <==> entered.writer_lease == Some(w)) by {
        if w != h {
            assert(s.is_live(w));
        }
    }
    assert forall|i: int|
        0 <= i < entered.readers.len() && #[trigger] entered.reader_leases[i] is Some implies {
        &&& entered.is_live(entered.reader_leases[i].unwrap())
        &&& entered.waiters[entered.reader_leases[i].unwrap()].kind.may_hold(i as usize)
    } by {
        assert(s.reader_leases[i] is Some);
        assert(s.is_live(s.reader_leases[i].unwrap()));
    }
}

/// Registering a fresh request under an unused name keeps the invariant.
pub proof fn lemma_register(s: PoolView, h: usize, message: PendingMessage, kind: Waiter)
    requires
        s.wf(),
        !s.is_live(h),
        kind.is_fresh(),
    ensures
        s.register(h, message, kind).0.wf(),
        s.register(h, message, kind).0.waiters.dom() == s.waiters.dom().insert(h),
        s.register(h, message, kind).0.readers == s.readers,
        s.register(h, message, kind).0.writer == s.writer,
{
    let entered = PoolView {
        waiters: s.waiters.insert(h, Request { message, kind }),
        ..s
    };
    lemma_enter(s, h, message, kind);
    lemma_attempt(entered, h);
    let tried = entered.attempt(h);
    let after = s.register(h, message, kind).0;
    assert(!s.read_queue.contains(h));
    assert(!s.write_queue.contains(h));
    assert forall|w: usize| #[trigger]
        after.read_queue.contains(w) <==> (after.is_live(w) && after.waiters[w].kind.wants_reader()
            && !after.is_completed(w)) by {
        if w != h {
            assert(s.read_queue.contains(w) <==> (s.is_live(w) && s.waiters[w].kind.wants_reader()
                && !s.is_completed(w)));
            if after.read_queue.contains(w) {
                let k = choose|k: int| 0 <= k < after.read_queue.len() && after.read_queue[k] == w;
                assert(s.read_queue[k] == w);
            }
            if s.read_queue.contains(w) {
                let k = choose|k: int| 0 <= k < s.read_queue.len() && s.read_queue[k] == w;
                assert(after.read_queue[k] == w);
            }
        } else {
            if !tried.is_completed(h) && kind.wants_reader() {
                assert(after.read_queue[s.read_queue.len() as int] == h);
            }
            if after.read_queue.contains(h) {
                let k = choose|k: int| 0 <= k < after.read_queue.len() && after.read_queue[k] == h;
                if k < s.read_queue.len() {
                    assert(s.read_queue[k] == h);
                }
            }
        }
    }
    assert forall|w: usize| #[trigger]
        after.write_queue.contains(w) <==> (after.is_live(w)
            && after.waiters[w].kind.wants_writer() && !after.is_completed(w)) by {
        if w != h {
            assert(s.write_queue.contains(w) <==> (s.is_live(w)
                && s.waiters[w].kind.wants_writer() && !s.is_completed(w)));
            if after.write_queue.contains(w) {
                let k = choose|k: int|
                    0 <= k < after.write_queue.len() && after.write_queue[k] == w;
                assert(s.write_queue[k] == w);
            }
            if s.write_queue.contains(w) {
                let k = choose|k: int| 0 <= k < s.write_queue.len() && s.write_queue[k] == w;
                assert(after.write_queue[k] == w);
            }
        } else {
            if !tried.is_completed(h) && kind.wants_writer() {
                assert(after.write_queue[s.write_queue.len() as int] == h);
            }
            if after.write_queue.contains(h) {
                let k = choose|k: int|
                    0 <= k < after.write_queue.len() && after.write_queue[k] == h;
                if k < s.write_queue.len() {
                    assert(s.write_queue[k] == h);
                }
            }
        }
    }
    assert(after.read_queue.no_duplicates());
    assert(after.write_queue.no_duplicates());
    lemma_requeued(tried, after);
}

/// After an attempt the queues are still right about everybody, except
/// that the waiter that tried may have completed while it is still queued.
pub proof fn lemma_attempt_queues(s: PoolView, h: usize)
    requires
        s.inv_resources(),
        s.inv_queues(),
        s.is_live(h),
    ensures
        forall|w: usize|
            w != h ==> (#[trigger] s.attempt(h).read_queue.contains(w) <==> (s.attempt(h).is_live(
                w,
            ) && s.attempt(h).waiters[w].kind.wants_reader() && !s.attempt(h).is_completed(w))),
        forall|w: usize|
            w != h ==> (#[trigger] s.attempt(h).write_queue.contains(w) <==> (s.attempt(
                h,
            ).is_live(w) && s.attempt(h).waiters[w].kind.wants_writer() && !s.attempt(
                h,
            ).is_completed(w))),
        s.attempt(h).waiters[h].kind.wants_reader() == s.waiters[h].kind.wants_reader(),
        s.attempt(h).waiters[h].kind.wants_writer() == s.waiters[h].kind.wants_writer(),
{
    lemma_attempt(s, h);
    let tried = s.attempt(h);
    assert forall|w: usize| w != h implies (#[trigger] tried.read_queue.contains(w) <==> (
    tried.is_live(w) && tried.waiters[w].kind.wants_reader() && !tried.is_completed(w))) by {
        assert(s.read_queue.contains(w) <==> (s.is_live(w) && s.waiters[w].kind.wants_reader()
            && !s.is_completed(w)));
    }
    assert forall|w: usize| w != h implies (#[trigger] tried.write_queue.contains(w) <==> (
    tried.is_live(w) && tried.waiters[w].kind.wants_writer() && !tried.is_completed(w))) by {
        assert(s.write_queue.contains(w) <==> (s.is_live(w) && s.waiters[w].kind.wants_writer()
            && !s.is_completed(w)));
    }
}

/// A pool whose queues are right about everybody but the completed waiter
/// `h` is right about everybody once `h` has left them.
pub proof fn lemma_leave_queues(tried: PoolView, h: usize, left: PoolView)
    requires
        tried.inv_resources(),
        tried.read_queue.no_duplicates(),
        tried.write_queue.no_duplicates(),
        tried.is_live(h),
        tried.is_completed(h),
        forall|w: usize|
            w != h ==> (#[trigger] tried.read_queue.contains(w) <==> (tried.is_live(w)
                && tried.waiters[w].kind.wants_reader() && !tried.is_completed(w))),
        forall|w: usize|
            w != h ==> (#[trigger] tried.write_queue.contains(w) <==> (tried.is_live(w)
                && tried.waiters[w].kind.wants_writer() && !tried.is_completed(w))),
        left == tried.unlink(h),
    ensures
        left.inv_resources(),
        left.inv_queues(),
{
    lemma_requeued(tried, left);
    lemma_without(tried.read_queue, h);
    lemma_without(tried.write_queue, h);
    assert forall|w: usize| #[trigger]
        left.read_queue.contains(w) <==> (left.is_live(w) && left.waiters[w].kind.wants_reader()
            && !left.is_completed(w)) by {
        if w != h {
            assert(tried.read_queue.contains(w) <==> (tried.is_live(w)
                && tried.waiters[w].kind.wants_reader() && !tried.is_completed(w)));
        }
    }
    assert forall|w: usize| #[trigger]
        left.write_queue.contains(w) <==> (left.is_live(w)
            && left.waiters[w].kind.wants_writer() && !left.is_completed(w)) by {
        if w != h {
            assert(tried.write_queue.contains(w) <==> (tried.is_live(w)
                && tried.waiters[w].kind.wants_writer() && !tried.is_completed(w)));
        }
    }
}

/// A pool whose queues are right about everybody but the pending, queued
/// waiter `h` is right about everybody.
pub proof fn lemma_stay_queued(s: PoolView, h: usize)
    requires
        s.inv_resources(),
        s.inv_queues(),
        s.is_live(h),
        !s.attempt(h).is_completed(h),
    ensures
        s.attempt(h).inv_queues(),
{
    lemma_attempt(s, h);
    lemma_attempt_queues(s, h);
    let tried = s.attempt(h);
    assert(s.read_queue.contains(h) <==> (s.is_live(h) && s.waiters[h].kind.wants_reader()
        && !s.is_completed(h)));
    assert(s.write_queue.contains(h) <==> (s.is_live(h) && s.waiters[h].kind.wants_writer()
        && !s.is_completed(h)));
    assert(!s.is_completed(h)) by {
        if s.is_completed(h) {
            assert(s.holding_ok(h));
            lemma_completed_stays(s, h);
        }
    }
    assert forall|w: usize| #[trigger]
        tried.read_queue.contains(w) <==> (tried.is_live(w)
            && tried.waiters[w].kind.wants_reader() && !tried.is_completed(w)) by {}
    assert forall|w: usize| #[trigger]
        tried.write_queue.contains(w) <==> (tried.is_live(w)
            && tried.waiters[w].kind.wants_writer() && !tried.is_completed(w)) by {}
}

/// An attempt on a completed request changes nothing about it.
proof fn lemma_completed_stays(s: PoolView, h: usize)
    requires
        s.inv_resources(),
        s.is_live(h),
        s.is_completed(h),
    ensures
        s.attempt(h).is_completed(h),
{
    assert(s.holding_ok(h));
    if s.waiters[h].kind is Exclusive {
        lemma_idle_counts_free(s.idle_readers, s.reader_leases);
        lemma_holds_all(s.reader_leases, Some(h));
        assert(leased_to(s.reader_leases, None) =~= Set::<usize>::empty()) by {
            assert forall|i: usize| !leased_to(s.reader_leases, None).contains(i) by {
                if i < s.reader_leases.len() {
                    assert(s.reader_leases[i as int] == Some(h));
                }
            }
        }
    }
}

/// Waking the write queue keeps resources and queues in order and leaves
/// nobody waiting for a free writer.
pub proof fn lemma_wake_write(s: PoolView)
    requires
        s.inv_resources(),
        s.inv_queues(),
    ensures
        s.wake_write().0.inv_resources(),
        s.wake_write().0.inv_queues(),
        s.wake_write().0.inv_prompt_write(),
        s.inv_prompt_read() ==> s.wake_write().0.inv_prompt_read(),
        s.wake_write().0.waiters.dom() == s.waiters.dom(),
        s.wake_write().0.readers == s.readers,
        s.wake_write().0.writer == s.writer,
{
    if s.write_queue.len() > 0 {
        let h = s.write_queue[0];
        assert(s.write_queue.contains(h));
        lemma_attempt(s, h);
        lemma_attempt_queues(s, h);
        let tried = s.attempt(h);
        if tried.is_completed(h) {
            lemma_leave_queues(tried, h, tried.unlink(h));
            lemma_without(tried.read_queue, h);
            lemma_without(tried.write_queue, h);
        } else {
            lemma_stay_queued(s, h);
        }
    }
}

/// Waking the read queue keeps resources and queues in order and leaves
/// nobody waiting for an idle reader.
pub proof fn lemma_wake_read(s: PoolView)
    requires
        s.inv_resources(),
        s.inv_queues(),
    ensures
        s.wake_read().0.inv_resources(),
        s.wake_read().0.inv_queues(),
        s.wake_read().0.inv_prompt_read(),
        s.inv_prompt_write() ==> s.wake_read().0.inv_prompt_write(),
        s.wake_read().0.waiters.dom() == s.waiters.dom(),
        s.wake_read().0.readers == s.readers,
        s.wake_read().0.writer == s.writer,
    decreases s.read_queue.len(),
{
    if s.read_queue.len() > 0 {
        let h = s.read_queue[0];
        assert(s.read_queue.contains(h));
        lemma_attempt(s, h);
        lemma_attempt_queues(s, h);
        let tried = s.attempt(h);
        if tried.is_completed(h) {
            let next = PoolView {
                read_queue: s.read_queue.drop_first(),
                write_queue: without(s.write_queue, h),
                ..tried
            };
            lemma_without(tried.read_queue, h);
            lemma_without(tried.write_queue, h);
            assert(next == tried.unlink(h));
            lemma_leave_queues(tried, h, next);
            lemma_wake_read(next);
        } else {
            lemma_stay_queued(s, h);
        }
    }
}

/// The readers that a waiter gives back are exactly the readers leased to
/// it, each once.
pub proof fn lemma_returned_readers(s: PoolView, h: usize)
    requires
        s.inv_resources(),
        s.is_live(h),
    ensures
        s.returned_readers(h).no_duplicates(),
        forall|i: usize| #[trigger]
            s.returned_readers(h).contains(i) <==> (i < s.readers.len()
                && s.reader_leases[i as int] == Some(h)),
{
    let back = s.returned_readers(h);
    assert(s.holding_ok(h));
    match s.waiters[h].kind {
        Waiter::Reader { assigned } => {
            assert forall|i: usize| #[trigger]
                back.contains(i) <==> (i < s.readers.len() && s.reader_leases[i as int] == Some(
                    h,
                )) by {
                if i < s.readers.len() && s.reader_leases[i as int] == Some(h) {
                    assert(s.reader_leases[i as int] is Some);
                    assert(assigned == Some(i));
                    assert(back[0] == i);
                }
            }
        },
        Waiter::Writer { .. } => {
            assert forall|i: usize| #[trigger]
                back.contains(i) <==> (i < s.readers.len() && s.reader_leases[i as int] == Some(
                    h,
                )) by {
                if i < s.readers.len() && s.reader_leases[i as int] == Some(h) {
                    assert(s.reader_leases[i as int] is Some);
                }
            }
        },
        Waiter::Exclusive { .. } => {
            lemma_leases_in_order(s.reader_leases, h, s.reader_leases.len());
        },
    }
}

/// Once a waiter has left and given everything back, resources and queues
/// are in order; only the woken are still to be served.
pub proof fn lemma_give_back(s: PoolView, h: usize)
    requires
        s.wf(),
        s.is_live(h),
    ensures
        s.give_back(h).inv_resources(),
        s.give_back(h).inv_queues(),
        !s.waiters[h].kind.has_writer() ==> s.give_back(h).inv_prompt_write(),
        s.returned_readers(h).len() == 0 ==> s.give_back(h).inv_prompt_read(),
{
    let given = s.give_back(h);
    let back = s.returned_readers(h);
    lemma_returned_readers(s, h);
    lemma_without(s.read_queue, h);
    lemma_without(s.write_queue, h);
    assert forall|i: usize| #[trigger]
        given.idle_readers.contains(i) <==> (i < given.readers.len()
            && given.reader_leases[i as int] is None) by {
        assert(s.idle_readers.contains(i) <==> (i < s.readers.len()
            && s.reader_leases[i as int] is None));
        assert(back.contains(i) <==> (i < s.readers.len() && s.reader_leases[i as int] == Some(
            h,
        )));
        if given.idle_readers.contains(i) {
            let k = choose|k: int| 0 <= k < given.idle_readers.len() && given.idle_readers[k] == i;
            if k < s.idle_readers.len() {
                assert(s.idle_readers[k] == i);
            } else {
                assert(back[k - s.idle_readers.len()] == i);
            }
        }
        if s.idle_readers.contains(i) {
            let k = choose|k: int| 0 <= k < s.idle_readers.len() && s.idle_readers[k] == i;
            assert(given.idle_readers[k] == i);
        }
        if back.contains(i) {
            let k = choose|k: int| 0 <= k < back.len() && back[k] == i;
            assert(given.idle_readers[s.idle_readers.len() + k] == i);
        }
    }
    assert(given.idle_readers.no_duplicates()) by {
        assert forall|a: int, b: int|
            0 <= a < given.idle_readers.len() && 0 <= b < given.idle_readers.len() && a
                != b implies given.idle_readers[a] != given.idle_readers[b] by {
            let n = s.idle_readers.len() as int;
            let x = given.idle_readers[a];
            let y = given.idle_readers[b];
            if a < n {
                assert(s.idle_readers[a] == x);
                assert(s.idle_readers.contains(x));
            } else {
                assert(back[a - n] == x);
                assert(back.contains(x));
            }
            if b < n {
                assert(s.idle_readers[b] == y);
                assert(s.idle_readers.contains(y));
            } else {
                assert(back[b - n] == y);
                assert(back.contains(y));
            }
        }
    }
    assert forall|i: int|
        0 <= i < given.readers.len() && #[trigger] given.reader_leases[i] is Some implies {
        &&& given.is_live(given.reader_leases[i].unwrap())
        &&& given.waiters[given.reader_leases[i].unwrap()].kind.may_hold(i as usize)
    } by {
        assert(s.reader_leases[i] is Some);
    }
    assert forall|w: usize| #[trigger] given.is_live(w) implies given.holding_ok(w) by {
        assert(s.is_live(w));
        assert(s.holding_ok(w));
        assert(leased_to(given.reader_leases, Some(w)) =~= leased_to(s.reader_leases, Some(w)));
    }
    assert(s.waiters[h].kind.has_writer() <==> s.writer_lease == Some(h));
    assert forall|w: usize| #[trigger] given.is_live(w) implies (
    given.waiters[w].kind.has_writer() <==> given.writer_lease == Some(w)) by {
        assert(s.is_live(w));
    }
    assert forall|w: usize| #[trigger]
        given.read_queue.contains(w) <==> (given.is_live(w)
            && given.waiters[w].kind.wants_reader() && !given.is_completed(w)) by {
        assert(s.read_queue.contains(w) <==> (s.is_live(w) && s.waiters[w].kind.wants_reader()
            && !s.is_completed(w)));
    }
    assert forall|w: usize| #[trigger]
        given.write_queue.contains(w) <==> (given.is_live(w)
            && given.waiters[w].kind.wants_writer() && !given.is_completed(w)) by {
        assert(s.write_queue.contains(w) <==> (s.is_live(w) && s.waiters[w].kind.wants_writer()
            && !s.is_completed(w)));
    }
    if s.returned_readers(h).len() == 0 {
        assert(given.idle_readers =~= s.idle_readers);
        if given.read_queue.len() > 0 {
            assert(given.read_queue.contains(given.read_queue[0]));
            assert(s.read_queue.contains(given.read_queue[0]));
        }
    }
    if !s.waiters[h].kind.has_writer() {
        if given.write_queue.len() > 0 {
            assert(given.write_queue.contains(given.write_queue[0]));
            assert(s.write_queue.contains(given.write_queue[0]));
        }
    }
}

/// Releasing a registered request keeps the invariant.
pub proof fn lemma_release(s: PoolView, h: usize)
    requires
        s.wf(),
        s.is_live(h),
    ensures
        s.release(h).0.wf(),
        s.release(h).0.waiters.dom() == s.waiters.dom().remove(h),
        s.release(h).0.readers == s.readers,
        s.release(h).0.writer == s.writer,
{
    let given = s.give_back(h);
    lemma_give_back(s, h);
    match s.waiters[h].kind {
        Waiter::Reader { assigned } => {
            if assigned is Some {
                lemma_wake_read(given);
            }
        },
        Waiter::Writer { holds_writer } => {
            if holds_writer {
                lemma_wake_write(given);
            }
        },
        Waiter::Exclusive { .. } => {
            lemma_wake_write(given);
            lemma_wake_read(given.wake_write().0);
        },
    }
}

/// A pool that has just been opened satisfies the invariant.
pub proof fn lemma_initial(writer: Connection, readers: Seq<Connection>)
    requires
        readers.len() <= usize::MAX,
    ensures
        PoolView::initial(writer, readers).wf(),
{
    let s = PoolView::initial(writer, readers);
    assert forall|i: usize| #[trigger]
        s.idle_readers.contains(i) <==> (i < s.readers.len()
            && s.reader_leases[i as int] is None) by {
        if i < s.readers.len() {
            assert(s.idle_readers[i as int] == i);
        }
    }
}

/// Nothing is leased to a reader without a connection, nor to a writer,
/// so such a waiter gives no reader back.
pub proof fn lemma_nothing_leased(s: PoolView, h: usize)
    requires
        s.inv_resources(),
        s.is_live(h),
        s.waiters[h].kind is Writer || s.waiters[h].kind == (Waiter::Reader { assigned: None }),
    ensures
        s.give_back(h).reader_leases == s.reader_leases,
        s.give_back(h).idle_readers == s.idle_readers,
{
    assert forall|j: int| 0 <= j < s.reader_leases.len() implies #[trigger] s.reader_leases[j]
        != Some(h) by {
        if s.reader_leases[j] == Some(h) {
            assert(s.reader_leases[j] is Some);
        }
    }
    assert(s.give_back(h).reader_leases =~= s.reader_leases);
    assert(s.give_back(h).idle_readers =~= s.idle_readers);
}

} // verus!
