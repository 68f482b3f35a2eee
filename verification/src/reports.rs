//! Completions are reported exactly once: what every step of the
//! scheduler hands back names each request that the step completed, and
//! nothing else.

use vstd::prelude::*;
use crate::message::{Completion, PendingMessage};
use crate::model::{without, PoolView};
use crate::preservation::{
    lemma_attempt,
    lemma_attempt_queues,
    lemma_enter,
    lemma_give_back,
    lemma_leave_queues,
    lemma_release,
    lemma_wake_read,
    lemma_wake_write,
    lemma_without,
};
use crate::waiter::{Request, Waiter};

verus! {

/// Whether `w` is completed after a step and was not completed before it.
pub open spec fn newly_completed(before: PoolView, after: PoolView, w: usize) -> bool {
    &&& after.is_live(w)
    &&& after.is_completed(w)
    &&& !(before.is_live(w) && before.is_completed(w))
}

/// Whether `reported` holds one completion for every request that a step
/// completed, and nothing else: no request is named twice, every request
/// named has just completed and is reported as it stands, and every request
/// that has just completed is named.
pub open spec fn reports_exactly(before: PoolView, after: PoolView, reported: Seq<Completion>) -> bool {
    &&& forall|a: int, b: int|
        0 <= a < b < reported.len() ==> reported[a].node != reported[b].node
    &&& forall|k: int|
        0 <= k < reported.len() ==> newly_completed(before, after, (#[trigger] reported[k]).node)
            && reported[k] == after.completion(reported[k].node)
    &&& forall|w: usize| #[trigger]
        newly_completed(before, after, w) ==> exists|k: int|
            0 <= k < reported.len() && #[trigger] reported[k].node == w
}

/// What a wake of the read queue reports: the woken are the first waiters
/// of the queue, in their order; the others keep their places; a waiter
/// that did not stand in the queue is left as it was.
pub proof fn lemma_wake_read_order(s: PoolView)
    requires
        s.inv_resources(),
        s.inv_queues(),
    ensures
        s.wake_read().1.len() <= s.read_queue.len(),
        forall|k: int|
            0 <= k < s.wake_read().1.len() ==> (#[trigger] s.wake_read().1[k]).node
                == s.read_queue[k],
        s.wake_read().0.read_queue == s.read_queue.skip(s.wake_read().1.len() as int),
        forall|w: usize|
            !s.read_queue.contains(w) ==> #[trigger] s.wake_read().0.waiters[w] == s.waiters[w],
        reports_exactly(s, s.wake_read().0, s.wake_read().1),
    decreases s.read_queue.len(),
{
    let (after, reported) = s.wake_read();
    if s.read_queue.len() == 0 {
        assert(after.read_queue =~= s.read_queue.skip(0));
    } else {
        let h = s.read_queue[0];
        assert(s.read_queue.contains(h));
        lemma_attempt(s, h);
        lemma_attempt_queues(s, h);
        let tried = s.attempt(h);
        if tried.is_completed(h) {
            let next = PoolView {
                read_queue: s.read_queue.drop_first(),
                write_queue: without(s.write_queue, h),
                ..tried
            };
            lemma_without(tried.read_queue, h);
            lemma_without(tried.write_queue, h);
            assert(next == tried.unlink(h));
            lemma_leave_queues(tried, h, next);
            lemma_wake_read_order(next);
            lemma_wake_read(next);
            let (last, more) = next.wake_read();
            assert(after == last);
            assert(reported =~= seq![tried.completion(h)] + more);
            assert(after.read_queue =~= s.read_queue.skip(reported.len() as int));
            assert forall|k: int| 0 <= k < reported.len() implies (#[trigger] reported[k]).node
                == s.read_queue[k] by {
                if k > 0 {
                    assert(reported[k] == more[k - 1]);
                    assert(more[k - 1].node == next.read_queue[k - 1]);
                }
            }
            assert forall|w: usize| !s.read_queue.contains(w) implies #[trigger] after.waiters[w]
                == s.waiters[w] by {
                assert(!next.read_queue.contains(w));
                assert(last.waiters[w] == next.waiters[w]);
            }
            assert(!next.read_queue.contains(h));
            assert(after.waiters[h] == tried.waiters[h]);
            assert forall|a: int, b: int| 0 <= a < b < reported.len() implies reported[a].node
                != reported[b].node by {
                assert(reported[b] == more[b - 1]);
                assert(more[b - 1].node == next.read_queue[b - 1]);
                assert(next.read_queue.contains(more[b - 1].node));
                if a > 0 {
                    assert(reported[a] == more[a - 1]);
                }
            }
            assert forall|k: int| 0 <= k < reported.len() implies newly_completed(
                s,
                after,
                (#[trigger] reported[k]).node,
            ) && reported[k] == after.completion(reported[k].node) by {
                if k > 0 {
                    assert(reported[k] == more[k - 1]);
                    let w = more[k - 1].node;
                    assert(newly_completed(next, last, w));
                    assert(w == next.read_queue[k - 1]);
                    assert(next.read_queue.contains(w));
                    assert(w != h);
                    assert(s.read_queue.contains(w));
                } else {
                    assert(after.is_live(h));
                }
            }
            assert forall|w: usize| #[trigger] newly_completed(s, after, w) implies exists|k: int|
                0 <= k < reported.len() && #[trigger] reported[k].node == w by {
                if w == h {
                    assert(reported[0].node == h);
                } else {
                    assert(s.is_live(w));
                    assert(newly_completed(next, last, w));
                    let k = choose|k: int| 0 <= k < more.len() && #[trigger] more[k].node == w;
                    assert(reported[k + 1].node == w);
                }
            }
        } else {
            assert(after.read_queue =~= s.read_queue.skip(0));
            assert forall|w: usize| #[trigger] newly_completed(s, after, w) implies exists|k: int|
                0 <= k < reported.len() && #[trigger] reported[k].node == w by {
                assert(s.is_live(w));
            }
        }
    }
}

/// What a wake of the write queue reports: at most the head of the queue;
/// every other waiter is left as it was.
pub proof fn lemma_wake_write_order(s: PoolView)
    requires
        s.inv_resources(),
        s.inv_queues(),
    ensures
        s.wake_write().1.len() <= 1,
        s.wake_write().1.len() == 1 ==> s.write_queue.len() > 0 && s.wake_write().1[0].node
            == s.write_queue[0],
        s.wake_write().0.write_queue == s.write_queue.skip(s.wake_write().1.len() as int),
        s.wake_write().0.read_queue == if s.wake_write().1.len() == 1 {
            without(s.read_queue, s.write_queue[0])
        } else {
            s.read_queue
        },
        forall|w: usize|
            !s.write_queue.contains(w) ==> #[trigger] s.wake_write().0.waiters[w] == s.waiters[w],
        reports_exactly(s, s.wake_write().0, s.wake_write().1),
{
    let (after, reported) = s.wake_write();
    if s.write_queue.len() == 0 {
        assert(after.write_queue =~= s.write_queue.skip(0));
    } else {
        let h = s.write_queue[0];
        assert(s.write_queue.contains(h));
        lemma_attempt(s, h);
        lemma_attempt_queues(s, h);
        lemma_without(s.write_queue, h);
        let tried = s.attempt(h);
        if tried.is_completed(h) {
            assert(after.write_queue =~= s.write_queue.skip(1));
            assert(after.is_live(h));
            assert forall|w: usize| #[trigger] newly_completed(s, after, w) implies exists|k: int|
                0 <= k < reported.len() && #[trigger] reported[k].node == w by {
                assert(s.is_live(w));
                assert(reported[0].node == h);
            }
        } else {
            assert(after.write_queue =~= s.write_queue.skip(0));
            assert forall|w: usize| #[trigger] newly_completed(s, after, w) implies exists|k: int|
                0 <= k < reported.len() && #[trigger] reported[k].node == w by {
                assert(s.is_live(w));
            }
        }
    }
}

/// A request is reported at once exactly if it completes at once, and no
/// other request is touched.
pub proof fn lemma_register_reports(s: PoolView, h: usize, message: PendingMessage, kind: Waiter)
    requires
        s.wf(),
        !s.is_live(h),
        kind.is_fresh(),
    ensures
        reports_exactly(s, s.register(h, message, kind).0, s.register(h, message, kind).1),
        forall|w: usize|
            w != h ==> #[trigger] s.register(h, message, kind).0.waiters[w] == s.waiters[w],
{
    let entered = PoolView {
        waiters: s.waiters.insert(h, Request { message, kind }),
        ..s
    };
    lemma_enter(s, h, message, kind);
    lemma_attempt(entered, h);
    let (after, reported) = s.register(h, message, kind);
    assert(after.is_live(h));
    assert forall|w: usize| #[trigger] newly_completed(s, after, w) implies exists|k: int|
        0 <= k < reported.len() && #[trigger] reported[k].node == w by {
        if w == h {
            assert(reported[0].node == h);
        } else {
            assert(s.is_live(w));
        }
    }
}

/// Completions are posted exactly once: a release reports one completion
/// for every request that it lets complete, and nothing else.
pub proof fn lemma_release_reports(s: PoolView, h: usize)
    requires
        s.wf(),
        s.is_live(h),
    ensures
        reports_exactly(s, s.release(h).0, s.release(h).1),
{
    let given = s.give_back(h);
    lemma_give_back(s, h);
    lemma_release(s, h);
    let (after, reported) = s.release(h);
    assert(!after.is_live(h));
    assert forall|w: usize| w != h implies (#[trigger] given.is_live(w) == s.is_live(w)) && (
    s.is_live(w) ==> given.is_completed(w) == s.is_completed(w)) by {}
    match s.waiters[h].kind {
        Waiter::Reader { assigned } => {
            if assigned is Some {
                lemma_wake_read_order(given);
                lemma_wake_read(given);
                lemma_carry_over(s, h, after, reported);
            } else {
                lemma_carry_over(s, h, after, reported);
            }
        },
        Waiter::Writer { holds_writer } => {
            if holds_writer {
                lemma_wake_write_order(given);
                lemma_wake_write(given);
            }
            lemma_carry_over(s, h, after, reported);
        },
        Waiter::Exclusive { .. } => {
            lemma_wake_write_order(given);
            lemma_wake_write(given);
            let (written, first) = given.wake_write();
            lemma_wake_read_order(written);
            lemma_wake_read(written);
            let (read, second) = written.wake_read();
            assert(after == read);
            assert(reported =~= first + second);
            assert forall|k: int| 0 <= k < second.len() implies second[k].node
                == written.read_queue[k] && written.read_queue.contains(second[k].node) by {}
            if first.len() == 1 {
                let w = first[0].node;
                assert(newly_completed(given, written, w));
                assert(!written.read_queue.contains(w));
                assert(read.waiters[w] == written.waiters[w]);
                assert(read.is_live(w));
            }
            assert forall|a: int, b: int| 0 <= a < b < reported.len() implies reported[a].node
                != reported[b].node by {
                if a >= first.len() {
                    assert(reported[a] == second[a - first.len()]);
                    assert(reported[b] == second[b - first.len()]);
                } else {
                    assert(reported[b] == second[b - first.len()]);
                    assert(written.read_queue.contains(second[b - first.len()].node));
                }
            }
            assert forall|k: int| 0 <= k < reported.len() implies newly_completed(
                given,
                after,
                (#[trigger] reported[k]).node,
            ) && reported[k] == after.completion(reported[k].node) by {
                if k >= first.len() {
                    let j = k - first.len();
                    assert(reported[k] == second[j]);
                    let w = second[j].node;
                    assert(newly_completed(written, read, w));
                    assert(written.read_queue.contains(w));
                    if given.is_live(w) && given.is_completed(w) {
                        if given.write_queue.contains(w) {
                        }
                        assert(written.waiters[w] == given.waiters[w]);
                    }
                }
            }
            assert forall|w: usize| #[trigger] newly_completed(given, after, w) implies exists|
                k: int,
            | 0 <= k < reported.len() && #[trigger] reported[k].node == w by {
                assert(given.is_live(w));
                assert(written.is_live(w));
                if written.is_completed(w) {
                    assert(newly_completed(given, written, w));
                    let k = choose|k: int| 0 <= k < first.len() && #[trigger] first[k].node == w;
                    assert(reported[k].node == w);
                } else {
                    assert(newly_completed(written, read, w));
                    let k = choose|k: int| 0 <= k < second.len() && #[trigger] second[k].node == w;
                    assert(reported[first.len() + k].node == w);
                }
            }
            assert(reports_exactly(given, after, reported));
            lemma_carry_over(s, h, after, reported);
        },
    }
}

/// What is reported exactly of the steps after `h` has given back what it
/// held is reported exactly of the whole release of `h`.
proof fn lemma_carry_over(s: PoolView, h: usize, after: PoolView, reported: Seq<Completion>)
    requires
        s.is_live(h),
        !after.is_live(h),
        reports_exactly(s.give_back(h), after, reported),
    ensures
        reports_exactly(s, after, reported),
{
    let given = s.give_back(h);
    assert forall|k: int| 0 <= k < reported.len() implies newly_completed(
        s,
        after,
        (#[trigger] reported[k]).node,
    ) && reported[k] == after.completion(reported[k].node) by {
        assert(newly_completed(given, after, reported[k].node));
    }
    assert forall|w: usize| #[trigger] newly_completed(s, after, w) implies exists|k: int|
        0 <= k < reported.len() && #[trigger] reported[k].node == w by {
        assert(w != h);
        assert(given.is_live(w) == s.is_live(w));
        assert(newly_completed(given, after, w));
    }
}

} // verus!
