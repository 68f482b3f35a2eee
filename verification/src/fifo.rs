//! First in, first out on the read queue: who asks first for a reader is
//! served first.

use vstd::prelude::*;
use crate::connection::Connection;
use crate::laws::{lemma_no_waiters_quiescent, lemma_readers_accounted};
use crate::message::{Completion, PendingMessage};
use crate::model::{without, PoolView};
use crate::preservation::{
    lemma_attempt,
    lemma_enter,
    lemma_give_back,
    lemma_initial,
    lemma_register,
    lemma_release,
    lemma_wake_read,
    lemma_without,
};
use crate::reports::{lemma_register_reports, lemma_wake_read_order};
use crate::sequences::{lemma_dropped, lemma_push_distinct, lemma_pushed};
use crate::waiter::{Request, Waiter};

verus! {

/// First in, first out on the read queue, on the side of the requests: a
/// read request completes at once only if nobody waits for a reader, and
/// then it gets the reader that has been idle longest; otherwise it joins
/// the read queue behind everybody who waits there.
pub proof fn lemma_read_joins_last(s: PoolView, h: usize, message: PendingMessage)
    requires
        s.wf(),
        !s.is_live(h),
    ensures
        s.idle_readers.len() > 0 ==> {
            &&& s.read_queue.len() == 0
            &&& s.request_read(h, message).0.read_queue.len() == 0
            &&& s.request_read(h, message).1 == seq![
                Completion {
                    node: h,
                    message,
                    connection: Some(s.readers[s.idle_readers[0] as int]),
                },
            ]
        },
        s.idle_readers.len() == 0 ==> {
            &&& s.request_read(h, message).0.read_queue == s.read_queue.push(h)
            &&& s.request_read(h, message).1.len() == 0
        },
{
}

/// First in, first out on the read queue, on the side of the releases:
/// when a reader request is released, the waiters that complete are the
/// first of the read queue, in the order in which they stand there, and
/// those that go on waiting keep their order.
pub proof fn lemma_read_wakes_in_order(s: PoolView, h: usize)
    requires
        s.wf(),
        s.is_live(h),
        s.waiters[h].kind is Reader,
    ensures
        s.release(h).1.len() <= without(s.read_queue, h).len(),
        forall|k: int|
            0 <= k < s.release(h).1.len() ==> (#[trigger] s.release(h).1[k]).node == without(
                s.read_queue,
                h,
            )[k],
        s.release(h).0.read_queue == without(s.read_queue, h).skip(s.release(h).1.len() as int),
{
    let given = s.give_back(h);
    lemma_give_back(s, h);
    lemma_wake_read_order(given);
    assert(given.read_queue =~= given.read_queue.skip(0));
}

impl PoolView {
    /// The pool and the completions after one read request for each of
    /// `requests`, in their order.
    pub open spec fn request_reads(self, requests: Seq<(usize, PendingMessage)>) -> (
        PoolView,
        Seq<Completion>,
    )
        decreases requests.len(),
    {
        if requests.len() == 0 {
            (self, Seq::empty())
        } else {
            let (next, first) = self.request_read(requests[0].0, requests[0].1);
            let (last, rest) = next.request_reads(requests.drop_first());
            (last, first + rest)
        }
    }

    /// A pool that has seen read requests only: `served` are the requests
    /// that hold a reader and `waiting` those that wait for one, both in the
    /// order in which they arrived, and every request that arrived and was
    /// not released is one of them.
    pub open spec fn is_read_stream(self, served: Seq<usize>, waiting: Seq<usize>) -> bool {
        &&& self.wf()
        &&& (served + waiting).no_duplicates()
        &&& forall|h: usize| #[trigger] self.is_live(h) <==> (served + waiting).contains(h)
        &&& forall|h: usize| #[trigger] self.is_live(h) ==> self.waiters[h].kind is Reader
        &&& forall|i: int| 0 <= i < served.len() ==> self.is_completed(#[trigger] served[i])
        &&& self.read_queue == waiting
        &&& self.idle_readers.len() + served.len() == self.readers.len()
    }
}

/// The names under which `requests` register.
pub open spec fn names_of(requests: Seq<(usize, PendingMessage)>) -> Seq<usize> {
    requests.map_values(|request: (usize, PendingMessage)| request.0)
}

/// Whether `reported` are the completions of `requests`, one for each in
/// their order, each with a connection.
pub open spec fn completes_in_order(
    reported: Seq<Completion>,
    requests: Seq<(usize, PendingMessage)>,
) -> bool {
    &&& reported.len() == requests.len()
    &&& forall|i: int|
        0 <= i < reported.len() ==> (#[trigger] reported[i]).node == requests[i].0
            && reported[i].message == requests[i].1 && reported[i].connection is Some
}

/// One more read request in a stream of reads: it is served at once if a
/// reader is idle, and then nobody was waiting; else it waits behind
/// everybody.
proof fn lemma_stream_read(
    s: PoolView,
    served: Seq<usize>,
    waiting: Seq<usize>,
    h: usize,
    message: PendingMessage,
)
    requires
        s.is_read_stream(served, waiting),
        !s.is_live(h),
    ensures
        forall|w: usize|
            s.is_live(w) ==> (#[trigger] s.request_read(h, message).0.waiters[w]).message
                == s.waiters[w].message,
        s.request_read(h, message).0.waiters[h].message == message,
        s.request_read(h, message).0.readers == s.readers,
        s.idle_readers.len() > 0 ==> {
            &&& waiting.len() == 0
            &&& s.request_read(h, message).0.is_read_stream(served.push(h), waiting)
            &&& completes_in_order(s.request_read(h, message).1, seq![(h, message)])
        },
        s.idle_readers.len() == 0 ==> {
            &&& s.request_read(h, message).0.is_read_stream(served, waiting.push(h))
            &&& s.request_read(h, message).1.len() == 0
        },
{
    let (after, reported) = s.request_read(h, message);
    lemma_register(s, h, message, Waiter::new_reader());
    lemma_register_reports(s, h, message, Waiter::new_reader());
    lemma_read_joins_last(s, h, message);
    assert(!(served + waiting).contains(h));
    assert forall|i: int| 0 <= i < served.len() implies after.is_completed(
        #[trigger] served[i],
    ) by {
        assert((served + waiting)[i] == served[i]);
        assert(s.is_live(served[i]));
    }
    if s.idle_readers.len() > 0 {
        let now = served.push(h);
        assert(now + waiting =~= (served + waiting).push(h));
        assert forall|w: usize| #[trigger] after.is_live(w) <==> (now + waiting).contains(w) by {
            assert(s.is_live(w) <==> (served + waiting).contains(w));
            lemma_pushed(served + waiting, h, w);
        }
        lemma_push_distinct(served + waiting, h);
        assert(after.read_queue =~= waiting);
    } else {
        let now = waiting.push(h);
        assert(served + now =~= (served + waiting).push(h));
        assert forall|w: usize| #[trigger] after.is_live(w) <==> (served + now).contains(w) by {
            assert(s.is_live(w) <==> (served + waiting).contains(w));
            lemma_pushed(served + waiting, h, w);
        }
        lemma_push_distinct(served + waiting, h);
    }
    assert forall|w: usize| #[trigger] after.is_live(w) implies after.waiters[w].kind is Reader by {
        if w != h {
            assert(s.is_live(w));
        }
    }
}

/// The release of the oldest served request in a stream of reads: its
/// reader goes to the request that has waited longest, if anybody waits.
proof fn lemma_stream_release(s: PoolView, served: Seq<usize>, waiting: Seq<usize>)
    requires
        s.is_read_stream(served, waiting),
        served.len() > 0,
    ensures
        forall|w: usize|
            s.is_live(w) && w != served[0] ==> (#[trigger] s.release(served[0]).0.waiters[w]).message
                == s.waiters[w].message,
        s.release(served[0]).0.readers == s.readers,
        waiting.len() > 0 ==> {
            &&& s.release(served[0]).0.is_read_stream(
                served.drop_first().push(waiting[0]),
                waiting.drop_first(),
            )
            &&& completes_in_order(
                s.release(served[0]).1,
                seq![(waiting[0], s.waiters[waiting[0]].message)],
            )
        },
        waiting.len() == 0 ==> {
            &&& s.release(served[0]).0.is_read_stream(served.drop_first(), waiting)
            &&& s.release(served[0]).1.len() == 0
        },
{
    let h = served[0];
    let all = served + waiting;
    assert(all[0] == h);
    assert(all.contains(h));
    assert(s.is_live(h));
    assert(s.holding_ok(h));
    let given = s.give_back(h);
    let (after, reported) = s.release(h);
    lemma_give_back(s, h);
    lemma_release(s, h);
    lemma_without(s.read_queue, h);
    lemma_without(s.write_queue, h);
    assert(!s.read_queue.contains(h));
    assert(given.read_queue == waiting);
    lemma_wake_read_order(given);
    lemma_wake_read(given);
    let rest = served.drop_first();
    assert forall|w: usize| #[trigger] given.is_live(w) <==> (rest + waiting).contains(w) by {
        assert(s.is_live(w) <==> all.contains(w));
        lemma_dropped(all, w);
        assert(all.drop_first() =~= rest + waiting);
    }
    assert(all.drop_first() =~= rest + waiting);
    assert((rest + waiting).no_duplicates());
    if waiting.len() > 0 {
        let w = waiting[0];
        assert(s.read_queue.contains(w));
        assert(given.is_live(w));
        assert(s.is_live(w));
        lemma_attempt(given, w);
        let tried = given.attempt(w);
        assert(given.idle_readers =~= seq![s.waiters[h].kind->Reader_assigned.unwrap()]);
        assert(tried.idle_readers =~= Seq::<usize>::empty());
        let next = PoolView {
            read_queue: given.read_queue.drop_first(),
            write_queue: without(given.write_queue, w),
            ..tried
        };
        assert(next.wake_read() == (next, Seq::<Completion>::empty())) by {
            if next.read_queue.len() > 0 {
                let second = next.read_queue[0];
                assert(waiting[1] == second);
                assert(s.read_queue.contains(second));
                assert(s.is_live(second));
                assert(second != w);
            }
        }
        assert(after == next);
        assert(reported =~= seq![tried.completion(w)]);
        let now = rest.push(w);
        let later = waiting.drop_first();
        assert(now + later =~= rest + waiting);
        assert forall|x: usize| #[trigger] after.is_live(x) implies after.waiters[x].kind is Reader by {
            assert(s.is_live(x));
        }
        assert forall|i: int| 0 <= i < now.len() implies after.is_completed(#[trigger] now[i]) by {
            if i < rest.len() {
                assert(now[i] == served[i + 1]);
                assert(all[i + 1] == now[i]);
                assert(s.is_completed(served[i + 1]));
                assert(now[i] != w) by {
                    assert(all[served.len() as int] == w);
                }
                assert(now[i] != h);
            }
        }
        assert forall|x: usize| s.is_live(x) && x != h implies (#[trigger] after.waiters[x]).message
            == s.waiters[x].message by {}
        assert forall|x: usize| #[trigger] after.is_live(x) <==> (now + later).contains(x) by {
            assert(given.is_live(x) <==> (rest + waiting).contains(x));
        }
    } else {
        assert(after == given);
        assert(rest + waiting =~= rest);
        assert forall|x: usize| #[trigger] after.is_live(x) implies after.waiters[x].kind is Reader by {
            assert(s.is_live(x));
        }
        assert forall|i: int| 0 <= i < rest.len() implies after.is_completed(#[trigger] rest[i]) by {
            assert(rest[i] == served[i + 1]);
            assert(s.is_completed(served[i + 1]));
            assert(all[i + 1] == rest[i]);
        }
    }
}

/// The release of the oldest waiting request in a stream of reads in which
/// nobody is served: it leaves, and nothing else happens.
proof fn lemma_stream_cancel(s: PoolView, waiting: Seq<usize>)
    requires
        s.is_read_stream(Seq::empty(), waiting),
        waiting.len() > 0,
    ensures
        s.release(waiting[0]).0.is_read_stream(Seq::empty(), waiting.drop_first()),
        s.release(waiting[0]).1.len() == 0,
        s.release(waiting[0]).0.readers == s.readers,
{
    let h = waiting[0];
    let none = Seq::<usize>::empty();
    assert(none + waiting =~= waiting);
    assert(none + waiting.drop_first() =~= waiting.drop_first());
    assert(s.read_queue.contains(h));
    assert(s.is_live(h));
    let given = s.give_back(h);
    let (after, reported) = s.release(h);
    lemma_give_back(s, h);
    lemma_release(s, h);
    lemma_without(s.read_queue, h);
    assert(after == given);
    assert(given.idle_readers =~= s.idle_readers);
    assert forall|w: usize| #[trigger] after.is_live(w) <==> waiting.drop_first().contains(w) by {
        assert(s.is_live(w) <==> waiting.contains(w));
        lemma_dropped(waiting, w);
    }
    assert forall|x: usize| #[trigger] after.is_live(x) implies after.waiters[x].kind is Reader by {
        assert(s.is_live(x));
    }
}

/// The smaller of two numbers.
pub open spec fn smaller(a: nat, b: nat) -> nat {
    if a <= b {
        a
    } else {
        b
    }
}

/// The waiters `names` with the messages under which `s` knows them.
pub open spec fn requests_of(s: PoolView, names: Seq<usize>) -> Seq<(usize, PendingMessage)> {
    names.map_values(|h: usize| (h, s.waiters[h].message))
}

/// Read requests in a stream of reads are served in their order as far as
/// idle readers reach, and the others wait in their order.
proof fn lemma_stream_reads(
    s: PoolView,
    served: Seq<usize>,
    waiting: Seq<usize>,
    requests: Seq<(usize, PendingMessage)>,
)
    requires
        s.is_read_stream(served, waiting),
        names_of(requests).no_duplicates(),
        forall|i: int| 0 <= i < requests.len() ==> !s.is_live(#[trigger] requests[i].0),
    ensures
        ({
            let n = smaller(requests.len(), s.idle_readers.len()) as int;
            let (after, reported) = s.request_reads(requests);
            &&& after.is_read_stream(
                served + names_of(requests).take(n),
                waiting + names_of(requests).skip(n),
            )
            &&& completes_in_order(reported, requests.take(n))
            &&& after.readers == s.readers
            &&& forall|i: int|
                0 <= i < requests.len() ==> (#[trigger] after.waiters[requests[i].0]).message
                    == requests[i].1
        }),
    decreases requests.len(),
{
    let names = names_of(requests);
    let n = smaller(requests.len(), s.idle_readers.len()) as int;
    let (after, reported) = s.request_reads(requests);
    if requests.len() == 0 {
        assert(served + names.take(n) =~= served);
        assert(waiting + names.skip(n) =~= waiting);
    } else {
        let (h, message) = requests[0];
        let later = requests.drop_first();
        let (next, first) = s.request_read(h, message);
        lemma_stream_read(s, served, waiting, h, message);
        lemma_register(s, h, message, Waiter::new_reader());
        assert(names_of(later) =~= names.drop_first());
        lemma_dropped(names, h);
        assert(names[0] == h);
        assert forall|i: int| 0 <= i < later.len() implies !next.is_live(
            #[trigger] later[i].0,
        ) by {
            assert(later[i] == requests[i + 1]);
            assert(names[i + 1] == later[i].0);
            assert(!s.is_live(requests[i + 1].0));
        }
        let m = smaller(later.len(), next.idle_readers.len()) as int;
        let (last, rest) = next.request_reads(later);
        assert(after == last);
        assert(reported =~= first + rest);
        if s.idle_readers.len() > 0 {
            lemma_readers_accounted(s);
            lemma_readers_accounted(next);
            assert(next.idle_readers.len() == s.idle_readers.len() - 1);
            lemma_stream_reads(next, served.push(h), waiting, later);
            assert(n == m + 1);
            assert(served.push(h) + names_of(later).take(m) =~= served + names.take(n));
            assert(waiting + names_of(later).skip(m) =~= waiting + names.skip(n));
            assert forall|i: int| 0 <= i < reported.len() implies (#[trigger] reported[i]).node
                == requests.take(n)[i].0 && reported[i].message == requests.take(n)[i].1
                && reported[i].connection is Some by {
                if i > 0 {
                    assert(reported[i] == rest[i - 1]);
                    assert(later.take(m)[i - 1] == requests.take(n)[i]);
                }
            }
        } else {
            lemma_stream_reads(next, served, waiting.push(h), later);
            assert(m == 0);
            assert(served + names_of(later).take(m) =~= served + names.take(n));
            assert(waiting.push(h) + names_of(later).skip(m) =~= waiting + names.skip(n));
        }
        assert forall|i: int| 0 <= i < requests.len() implies (
        #[trigger] after.waiters[requests[i].0]).message == requests[i].1 by {
            if i > 0 {
                assert(later[i - 1] == requests[i]);
                assert(last.waiters[later[i - 1].0].message == later[i - 1].1);
            } else {
                assert(next.is_live(h));
                lemma_stream_keeps_messages(next, later, h);
            }
        }
    }
}

/// Read requests leave the messages of those already registered alone.
proof fn lemma_stream_keeps_messages(
    s: PoolView,
    requests: Seq<(usize, PendingMessage)>,
    w: usize,
)
    requires
        s.wf(),
        s.is_live(w),
        names_of(requests).no_duplicates(),
        forall|i: int| 0 <= i < requests.len() ==> !s.is_live(#[trigger] requests[i].0),
    ensures
        s.request_reads(requests).0.waiters[w].message == s.waiters[w].message,
        s.request_reads(requests).0.is_live(w),
    decreases requests.len(),
{
    if requests.len() > 0 {
        let (h, message) = requests[0];
        let later = requests.drop_first();
        let names = names_of(requests);
        lemma_register(s, h, message, Waiter::new_reader());
        let entered = PoolView {
            waiters: s.waiters.insert(h, Request { message, kind: Waiter::new_reader() }),
            ..s
        };
        lemma_enter(s, h, message, Waiter::new_reader());
        lemma_attempt(entered, h);
        let next = s.request_read(h, message).0;
        assert(names_of(later) =~= names.drop_first());
        lemma_dropped(names, h);
        assert(names[0] == h);
        assert forall|i: int| 0 <= i < later.len() implies !next.is_live(
            #[trigger] later[i].0,
        ) by {
            assert(later[i] == requests[i + 1]);
            assert(names[i + 1] == later[i].0);
            assert(!s.is_live(requests[i + 1].0));
        }
        assert(next.is_live(w));
        assert(next.waiters[w].message == s.waiters[w].message);
        lemma_stream_keeps_messages(next, later, w);
    }
}

/// When everybody in a stream of reads is released in the order of
/// arrival, those who waited are served in the order in which they waited,
/// provided that the pool has a reader at all; and in the end nobody is
/// registered.
proof fn lemma_stream_releases(s: PoolView, served: Seq<usize>, waiting: Seq<usize>)
    requires
        s.is_read_stream(served, waiting),
    ensures
        ({
            let (after, reported) = s.release_all(served + waiting);
            &&& after.wf()
            &&& after.waiters.dom() =~= Set::<usize>::empty()
            &&& after.readers == s.readers
            &&& s.readers.len() > 0 ==> completes_in_order(reported, requests_of(s, waiting))
            &&& s.readers.len() == 0 ==> reported.len() == 0
        }),
    decreases served.len() + waiting.len(),
{
    let all = served + waiting;
    let (after, reported) = s.release_all(all);
    if all.len() == 0 {
        assert forall|h: usize| !s.waiters.dom().contains(h) by {
            assert(s.is_live(h) <==> all.contains(h));
        }
    } else if served.len() > 0 {
        let h = served[0];
        assert(all[0] == h);
        assert(all.contains(h));
        assert(s.is_live(h));
        assert(s.is_completed(h));
        assert(s.holding_ok(h));
        let rest = served.drop_first();
        let (next, first) = s.release(h);
        lemma_stream_release(s, served, waiting);
        let (last, more) = next.release_all(all.drop_first());
        assert(after == last);
        assert(reported =~= first + more);
        if waiting.len() > 0 {
            let w = waiting[0];
            let later = waiting.drop_first();
            assert(rest.push(w) + later =~= all.drop_first());
            lemma_stream_releases(next, rest.push(w), later);
            assert forall|i: int| 0 <= i < reported.len() implies (#[trigger] reported[i]).node
                == requests_of(s, waiting)[i].0 && reported[i].message == requests_of(
                s,
                waiting,
            )[i].1 && reported[i].connection is Some by {
                if i > 0 {
                    assert(reported[i] == more[i - 1]);
                    assert(requests_of(next, later)[i - 1].0 == later[i - 1]);
                    assert(later[i - 1] == waiting[i]);
                    assert(all[served.len() + i] == waiting[i]);
                    assert(all.contains(waiting[i]));
                    assert(s.is_live(waiting[i]));
                    assert(waiting[i] != h);
                }
            }
        } else {
            assert(rest + waiting =~= all.drop_first());
            lemma_stream_releases(next, rest, waiting);
        }
    } else {
        assert(all =~= waiting);
        let h = waiting[0];
        lemma_stream_cancel(s, waiting);
        let next = s.release(h).0;
        let none = Seq::<usize>::empty();
        assert(none + waiting.drop_first() =~= all.drop_first());
        lemma_stream_releases(next, none, waiting.drop_first());
        assert(s.readers.len() == 0);
    }
}

/// First in, first out on reads: when nothing but read requests is issued
/// on a pool that has just been opened, and then every request is released
/// in the order in which it was issued, the completions are reported in
/// that same order, one for each request, provided that the pool has a
/// reader at all. In the end the pool is as it was opened, but for the
/// order of the idle readers.
pub proof fn lemma_reads_complete_in_arrival_order(
    writer: Connection,
    readers: Seq<Connection>,
    requests: Seq<(usize, PendingMessage)>,
)
    requires
        readers.len() <= usize::MAX,
        names_of(requests).no_duplicates(),
    ensures
        ({
            let (requested, at_once) = PoolView::initial(writer, readers).request_reads(
                requests,
            );
            let (released, later) = requested.release_all(names_of(requests));
            &&& readers.len() > 0 ==> completes_in_order(at_once + later, requests)
            &&& readers.len() == 0 ==> (at_once + later).len() == 0
            &&& released.is_quiescent()
        }),
{
    let s = PoolView::initial(writer, readers);
    let none = Seq::<usize>::empty();
    let names = names_of(requests);
    lemma_initial(writer, readers);
    assert(none + none =~= none);
    assert(s.is_read_stream(none, none));
    let n = smaller(requests.len(), s.idle_readers.len()) as int;
    lemma_stream_reads(s, none, none, requests);
    let (requested, at_once) = s.request_reads(requests);
    let served = none + names.take(n);
    let waiting = none + names.skip(n);
    assert(served + waiting =~= names);
    lemma_stream_releases(requested, served, waiting);
    let (released, later) = requested.release_all(names);
    lemma_no_waiters_quiescent(released);
    if readers.len() > 0 {
        let all = at_once + later;
        assert forall|i: int| 0 <= i < all.len() implies (#[trigger] all[i]).node == requests[i].0
            && all[i].message == requests[i].1 && all[i].connection is Some by {
            if i < n {
                assert(all[i] == at_once[i]);
                assert(requests.take(n)[i] == requests[i]);
            } else {
                assert(all[i] == later[i - n]);
                assert(requests_of(requested, waiting)[i - n].0 == waiting[i - n]);
                assert(waiting[i - n] == names[i]);
                assert(requested.waiters[requests[i].0].message == requests[i].1);
            }
        }
    }
}

} // verus!
