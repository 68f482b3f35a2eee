use sqlite3_connection_pool::arena::Slot;
use sqlite3_connection_pool::connection::Connection;
use sqlite3_connection_pool::dart::{DartPort, RawDartCObject};
use sqlite3_connection_pool::message::{Completion, PendingMessage};
use sqlite3_connection_pool::pool::PoolState;
use sqlite3_connection_pool::waiter::Waiter;

fn writer() -> Connection {
    Connection(0x1000)
}

fn reader(index: usize) -> Connection {
    Connection(0x2000 + 0x100 * index)
}

fn pool_with(readers: usize) -> PoolState {
    let connections: Vec<Connection> = (0..readers).map(reader).collect();
    PoolState::new(writer(), &connections)
}

fn msg(tag: i64) -> PendingMessage {
    PendingMessage { tag, port: DartPort(7) }
}

fn tags(completions: &[Completion]) -> Vec<i64> {
    completions.iter().map(|c| c.message.tag).collect()
}

#[test]
fn simple_read_acquisition() {
    let mut pool = pool_with(2);
    let (handle, completed) = pool.request_read(msg(1));
    let completed = completed.expect("a reader is idle");
    assert_eq!(completed.node, handle.node());
    assert_eq!(completed.message, msg(1));
    assert_eq!(completed.connection, Some(reader(0)));
    assert_eq!(
        completed.encode(),
        vec![
            RawDartCObject::Int64(1),
            RawDartCObject::Bool(false),
            RawDartCObject::Int64(0x2000),
        ]
    );
    assert_eq!(pool.idle_readers(), vec![1]);
    let woken = pool.drop_waiter(handle);
    assert!(woken.is_empty());
    assert_eq!(pool.idle_readers(), vec![1, 0]);
}

#[test]
fn read_queueing() {
    let mut pool = pool_with(2);
    let (h1, c1) = pool.request_read(msg(1));
    let (h2, c2) = pool.request_read(msg(2));
    let (h3, c3) = pool.request_read(msg(3));
    assert_eq!(c1.unwrap().connection, Some(reader(0)));
    assert_eq!(c2.unwrap().connection, Some(reader(1)));
    assert!(c3.is_none());
    assert!(pool.is_queued(&h3, Slot::Read));
    assert!(!pool.is_queued(&h3, Slot::Write));
    assert!(!pool.is_queued(&h1, Slot::Read));

    let woken = pool.drop_waiter(h1);
    assert_eq!(woken.len(), 1);
    assert_eq!(woken[0].node, h3.node());
    assert_eq!(
        woken[0].encode(),
        vec![
            RawDartCObject::Int64(3),
            RawDartCObject::Bool(false),
            RawDartCObject::Int64(0x2000),
        ]
    );
    assert!(!pool.is_queued(&h3, Slot::Read));

    assert!(pool.drop_waiter(h2).is_empty());
    assert!(pool.drop_waiter(h3).is_empty());
    assert!(pool.is_idle());
    let mut idle = pool.idle_readers();
    idle.sort();
    assert_eq!(idle, vec![0, 1]);
}

#[test]
fn writer_serialization() {
    let mut pool = pool_with(2);
    let (h10, c10) = pool.request_write(msg(10));
    let (h11, c11) = pool.request_write(msg(11));
    let c10 = c10.expect("the writer is free");
    assert_eq!(c10.connection, Some(writer()));
    assert_eq!(
        c10.encode(),
        vec![
            RawDartCObject::Int64(10),
            RawDartCObject::Bool(false),
            RawDartCObject::Int64(0x1000),
        ]
    );
    assert!(c11.is_none());
    assert!(pool.writer_acquired());
    assert!(pool.is_queued(&h11, Slot::Write));
    assert_eq!(pool.waiter(&h11), Waiter::Writer { holds_writer: false });

    let woken = pool.drop_waiter(h10);
    assert_eq!(tags(&woken), vec![11]);
    assert_eq!(woken[0].connection, Some(writer()));
    assert!(pool.writer_acquired());
    assert_eq!(pool.waiter(&h11), Waiter::Writer { holds_writer: true });

    assert!(pool.drop_waiter(h11).is_empty());
    assert!(!pool.writer_acquired());
}

#[test]
fn exclusive_drains() {
    let mut pool = pool_with(2);
    let (h1, c1) = pool.request_read(msg(1));
    assert_eq!(c1.unwrap().connection, Some(reader(0)));

    let (h99, c99) = pool.request_exclusive(msg(99));
    assert!(c99.is_none());
    assert_eq!(
        pool.waiter(&h99),
        Waiter::Exclusive { holds_writer: true, acquired_readers: 1 }
    );
    assert!(pool.writer_acquired());
    assert!(pool.idle_readers().is_empty());
    assert!(pool.is_queued(&h99, Slot::Read));
    assert!(pool.is_queued(&h99, Slot::Write));

    let (h2, c2) = pool.request_read(msg(2));
    assert!(c2.is_none());
    assert_eq!(pool.waiter(&h2), Waiter::Reader { assigned: None });

    let woken = pool.drop_waiter(h1);
    assert_eq!(woken.len(), 1);
    assert_eq!(woken[0].node, h99.node());
    assert_eq!(woken[0].connection, None);
    assert_eq!(
        woken[0].encode(),
        vec![RawDartCObject::Int64(99), RawDartCObject::Bool(true)]
    );
    assert_eq!(
        pool.waiter(&h99),
        Waiter::Exclusive { holds_writer: true, acquired_readers: 2 }
    );
    assert!(pool.writer_acquired());
    assert!(pool.idle_readers().is_empty());
    assert!(!pool.is_queued(&h99, Slot::Read));
    assert!(!pool.is_queued(&h99, Slot::Write));
    assert!(pool.is_queued(&h2, Slot::Read));

    let woken = pool.drop_waiter(h99);
    assert_eq!(tags(&woken), vec![2]);
    assert_eq!(woken[0].connection, Some(reader(0)));
    assert!(!pool.writer_acquired());
    assert!(pool.drop_waiter(h2).is_empty());
    assert!(pool.is_idle());
}

#[test]
fn exclusive_cancellation_releases_partial() {
    let mut pool = pool_with(2);
    let (h10, c10) = pool.request_write(msg(10));
    assert!(c10.is_some());

    let (h99, c99) = pool.request_exclusive(msg(99));
    assert!(c99.is_none());
    assert_eq!(
        pool.waiter(&h99),
        Waiter::Exclusive { holds_writer: false, acquired_readers: 2 }
    );

    let (h1, c1) = pool.request_read(msg(1));
    assert!(c1.is_none());
    assert!(pool.is_queued(&h1, Slot::Read));

    let mut posted = pool.drop_waiter(h99);
    posted.extend(pool.drop_waiter(h10));
    assert_eq!(posted.len(), 1);
    assert_eq!(posted[0].node, h1.node());
    assert_eq!(
        posted[0].encode(),
        vec![
            RawDartCObject::Int64(1),
            RawDartCObject::Bool(false),
            RawDartCObject::Int64(0x2000),
        ]
    );
    assert!(!pool.writer_acquired());
    assert_eq!(pool.idle_readers(), vec![1]);
    assert!(pool.drop_waiter(h1).is_empty());
    assert!(pool.is_idle());
}

#[test]
fn cancellation_of_completed() {
    let mut pool = pool_with(2);
    let (h1, c1) = pool.request_read(msg(1));
    assert_eq!(c1.unwrap().connection, Some(reader(0)));
    assert!(pool.drop_waiter(h1).is_empty());
    assert!(pool.is_idle());
    assert_eq!(pool.idle_readers().len(), 2);

    let (h2, c2) = pool.request_read(msg(2));
    let connection = c2.expect("both readers are idle").connection.unwrap();
    assert!(connection == reader(0) || connection == reader(1));
    assert!(pool.drop_waiter(h2).is_empty());
}

#[test]
fn reads_complete_in_arrival_order() {
    let mut pool = pool_with(2);
    let mut handles = Vec::new();
    let mut order = Vec::new();
    for tag in 1..=5 {
        let (handle, completed) = pool.request_read(msg(tag));
        if let Some(completion) = completed {
            order.push(completion.message.tag);
        }
        handles.push(handle);
    }
    assert_eq!(order, vec![1, 2]);
    for handle in handles {
        order.extend(tags(&pool.drop_waiter(handle)));
    }
    assert_eq!(order, vec![1, 2, 3, 4, 5]);
    assert!(pool.is_idle());
}

#[test]
fn every_completion_is_reported_once() {
    let mut pool = pool_with(1);
    let (h1, c1) = pool.request_read(msg(1));
    let (h2, c2) = pool.request_read(msg(2));
    let (h3, c3) = pool.request_write(msg(3));
    let (h4, c4) = pool.request_exclusive(msg(4));
    let mut reported: Vec<i64> = Vec::new();
    reported.extend(c1.iter().map(|c| c.message.tag));
    reported.extend(c2.iter().map(|c| c.message.tag));
    reported.extend(c3.iter().map(|c| c.message.tag));
    reported.extend(c4.iter().map(|c| c.message.tag));
    assert_eq!(reported, vec![1, 3]);
    reported.extend(tags(&pool.drop_waiter(h1)));
    assert_eq!(reported, vec![1, 3, 2]);
    reported.extend(tags(&pool.drop_waiter(h2)));
    assert_eq!(reported, vec![1, 3, 2]);
    assert_eq!(
        pool.waiter(&h4),
        Waiter::Exclusive { holds_writer: false, acquired_readers: 1 }
    );
    reported.extend(tags(&pool.drop_waiter(h3)));
    assert_eq!(reported, vec![1, 3, 2, 4]);
    reported.extend(tags(&pool.drop_waiter(h4)));
    assert_eq!(reported, vec![1, 3, 2, 4]);
    assert!(pool.is_idle());
}

#[test]
fn exclusive_release_wakes_every_reader_that_fits() {
    let mut pool = pool_with(2);
    let (hx, cx) = pool.request_exclusive(msg(50));
    assert_eq!(cx.unwrap().connection, None);
    let (h1, c1) = pool.request_read(msg(1));
    let (h2, c2) = pool.request_read(msg(2));
    let (h3, c3) = pool.request_read(msg(3));
    let (hw, cw) = pool.request_write(msg(9));
    assert!(c1.is_none() && c2.is_none() && c3.is_none() && cw.is_none());

    let woken = pool.drop_waiter(hx);
    assert_eq!(tags(&woken), vec![9, 1, 2]);
    assert_eq!(woken[0].connection, Some(writer()));
    assert_eq!(woken[1].connection, Some(reader(0)));
    assert_eq!(woken[2].connection, Some(reader(1)));
    assert!(pool.is_queued(&h3, Slot::Read));

    assert_eq!(tags(&pool.drop_waiter(h2)), vec![3]);
    assert!(pool.drop_waiter(h1).is_empty());
    assert!(pool.drop_waiter(h3).is_empty());
    assert!(pool.drop_waiter(hw).is_empty());
    assert!(pool.is_idle());
}

#[test]
fn cancelling_everything_restores_the_pool() {
    let mut pool = pool_with(3);
    let (a, _) = pool.request_read(msg(1));
    let (b, _) = pool.request_exclusive(msg(2));
    let (c, _) = pool.request_write(msg(3));
    let (d, _) = pool.request_read(msg(4));
    let (e, _) = pool.request_exclusive(msg(5));
    pool.drop_waiter(c);
    pool.drop_waiter(e);
    pool.drop_waiter(a);
    pool.drop_waiter(d);
    pool.drop_waiter(b);
    assert!(pool.is_idle());
    assert!(!pool.writer_acquired());
    let mut idle = pool.idle_readers();
    idle.sort();
    assert_eq!(idle, vec![0, 1, 2]);
    let (again, completed) = pool.request_exclusive(msg(6));
    assert!(completed.is_some());
    pool.drop_waiter(again);
}

#[test]
fn pool_without_readers() {
    let mut pool = pool_with(0);
    assert_eq!(pool.read_connection_count(), 0);
    let (r, cr) = pool.request_read(msg(1));
    assert!(cr.is_none());
    let (x, cx) = pool.request_exclusive(msg(2));
    let cx = cx.expect("the writer is all there is");
    assert_eq!(cx.connection, None);
    assert_eq!(
        pool.waiter(&x),
        Waiter::Exclusive { holds_writer: true, acquired_readers: 0 }
    );
    assert!(pool.drop_waiter(x).is_empty());
    assert!(pool.drop_waiter(r).is_empty());
    assert!(pool.is_idle());
}

#[test]
fn handles_are_known_until_released() {
    let mut pool = pool_with(1);
    let (h1, _) = pool.request_read(msg(1));
    let (h2, _) = pool.request_read(msg(2));
    assert!(pool.contains(&h1));
    assert!(pool.contains(&h2));
    assert!(h1.node() != h2.node());
    let freed = h1.node();
    pool.drop_waiter(h1);
    let (h3, _) = pool.request_write(msg(3));
    assert_eq!(h3.node(), freed);
    assert!(pool.contains(&h3));
    pool.drop_waiter(h2);
    pool.drop_waiter(h3);
}

#[test]
fn connections_can_be_inspected() {
    let mut pool = pool_with(2);
    let (h, _) = pool.request_read(msg(1));
    assert_eq!(pool.read_connection_count(), 2);
    let (w, readers) = pool.view_connections();
    assert_eq!(*w, writer());
    assert_eq!(readers.to_vec(), vec![reader(0), reader(1)]);
    assert_eq!(pool.idle_readers(), vec![1]);
    pool.drop_waiter(h);
}

#[test]
fn shutdown_closes_writer_then_readers() {
    let mut pool = pool_with(2);
    let (h, _) = pool.request_write(msg(1));
    assert!(!pool.is_idle());
    pool.drop_waiter(h);
    assert!(pool.is_idle());
    assert_eq!(pool.shutdown(), vec![writer(), reader(0), reader(1)]);
}

#[test]
fn messages_are_encoded_as_arrays() {
    let message = PendingMessage { tag: -5, port: DartPort(3) };
    assert_eq!(
        message.did_obtain_exclusive(),
        vec![RawDartCObject::Int64(-5), RawDartCObject::Bool(true)]
    );
    assert_eq!(
        message.did_obtain_connection(Connection(usize::MAX)),
        vec![
            RawDartCObject::Int64(-5),
            RawDartCObject::Bool(false),
            RawDartCObject::Int64(usize::MAX as i64),
        ]
    );
    assert_eq!(RawDartCObject::from(true), RawDartCObject::Bool(true));
    assert_eq!(RawDartCObject::from(12i64), RawDartCObject::Int64(12));
}

fn held_readers(pool: &PoolState, handles: &[sqlite3_connection_pool::pool::PoolRequestHandle]) -> usize {
    handles
        .iter()
        .map(|handle| match pool.waiter(handle) {
            Waiter::Reader { assigned } => assigned.iter().count(),
            Waiter::Writer { .. } => 0,
            Waiter::Exclusive { acquired_readers, .. } => acquired_readers,
        })
        .sum()
}

fn writer_holders(pool: &PoolState, handles: &[sqlite3_connection_pool::pool::PoolRequestHandle]) -> usize {
    handles
        .iter()
        .filter(|handle| match pool.waiter(handle) {
            Waiter::Reader { .. } => false,
            Waiter::Writer { holds_writer } => holds_writer,
            Waiter::Exclusive { holds_writer, .. } => holds_writer,
        })
        .count()
}

#[test]
fn accounting_holds_along_a_long_run() {
    let readers = 3;
    let mut pool = pool_with(readers);
    let mut handles = Vec::new();
    let mut reported = 0usize;
    let mut completed_then_released = 0usize;
    let mut state: u64 = 0x2545_f491_4f6c_dd1d;
    for step in 0..2000i64 {
        state ^= state << 13;
        state ^= state >> 7;
        state ^= state << 17;
        let choice = state % 7;
        if choice < 4 || handles.is_empty() {
            let (handle, completed) = match choice % 3 {
                0 => pool.request_read(msg(step)),
                1 => pool.request_write(msg(step)),
                _ => pool.request_exclusive(msg(step)),
            };
            if let Some(completion) = completed {
                assert_eq!(completion.node, handle.node());
                assert_eq!(completion.message.tag, step);
                reported += 1;
            }
            handles.push(handle);
        } else {
            let at = (state >> 32) as usize % handles.len();
            let handle = handles.swap_remove(at);
            let was_queued = pool.is_queued(&handle, Slot::Read) || pool.is_queued(&handle, Slot::Write);
            if !was_queued {
                completed_then_released += 1;
            }
            let woken = pool.drop_waiter(handle);
            for completion in &woken {
                assert!(handles.iter().any(|h| h.node() == completion.node));
            }
            reported += woken.len();
        }
        assert_eq!(pool.idle_readers().len() + held_readers(&pool, &handles), readers);
        let holders = writer_holders(&pool, &handles);
        assert!(holders <= 1);
        assert_eq!(pool.writer_acquired(), holders == 1);
        let mut idle = pool.idle_readers();
        idle.sort();
        idle.dedup();
        assert_eq!(idle.len(), pool.idle_readers().len());
        let waiting = handles
            .iter()
            .filter(|h| pool.is_queued(h, Slot::Read) || pool.is_queued(h, Slot::Write))
            .count();
        assert_eq!(reported, completed_then_released + handles.len() - waiting);
    }
    for handle in handles {
        pool.drop_waiter(handle);
    }
    assert!(pool.is_idle());
    assert_eq!(pool.idle_readers().len(), readers);
}
