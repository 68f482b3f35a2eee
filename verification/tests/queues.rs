use sqlite3_connection_pool::arena::{QueueEntry, Slot, WaitArena, WaitNode};
use sqlite3_connection_pool::dart::DartPort;
use sqlite3_connection_pool::extension::{
    check_api_version, check_library_version, check_status, SQLITE_INTERNAL, SQLITE_MISUSE,
    SQLITE_OK,
};
use sqlite3_connection_pool::linked_list::LinkedList;
use sqlite3_connection_pool::message::PendingMessage;
use sqlite3_connection_pool::registry::PoolRegistry;
use sqlite3_connection_pool::waiter::Waiter;

fn node(tag: i64, waiter: Waiter) -> WaitNode {
    WaitNode::new(PendingMessage { tag, port: DartPort(1) }, waiter)
}

fn reader(tag: i64) -> WaitNode {
    node(tag, Waiter::Reader { assigned: None })
}

fn links(prev: Option<usize>, next: Option<usize>) -> Option<QueueEntry> {
    Some(QueueEntry { prev, next })
}

#[test]
fn arena_reuses_the_slot_given_up_last() {
    let mut arena = WaitArena::new();
    let a = arena.insert(reader(1));
    let b = arena.insert(reader(2));
    let c = arena.insert(reader(3));
    assert_eq!((a, b, c), (0, 1, 2));
    assert!(arena.contains(b));
    assert_eq!(arena.get(b).port.tag, 2);

    arena.remove(a);
    arena.remove(c);
    assert!(!arena.contains(a));
    assert!(!arena.contains(c));
    assert!(!arena.contains(3));

    assert_eq!(arena.insert(reader(4)), c);
    assert_eq!(arena.insert(reader(5)), a);
    assert_eq!(arena.insert(reader(6)), 3);
    assert_eq!(arena.get(c).port.tag, 4);
    assert_eq!(arena.get(a).port.tag, 5);
}

#[test]
fn arena_put_replaces_a_node() {
    let mut arena = WaitArena::new();
    let a = arena.insert(reader(1));
    let changed = arena.get(a).with_entry(Slot::Write, links(None, Some(7)));
    arena.put(a, changed);
    assert_eq!(arena.get(a).entry(Slot::Write), links(None, Some(7)));
    assert_eq!(arena.get(a).entry(Slot::Read), None);
    assert_eq!(arena.get(a).write_entry, links(None, Some(7)));
}

#[test]
fn push_back_links_nodes_in_order() {
    let mut arena = WaitArena::new();
    let mut list = LinkedList::new();
    assert_eq!(list.peek_head(), None);
    let a = arena.insert(reader(1));
    let b = arena.insert(reader(2));
    let c = arena.insert(reader(3));

    list.push_back(&mut arena, a, Slot::Read);
    assert_eq!(list.peek_head(), Some(a));
    assert_eq!(arena.get(a).read_entry, links(None, None));

    list.push_back(&mut arena, b, Slot::Read);
    list.push_back(&mut arena, c, Slot::Read);
    assert_eq!(list.peek_head(), Some(a));
    assert_eq!(arena.get(a).read_entry, links(None, Some(b)));
    assert_eq!(arena.get(b).read_entry, links(Some(a), Some(c)));
    assert_eq!(arena.get(c).read_entry, links(Some(b), None));
    assert_eq!(arena.get(b).write_entry, None);
    assert_eq!(arena.get(b).port.tag, 2);
}

#[test]
fn unlink_repairs_neighbours_and_ends() {
    let mut arena = WaitArena::new();
    let mut list = LinkedList::new();
    let a = arena.insert(reader(1));
    let b = arena.insert(reader(2));
    let c = arena.insert(reader(3));
    list.push_back(&mut arena, a, Slot::Read);
    list.push_back(&mut arena, b, Slot::Read);
    list.push_back(&mut arena, c, Slot::Read);

    list.unlink(&mut arena, b, Slot::Read);
    assert_eq!(arena.get(b).read_entry, None);
    assert_eq!(arena.get(a).read_entry, links(None, Some(c)));
    assert_eq!(arena.get(c).read_entry, links(Some(a), None));

    list.unlink(&mut arena, a, Slot::Read);
    assert_eq!(list.peek_head(), Some(c));
    assert_eq!(arena.get(c).read_entry, links(None, None));

    list.push_back(&mut arena, b, Slot::Read);
    assert_eq!(arena.get(c).read_entry, links(None, Some(b)));
    assert_eq!(arena.get(b).read_entry, links(Some(c), None));

    list.unlink(&mut arena, b, Slot::Read);
    list.unlink(&mut arena, c, Slot::Read);
    assert_eq!(list.peek_head(), None);
    list.push_back(&mut arena, a, Slot::Read);
    assert_eq!(list.peek_head(), Some(a));
}

#[test]
fn a_node_can_stand_in_both_queues() {
    let mut arena = WaitArena::new();
    let mut reads = LinkedList::new();
    let mut writes = LinkedList::new();
    let r = arena.insert(reader(1));
    let x = arena.insert(node(2, Waiter::Exclusive { holds_writer: false, acquired_readers: 0 }));
    let w = arena.insert(node(3, Waiter::Writer { holds_writer: false }));

    reads.push_back(&mut arena, r, Slot::Read);
    writes.push_back(&mut arena, w, Slot::Write);
    reads.push_back(&mut arena, x, Slot::Read);
    writes.push_back(&mut arena, x, Slot::Write);

    assert_eq!(arena.get(x).read_entry, links(Some(r), None));
    assert_eq!(arena.get(x).write_entry, links(Some(w), None));
    assert_eq!(reads.peek_head(), Some(r));
    assert_eq!(writes.peek_head(), Some(w));

    reads.unlink(&mut arena, x, Slot::Read);
    assert_eq!(arena.get(x).read_entry, None);
    assert_eq!(arena.get(x).write_entry, links(Some(w), None));
    assert_eq!(arena.get(r).read_entry, links(None, None));
    assert_eq!(arena.get(w).write_entry, links(None, Some(x)));

    writes.unlink(&mut arena, w, Slot::Write);
    assert_eq!(writes.peek_head(), Some(x));
    assert_eq!(arena.get(x).write_entry, links(None, None));
}

#[test]
fn registry_matches_names_byte_for_byte() {
    let mut registry: PoolRegistry<u32> = PoolRegistry::new();
    assert_eq!(registry.lookup(b"main"), None);
    registry.insert(b"main", 1);
    registry.insert(b"Main", 2);
    registry.insert(b"", 3);
    registry.insert("caf\u{e9}".as_bytes(), 4);
    assert_eq!(registry.lookup(b"main"), Some(&1));
    assert_eq!(registry.lookup(b"Main"), Some(&2));
    assert_eq!(registry.lookup(b""), Some(&3));
    assert_eq!(registry.lookup("caf\u{e9}".as_bytes()), Some(&4));
    assert_eq!(registry.lookup("cafe\u{301}".as_bytes()), None);
    assert_eq!(registry.lookup(b"mai"), None);
    assert_eq!(registry.lookup(b"main\0"), None);
}

#[test]
fn registry_insert_replaces_an_entry() {
    let mut registry: PoolRegistry<&str> = PoolRegistry::new();
    registry.insert(b"a", "first");
    registry.insert(b"b", "other");
    registry.insert(b"a", "second");
    assert_eq!(registry.lookup(b"a"), Some(&"second"));
    assert_eq!(registry.lookup(b"b"), Some(&"other"));
}

#[test]
fn library_versions_below_the_minimum_are_misuse() {
    assert_eq!(check_library_version(301999), Err(SQLITE_MISUSE));
    assert_eq!(check_library_version(302000), Ok(()));
    assert_eq!(check_library_version(3045001), Ok(()));
    assert_eq!(check_library_version(-1), Err(21));
}

#[test]
fn every_status_but_ok_is_an_error() {
    assert_eq!(SQLITE_OK, 0);
    assert_eq!(check_status(0), Ok(()));
    assert_eq!(check_status(1), Err(1));
    assert_eq!(check_status(101), Err(101));
    assert_eq!(check_status(-7), Err(-7));
}

#[test]
fn only_the_known_interface_version_is_accepted() {
    assert_eq!(check_api_version(None), Err(SQLITE_INTERNAL));
    assert_eq!(check_api_version(None), Err(2));
    assert_eq!(check_api_version(Some(2)), Ok(()));
    assert_eq!(check_api_version(Some(1)), Err(SQLITE_MISUSE));
    assert_eq!(check_api_version(Some(3)), Err(21));
}
