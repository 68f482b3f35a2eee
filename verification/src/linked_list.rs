//! First-in-first-out queues of wait nodes whose links live inside the
//! nodes. Each queue uses one of the two pairs of links of a node, so two
//! queues can thread the same nodes without touching each other.

use vstd::prelude::*;
use crate::arena::{occupied, QueueEntry, Slot, WaitArena, WaitNode};

verus! {

/// The links that slot `i` carries for the queue of `slot`; none if the
/// slot is empty.
pub open spec fn link_of(nodes: Seq<Option<WaitNode>>, slot: Slot, i: usize) -> Option<
    QueueEntry,
> {
    if occupied(nodes, i) {
        nodes[i as int].unwrap().entry(slot)
    } else {
        None
    }
}

/// The links that the node at position `k` of a queue in order `order`
/// must carry.
pub open spec fn links_at(order: Seq<usize>, k: int) -> QueueEntry {
    QueueEntry {
        prev: if k == 0 {
            None
        } else {
            Some(order[k - 1])
        },
        next: if k == order.len() - 1 {
            None
        } else {
            Some(order[k + 1])
        },
    }
}

/// Two arenas agree on the links of `slot`.
pub open spec fn same_links(a: Seq<Option<WaitNode>>, b: Seq<Option<WaitNode>>, slot: Slot) -> bool {
    forall|i: usize| #[trigger] link_of(a, slot, i) == link_of(b, slot, i)
}

/// Two arenas hold the same requests in the same slots; only links may
/// differ.
pub open spec fn same_requests(a: Seq<Option<WaitNode>>, b: Seq<Option<WaitNode>>) -> bool {
    &&& a.len() == b.len()
    &&& forall|i: int|
        0 <= i < a.len() ==> {
            &&& (#[trigger] a[i] is Some) == (b[i] is Some)
            &&& a[i] is Some ==> a[i].unwrap().port == b[i].unwrap().port && a[i].unwrap().waiter
                == b[i].unwrap().waiter
        }
}

/// The other pair of links.
pub open spec fn other(slot: Slot) -> Slot {
    match slot {
        Slot::Read => Slot::Write,
        Slot::Write => Slot::Read,
    }
}

/// Head and tail of a queue. The order of the queue is kept as ghost state
/// and tied to the links in the nodes by `wf`.
pub struct LinkedList {
    first: Option<usize>,
    last: Option<usize>,
    order: Ghost<Seq<usize>>,
}

impl View for LinkedList {
    type V = Seq<usize>;

    /// The nodes of the queue, oldest first.
    closed spec fn view(&self) -> Seq<usize> {
        self.order@
    }
}

impl LinkedList {
    /// Head and tail are the two ends of the queue.
    pub closed spec fn has_ends(&self) -> bool {
        &&& self.first == if self@.len() == 0 {
            None
        } else {
            Some(self@[0])
        }
        &&& self.last == if self@.len() == 0 {
            None
        } else {
            Some(self@[self@.len() - 1])
        }
    }

    /// The links of `slot` in `nodes` spell out this queue: no node stands
    /// in it twice, every node in it carries the links to its neighbours,
    /// no node outside it carries links, and head and tail are its ends.
    pub open spec fn wf(&self, nodes: Seq<Option<WaitNode>>, slot: Slot) -> bool {
        &&& self.has_ends()
        &&& self@.no_duplicates()
        &&& forall|k: int|
            0 <= k < self@.len() ==> #[trigger] link_of(nodes, slot, self@[k]) == Some(
                links_at(self@, k),
            )
        &&& forall|i: usize| #[trigger] link_of(nodes, slot, i) is Some ==> self@.contains(i)
    }

    /// A node stands in the queue exactly when it carries links for it.
    pub proof fn lemma_linked_iff_queued(&self, nodes: Seq<Option<WaitNode>>, slot: Slot, i: usize)
        requires
            self.wf(nodes, slot),
        ensures
            self@.contains(i) <==> link_of(nodes, slot, i) is Some,
            self@.no_duplicates(),
    {
        if self@.contains(i) {
            let k = choose|k: int| 0 <= k < self@.len() && self@[k] == i;
            assert(link_of(nodes, slot, self@[k]) == Some(links_at(self@, k)));
        }
    }

    /// The queue does not depend on anything but the links of its slot.
    pub proof fn lemma_same_links(
        &self,
        before: Seq<Option<WaitNode>>,
        after: Seq<Option<WaitNode>>,
        slot: Slot,
    )
        requires
            self.wf(before, slot),
            same_links(before, after, slot),
        ensures
            self.wf(after, slot),
    {
        assert forall|k: int| 0 <= k < self@.len() implies #[trigger] link_of(
            after,
            slot,
            self@[k],
        ) == Some(links_at(self@, k)) by {
            assert(link_of(before, slot, self@[k]) == Some(links_at(self@, k)));
        }
        assert forall|i: usize| #[trigger] link_of(after, slot, i) is Some implies self@.contains(
            i,
        ) by {
            assert(link_of(before, slot, i) == link_of(after, slot, i));
        }
    }

    /// An empty queue.
    pub fn new() -> (list: LinkedList)
        ensures
            list@ == Seq::<usize>::empty(),
            list.has_ends(),
    {
        LinkedList { first: None, last: None, order: Ghost(Seq::empty()) }
    }

    /// The oldest node of the queue, which stays where it is.
    pub fn peek_head(&self) -> (head: Option<usize>)
        requires
            self.has_ends(),
        ensures
            head == if self@.len() == 0 {
                None
            } else {
                Some(self@[0])
            },
    {
        self.first
    }

    /// Appends the node in slot `node`, which stands in no queue of `slot`.
    pub fn push_back(&mut self, arena: &mut WaitArena, node: usize, slot: Slot)
        requires
            old(arena).wf(),
            old(self).wf(old(arena)@, slot),
            occupied(old(arena)@, node),
            link_of(old(arena)@, slot, node) is None,
        ensures
            final(arena).wf(),
            final(self).wf(final(arena)@, slot),
            final(self)@ == old(self)@.push(node),
            same_links(old(arena)@, final(arena)@, other(slot)),
            same_requests(old(arena)@, final(arena)@),
            final(arena).vacant() == old(arena).vacant(),
    {
        let ghost before = arena@;
        let ghost order = self@;
        let ghost grown = order.push(node);
        proof {
            if order.contains(node) {
                self.lemma_linked_iff_queued(before, slot, node);
            }
        }
        let entry = QueueEntry { prev: self.last, next: None };
        match self.last {
            None => {
                self.first = Some(node);
            },
            Some(last) => {
                proof {
                    assert(link_of(before, slot, order[order.len() - 1]) == Some(
                        links_at(order, order.len() - 1),
                    ));
                }
                let tail = arena.get(last);
                let tail_entry = tail.entry(slot).unwrap();
                arena.put(
                    last,
                    tail.with_entry(
                        slot,
                        Some(QueueEntry { prev: tail_entry.prev, next: Some(node) }),
                    ),
                );
            },
        }
        let fresh = arena.get(node);
        arena.put(node, fresh.with_entry(slot, Some(entry)));
        self.last = Some(node);
        self.order = Ghost(grown);
        proof {
            let after = arena@;
            assert forall|k: int| 0 <= k < grown.len() implies #[trigger] link_of(
                after,
                slot,
                grown[k],
            ) == Some(links_at(grown, k)) by {
                if k < order.len() {
                    assert(link_of(before, slot, order[k]) == Some(links_at(order, k)));
                    assert(order.contains(order[k]));
                }
            }
            assert forall|i: usize| #[trigger] link_of(after, slot, i) is Some implies grown.contains(
                i,
            ) by {
                if i == node {
                    assert(grown[order.len() as int] == node);
                } else {
                    assert(link_of(before, slot, i) is Some);
                    assert(order.contains(i));
                    let k = choose|k: int| 0 <= k < order.len() && order[k] == i;
                    assert(grown[k] == i);
                }
            }
            assert forall|i: usize| #[trigger]
                link_of(before, other(slot), i) == link_of(after, other(slot), i) by {}
        }
    }

    /// Takes the node in slot `node` out of the queue in which it stands.
    pub fn unlink(&mut self, arena: &mut WaitArena, node: usize, slot: Slot)
        requires
            old(arena).wf(),
            old(self).wf(old(arena)@, slot),
            link_of(old(arena)@, slot, node) is Some,
        ensures
            final(arena).wf(),
            final(self).wf(final(arena)@, slot),
            old(self)@.contains(node),
            final(self)@ == old(self)@.remove(old(self)@.index_of(node)),
            link_of(final(arena)@, slot, node) is None,
            same_links(old(arena)@, final(arena)@, other(slot)),
            same_requests(old(arena)@, final(arena)@),
            final(arena).vacant() == old(arena).vacant(),
    {
        let ghost before = arena@;
        let ghost order = self@;
        let ghost at = order.index_of(node);
        let ghost rest = order.remove(at);
        proof {
            self.lemma_linked_iff_queued(before, slot, node);
            assert(link_of(before, slot, order[at]) == Some(links_at(order, at)));
            if at > 0 {
                assert(link_of(before, slot, order[at - 1]) == Some(links_at(order, at - 1)));
            }
            if at < order.len() - 1 {
                assert(link_of(before, slot, order[at + 1]) == Some(links_at(order, at + 1)));
            }
        }
        let this = arena.get(node);
        let entry = this.entry(slot).unwrap();
        match entry.prev {
            Some(prev) => {
                let neighbour = arena.get(prev);
                let links = neighbour.entry(slot).unwrap();
                arena.put(
                    prev,
                    neighbour.with_entry(
                        slot,
                        Some(QueueEntry { prev: links.prev, next: entry.next }),
                    ),
                );
            },
            None => {
                self.first = entry.next;
            },
        }
        match entry.next {
            Some(next) => {
                let neighbour = arena.get(next);
                let links = neighbour.entry(slot).unwrap();
                arena.put(
                    next,
                    neighbour.with_entry(
                        slot,
                        Some(QueueEntry { prev: entry.prev, next: links.next }),
                    ),
                );
            },
            None => {
                self.last = entry.prev;
            },
        }
        let this = arena.get(node);
        arena.put(node, this.with_entry(slot, None));
        self.order = Ghost(rest);
        proof {
            let after = arena@;
            assert forall|k: int| 0 <= k < rest.len() implies #[trigger] link_of(
                after,
                slot,
                rest[k],
            ) == Some(links_at(rest, k)) by {
                let j = if k < at {
                    k
                } else {
                    k + 1
                };
                assert(rest[k] == order[j]);
                assert(link_of(before, slot, order[j]) == Some(links_at(order, j)));
                assert(order[j] != node);
            }
            assert forall|i: usize| #[trigger] link_of(after, slot, i) is Some implies rest.contains(
                i,
            ) by {
                assert(i != node);
                assert(link_of(before, slot, i) is Some);
                assert(order.contains(i));
                let j = choose|j: int| 0 <= j < order.len() && order[j] == i;
                if j < at {
                    assert(rest[j] == i);
                } else {
                    assert(rest[j - 1] == i);
                }
            }
            assert forall|i: usize| #[trigger]
                link_of(before, other(slot), i) == link_of(after, other(slot), i) by {}
            assert(rest.no_duplicates());
        }
    }
}

} // verus!
