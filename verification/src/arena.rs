//! Storage for wait nodes. A node is known by the number of its slot, and a
//! slot that has been given up is used again before the storage grows.

use vstd::prelude::*;
use crate::message::PendingMessage;
use crate::waiter::Waiter;

verus! {

/// The links of a node inside one queue: the nodes before and after it.
#[derive(Clone, Copy, Debug, PartialEq, Eq, Structural)]
pub struct QueueEntry {
    pub prev: Option<usize>,
    pub next: Option<usize>,
}

/// One registered request. It carries a pair of links for each of the two
/// queues, so that it can stand in both at once; a pair is present exactly
/// while the node stands in that queue.
#[derive(Clone, Copy, Debug, PartialEq, Eq, Structural)]
pub struct WaitNode {
    pub read_entry: Option<QueueEntry>,
    pub write_entry: Option<QueueEntry>,
    pub port: PendingMessage,
    pub waiter: Waiter,
}

/// Names one of the two pairs of links of a node.
#[derive(Clone, Copy, Debug, PartialEq, Eq, Structural)]
pub enum Slot {
    Read,
    Write,
}

impl WaitNode {
    /// The links of this node in the queue that uses `slot`.
    pub open spec fn spec_entry(&self, slot: Slot) -> Option<QueueEntry> {
        match slot {
            Slot::Read => self.read_entry,
            Slot::Write => self.write_entry,
        }
    }

    /// This node with the links of `slot` replaced.
    pub open spec fn spec_with_entry(self, slot: Slot, entry: Option<QueueEntry>) -> WaitNode {
        match slot {
            Slot::Read => WaitNode { read_entry: entry, ..self },
            Slot::Write => WaitNode { write_entry: entry, ..self },
        }
    }

    /// A node that stands in no queue.
    pub fn new(port: PendingMessage, waiter: Waiter) -> (node: WaitNode)
        ensures
            node == (WaitNode { read_entry: None, write_entry: None, port, waiter }),
    {
        WaitNode { read_entry: None, write_entry: None, port, waiter }
    }

    /// The links of this node in the queue that uses `slot`.
    #[verifier::when_used_as_spec(spec_entry)]
    pub fn entry(&self, slot: Slot) -> (entry: Option<QueueEntry>)
        ensures
            entry == self.spec_entry(slot),
    {
        match slot {
            Slot::Read => self.read_entry,
            Slot::Write => self.write_entry,
        }
    }

    /// This node with the links of `slot` replaced.
    #[verifier::when_used_as_spec(spec_with_entry)]
    pub fn with_entry(self, slot: Slot, entry: Option<QueueEntry>) -> (node: WaitNode)
        ensures
            node == self.spec_with_entry(slot, entry),
    {
        match slot {
            Slot::Read => WaitNode { read_entry: entry, ..self },
            Slot::Write => WaitNode { write_entry: entry, ..self },
        }
    }
}

/// Whether slot `i` of `nodes` holds a node.
pub open spec fn occupied(nodes: Seq<Option<WaitNode>>, i: usize) -> bool {
    i < nodes.len() && nodes[i as int] is Some
}

/// The slots for wait nodes, with the list of those that are vacant.
pub struct WaitArena {
    nodes: Vec<Option<WaitNode>>,
    vacant: Vec<usize>,
}

impl View for WaitArena {
    type V = Seq<Option<WaitNode>>;

    closed spec fn view(&self) -> Seq<Option<WaitNode>> {
        self.nodes@
    }
}

impl WaitArena {
    /// The vacant list names exactly the empty slots, each once.
    pub closed spec fn wf(&self) -> bool {
        &&& self.vacant@.no_duplicates()
        &&& forall|i: usize| #[trigger]
            self.vacant@.contains(i) <==> (i < self.nodes@.len() && self.nodes@[i as int] is None)
    }

    /// The slots that have been given up and not been used again, the one
    /// given up last at the end.
    pub closed spec fn vacant(&self) -> Seq<usize> {
        self.vacant@
    }

    /// The slot that the next node goes to: the vacant slot that was given
    /// up last, or a new slot if none is vacant.
    pub open spec fn next_slot(&self) -> usize {
        if self.vacant().len() > 0 {
            self.vacant().last()
        } else {
            self@.len() as usize
        }
    }

    /// An arena without nodes.
    pub fn new() -> (arena: WaitArena)
        ensures
            arena.wf(),
            arena@.len() == 0,
            arena.vacant().len() == 0,
    {
        WaitArena { nodes: Vec::new(), vacant: Vec::new() }
    }

    /// Whether slot `i` holds a node.
    pub fn contains(&self, i: usize) -> (found: bool)
        ensures
            found == occupied(self@, i),
    {
        i < self.nodes.len() && self.nodes[i].is_some()
    }

    /// The node in slot `i`.
    pub fn get(&self, i: usize) -> (node: WaitNode)
        requires
            occupied(self@, i),
        ensures
            node == self@[i as int].unwrap(),
    {
        self.nodes[i].unwrap()
    }

    /// Overwrites the node in the occupied slot `i`.
    pub fn put(&mut self, i: usize, node: WaitNode)
        requires
            old(self).wf(),
            occupied(old(self)@, i),
        ensures
            final(self).wf(),
            final(self)@ == old(self)@.update(i as int, Some(node)),
            final(self).vacant() == old(self).vacant(),
    {
        self.nodes.set(i, Some(node));
        proof {
            assert forall|j: usize| #[trigger]
                self.vacant@.contains(j) <==> (j < self.nodes@.len()
                    && self.nodes@[j as int] is None) by {
                assert(old(self).vacant@.contains(j) <==> (j < old(self).nodes@.len() && old(
                    self,
                ).nodes@[j as int] is None));
            }
        }
    }

    /// Stores `node` in a vacant slot, or in a new slot when none is
    /// vacant, and returns the number of that slot.
    pub fn insert(&mut self, node: WaitNode) -> (i: usize)
        requires
            old(self).wf(),
        ensures
            final(self).wf(),
            i == old(self).next_slot(),
            !occupied(old(self)@, i),
            i < old(self)@.len() <==> old(self).vacant().len() > 0,
            i <= old(self)@.len(),
            i < old(self)@.len() ==> final(self)@ == old(self)@.update(i as int, Some(node)),
            i == old(self)@.len() ==> final(self)@ == old(self)@.push(Some(node)),
            final(self).vacant() == if old(self).vacant().len() > 0 {
                old(self).vacant().drop_last()
            } else {
                old(self).vacant()
            },
    {
        match self.vacant.pop() {
            Some(i) => {
                proof {
                    let before = old(self).vacant@;
                    assert(before[before.len() - 1] == i);
                    assert(before.contains(i));
                }
                self.nodes.set(i, Some(node));
                proof {
                    let before = old(self).vacant@;
                    assert forall|j: usize| #[trigger]
                        self.vacant@.contains(j) <==> (j < self.nodes@.len()
                            && self.nodes@[j as int] is None) by {
                        assert(before.contains(j) <==> (j < old(self).nodes@.len() && old(
                            self,
                        ).nodes@[j as int] is None));
                        if self.vacant@.contains(j) {
                            let k = choose|k: int|
                                0 <= k < self.vacant@.len() && self.vacant@[k] == j;
                            assert(before[k] == j);
                        }
                        if before.contains(j) && j != i {
                            let k = choose|k: int| 0 <= k < before.len() && before[k] == j;
                            assert(self.vacant@[k] == j);
                        }
                    }
                }
                i
            },
            None => {
                let i: usize = self.nodes.len();
                self.nodes.push(Some(node));
                proof {
                    assert forall|j: usize| #[trigger]
                        self.vacant@.contains(j) <==> (j < self.nodes@.len()
                            && self.nodes@[j as int] is None) by {
                        assert(old(self).vacant@.contains(j) <==> (j < old(self).nodes@.len()
                            && old(self).nodes@[j as int] is None));
                    }
                }
                i
            },
        }
    }

    /// Empties the occupied slot `i`.
    pub fn remove(&mut self, i: usize)
        requires
            old(self).wf(),
            occupied(old(self)@, i),
        ensures
            final(self).wf(),
            final(self)@ == old(self)@.update(i as int, None),
            final(self).vacant() == old(self).vacant().push(i),
    {
        self.nodes.set(i, None);
        self.vacant.push(i);
        proof {
            let before = old(self).vacant@;
            assert(!before.contains(i));
            assert forall|j: usize| #[trigger]
                self.vacant@.contains(j) <==> (j < self.nodes@.len()
                    && self.nodes@[j as int] is None) by {
                assert(before.contains(j) <==> (j < old(self).nodes@.len() && old(
                    self,
                ).nodes@[j as int] is None));
                if self.vacant@.contains(j) {
                    let k = choose|k: int| 0 <= k < self.vacant@.len() && self.vacant@[k] == j;
                    if k < before.len() {
                        assert(before[k] == j);
                    }
                }
                if before.contains(j) {
                    let k = choose|k: int| 0 <= k < before.len() && before[k] == j;
                    assert(self.vacant@[k] == j);
                }
                if j == i {
                    assert(self.vacant@[before.len() as int] == i);
                }
            }
        }
    }
}

} // verus!
