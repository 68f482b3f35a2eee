//! Pools by name. A name is a string of bytes and is matched byte for
//! byte. What is kept under a name is up to the caller: the registry only
//! finds it again and replaces it.

use vstd::prelude::*;

verus! {

struct Entry<T> {
    name: Vec<u8>,
    pool: T,
}

/// A table from names to pools.
pub struct PoolRegistry<T> {
    entries: Vec<Entry<T>>,
}

impl<T> View for PoolRegistry<T> {
    type V = Map<Seq<u8>, T>;

    /// What is kept under each name.
    closed spec fn view(&self) -> Map<Seq<u8>, T> {
        Map::new(
            |name: Seq<u8>| self.position(name) is Some,
            |name: Seq<u8>| self.entries@[self.position(name).unwrap()].pool,
        )
    }
}

/// Whether `a` and `b` hold the same bytes.
fn same_bytes(a: &[u8], b: &[u8]) -> (same: bool)
    ensures
        same == (a@ == b@),
{
    if a.len() != b.len() {
        return false;
    }
    let mut i: usize = 0;
    while i < a.len()
        invariant
            a@.len() == b@.len(),
            i <= a@.len(),
            a@.subrange(0, i as int) == b@.subrange(0, i as int),
        decreases a@.len() - i,
    {
        if a[i] != b[i] {
            return false;
        }
        i = i + 1;
        proof {
            assert(a@.subrange(0, i as int) =~= a@.subrange(0, i - 1).push(a@[i - 1]));
            assert(b@.subrange(0, i as int) =~= b@.subrange(0, i - 1).push(b@[i - 1]));
        }
    }
    proof {
        assert(a@.subrange(0, i as int) =~= a@);
        assert(b@.subrange(0, i as int) =~= b@);
    }
    true
}

impl<T> PoolRegistry<T> {
    /// Where the entry for `name` stands, if there is one.
    closed spec fn position(&self, name: Seq<u8>) -> Option<int> {
        if exists|i: int| 0 <= i < self.entries@.len() && self.entries@[i].name@ == name {
            Some(choose|i: int| 0 <= i < self.entries@.len() && self.entries@[i].name@ == name)
        } else {
            None
        }
    }

    /// No name has two entries.
    pub closed spec fn wf(&self) -> bool {
        forall|i: int, j: int|
            0 <= i < j < self.entries@.len() ==> self.entries@[i].name@ != self.entries@[j].name@
    }

    /// A registry without entries.
    pub fn new() -> (registry: PoolRegistry<T>)
        ensures
            registry.wf(),
            registry@ == Map::<Seq<u8>, T>::empty(),
    {
        let registry = PoolRegistry { entries: Vec::new() };
        proof {
            assert(registry@ =~= Map::<Seq<u8>, T>::empty());
        }
        registry
    }

    /// The index of the entry for `name`.
    fn find(&self, name: &[u8]) -> (found: Option<usize>)
        requires
            self.wf(),
        ensures
            found is Some <==> self@.contains_key(name@),
            found matches Some(i) ==> self.position(name@) == Some(i as int),
    {
        let mut i: usize = 0;
        while i < self.entries.len()
            invariant
                self.wf(),
                i <= self.entries@.len(),
                forall|k: int| 0 <= k < i ==> self.entries@[k].name@ != name@,
            decreases self.entries@.len() - i,
        {
            if same_bytes(self.entries[i].name.as_slice(), name) {
                return Some(i);
            }
            i = i + 1;
        }
        None
    }

    /// What is kept under `name`, if anything.
    pub fn lookup(&self, name: &[u8]) -> (pool: Option<&T>)
        requires
            self.wf(),
        ensures
            pool == if self@.contains_key(name@) {
                Some(&self@[name@])
            } else {
                None
            },
    {
        match self.find(name) {
            Some(i) => Some(&self.entries[i].pool),
            None => None,
        }
    }

    /// Keeps `pool` under `name`, in place of what was kept there.
    pub fn insert(&mut self, name: &[u8], pool: T)
        requires
            old(self).wf(),
        ensures
            final(self).wf(),
            final(self)@ == old(self)@.insert(name@, pool),
    {
        let mut bytes: Vec<u8> = Vec::new();
        let mut k: usize = 0;
        while k < name.len()
            invariant
                k <= name@.len(),
                bytes@ == name@.subrange(0, k as int),
            decreases name@.len() - k,
        {
            bytes.push(name[k]);
            k = k + 1;
            proof {
                assert(bytes@ =~= name@.subrange(0, k as int));
            }
        }
        proof {
            assert(name@.subrange(0, k as int) =~= name@);
        }
        let ghost before = self.entries@;
        match self.find(name) {
            Some(i) => {
                self.entries.set(i, Entry { name: bytes, pool });
                proof {
                    let after = self.entries@;
                    assert forall|a: int, b: int| 0 <= a < b < after.len() implies after[a].name@
                        != after[b].name@ by {
                        assert(before[a].name@ != before[b].name@);
                    }
                    assert forall|other: Seq<u8>| #[trigger]
                        self@.contains_key(other) == old(self)@.insert(name@, pool).contains_key(
                            other,
                        ) && (self@.contains_key(other) ==> self@[other] == old(self)@.insert(
                            name@,
                            pool,
                        )[other]) by {
                        self.lemma_position(other);
                        old(self).lemma_position(other);
                        if old(self).position(other) is Some {
                            let at = old(self).position(other).unwrap();
                            assert(after[at].name@ == other);
                        }
                        if self.position(other) is Some {
                            let at = self.position(other).unwrap();
                            assert(before[at].name@ == other);
                        }
                    }
                    assert(self@ =~= old(self)@.insert(name@, pool));
                }
            },
            None => {
                self.entries.push(Entry { name: bytes, pool });
                proof {
                    let after = self.entries@;
                    assert forall|a: int| 0 <= a < before.len() implies before[a].name@
                        != name@ by {
                        old(self).lemma_position(name@);
                        if before[a].name@ == name@ {
                            assert(old(self).position(name@) is Some);
                        }
                    }
                    assert forall|a: int, b: int| 0 <= a < b < after.len() implies after[a].name@
                        != after[b].name@ by {
                        if b < before.len() {
                            assert(before[a].name@ != before[b].name@);
                        }
                    }
                    assert forall|other: Seq<u8>| #[trigger]
                        self@.contains_key(other) == old(self)@.insert(name@, pool).contains_key(
                            other,
                        ) && (self@.contains_key(other) ==> self@[other] == old(self)@.insert(
                            name@,
                            pool,
                        )[other]) by {
                        self.lemma_position(other);
                        old(self).lemma_position(other);
                        if old(self).position(other) is Some {
                            let at = old(self).position(other).unwrap();
                            assert(after[at].name@ == other);
                        }
                        if other == name@ {
                            assert(after[before.len() as int].name@ == name@);
                        }
                        if self.position(other) is Some {
                            let at = self.position(other).unwrap();
                            if at < before.len() {
                                assert(before[at].name@ == other);
                            }
                        }
                    }
                    assert(self@ =~= old(self)@.insert(name@, pool));
                }
            },
        }
    }

    /// `position` finds the one entry of a name.
    proof fn lemma_position(&self, name: Seq<u8>)
        requires
            self.wf(),
        ensures
            self.position(name) matches Some(i) ==> 0 <= i < self.entries@.len()
                && self.entries@[i].name@ == name,
            self.position(name) is None ==> forall|i: int|
                0 <= i < self.entries@.len() ==> self.entries@[i].name@ != name,
            forall|i: int|
                0 <= i < self.entries@.len() && self.entries@[i].name@ == name
                    ==> self.position(name) == Some(i),
    {
    }
}

} // verus!
