//! Small facts about sequences without duplicates.

use vstd::prelude::*;

verus! {

/// What a sequence with one more item contains.
pub proof fn lemma_pushed(q: Seq<usize>, h: usize, w: usize)
    ensures
        q.push(h).contains(w) <==> (q.contains(w) || w == h),
{
    if q.push(h).contains(w) {
        let k = choose|k: int| 0 <= k < q.push(h).len() && q.push(h)[k] == w;
        if k < q.len() {
            assert(q[k] == w);
        }
    }
    if q.contains(w) {
        let k = choose|k: int| 0 <= k < q.len() && q[k] == w;
        assert(q.push(h)[k] == w);
    }
    if w == h {
        assert(q.push(h)[q.len() as int] == h);
    }
}

/// A new item keeps a sequence free of duplicates.
pub proof fn lemma_push_distinct(q: Seq<usize>, h: usize)
    requires
        q.no_duplicates(),
        !q.contains(h),
    ensures
        q.push(h).no_duplicates(),
{
    assert forall|a: int, b: int| 0 <= a < q.push(h).len() && 0 <= b < q.push(h).len() && a
        != b implies q.push(h)[a] != q.push(h)[b] by {
        if a < q.len() {
            assert(q.contains(q[a]));
        }
        if b < q.len() {
            assert(q.contains(q[b]));
        }
    }
}

/// What a duplicate-free sequence without its first item contains.
pub proof fn lemma_dropped(q: Seq<usize>, w: usize)
    requires
        q.no_duplicates(),
        q.len() > 0,
    ensures
        q.drop_first().contains(w) <==> (q.contains(w) && w != q[0]),
        q.drop_first().no_duplicates(),
{
    if q.drop_first().contains(w) {
        let k = choose|k: int| 0 <= k < q.drop_first().len() && q.drop_first()[k] == w;
        assert(q[k + 1] == w);
    }
    if q.contains(w) && w != q[0] {
        let k = choose|k: int| 0 <= k < q.len() && q[k] == w;
        assert(q.drop_first()[k - 1] == w);
    }
}

} // verus!
