//! The lease table: for every reader connection, the waiter that currently
//! holds it, if any. This module counts entries of such a table.

use vstd::prelude::*;
use vstd::set_lib::{lemma_len_subset, lemma_set_disjoint_lens, lemma_subset_equality};

verus! {

/// The indices below `n`.
pub open spec fn below(n: nat) -> Set<usize> {
    Set::new(|i: usize| i < n)
}

/// The indices of `leases` whose entry is `holder`: with `Some(h)` the
/// readers leased to waiter `h`, with `None` the readers leased to nobody.
pub open spec fn leased_to(leases: Seq<Option<usize>>, holder: Option<usize>) -> Set<usize> {
    Set::new(|i: usize| i < leases.len() && leases[i as int] == holder)
}

/// The indices of `leases` that are leased to some waiter.
pub open spec fn leased(leases: Seq<Option<usize>>) -> Set<usize> {
    Set::new(|i: usize| i < leases.len() && leases[i as int] is Some)
}

/// The first `n` indices of `leases` that are leased to `h`, in increasing
/// order.
pub open spec fn leases_in_order(leases: Seq<Option<usize>>, h: usize, n: nat) -> Seq<usize>
    decreases n,
{
    if n == 0 {
        Seq::empty()
    } else {
        let before = leases_in_order(leases, h, (n - 1) as nat);
        if leases[n - 1] == Some(h) {
            before.push((n - 1) as usize)
        } else {
            before
        }
    }
}

/// There are exactly `n` indices below `n`.
pub proof fn lemma_below(n: nat)
    requires
        n <= usize::MAX,
    ensures
        below(n).finite(),
        below(n).len() == n,
    decreases n,
{
    if n == 0 {
        assert(below(n) =~= Set::<usize>::empty());
    } else {
        lemma_below((n - 1) as nat);
        assert(below(n) =~= below((n - 1) as nat).insert((n - 1) as usize));
    }
}

/// A table has no more leases to one holder than it has entries.
pub proof fn lemma_leased_to_bounded(leases: Seq<Option<usize>>, holder: Option<usize>)
    requires
        leases.len() <= usize::MAX,
    ensures
        leased_to(leases, holder).finite(),
        leased_to(leases, holder).len() <= leases.len(),
{
    lemma_below(leases.len());
    lemma_len_subset(leased_to(leases, holder), below(leases.len()));
}

/// Every entry is either leased or free, and never both.
pub proof fn lemma_leased_or_free(leases: Seq<Option<usize>>)
    requires
        leases.len() <= usize::MAX,
    ensures
        leased(leases).finite(),
        leased_to(leases, None).len() + leased(leases).len() == leases.len(),
{
    lemma_below(leases.len());
    lemma_leased_to_bounded(leases, None);
    lemma_len_subset(leased(leases), below(leases.len()));
    lemma_set_disjoint_lens(leased_to(leases, None), leased(leases));
    assert(leased_to(leases, None) + leased(leases) =~= below(leases.len()));
}

/// A holder with as many leases as the table has entries holds them all.
pub proof fn lemma_holds_all(leases: Seq<Option<usize>>, holder: Option<usize>)
    requires
        leases.len() <= usize::MAX,
        leased_to(leases, holder).len() == leases.len(),
    ensures
        forall|i: int| 0 <= i < leases.len() ==> leases[i] == holder,
{
    lemma_below(leases.len());
    lemma_leased_to_bounded(leases, holder);
    lemma_subset_equality(leased_to(leases, holder), below(leases.len()));
    assert forall|i: int| 0 <= i < leases.len() implies leases[i] == holder by {
        assert(below(leases.len()).contains(i as usize));
        assert(leased_to(leases, holder).contains(i as usize));
    }
}

/// Changing one entry from `was` to `now` moves its index from one holder's
/// set to the other's and leaves every third holder's set alone.
pub proof fn lemma_lease_changes(leases: Seq<Option<usize>>, i: usize, now: Option<usize>)
    requires
        leases.len() <= usize::MAX,
        i < leases.len(),
        leases[i as int] != now,
    ensures
        leased_to(leases.update(i as int, now), now) == leased_to(leases, now).insert(i),
        leased_to(leases.update(i as int, now), now).len() == leased_to(leases, now).len() + 1,
        leased_to(leases.update(i as int, now), leases[i as int]) == leased_to(
            leases,
            leases[i as int],
        ).remove(i),
        leased_to(leases.update(i as int, now), leases[i as int]).len() == leased_to(
            leases,
            leases[i as int],
        ).len() - 1,
        forall|other: Option<usize>|
            other != now && other != leases[i as int] ==> #[trigger] leased_to(
                leases.update(i as int, now),
                other,
            ) == leased_to(leases, other),
{
    let was = leases[i as int];
    let after = leases.update(i as int, now);
    lemma_leased_to_bounded(leases, now);
    lemma_leased_to_bounded(leases, was);
    assert(leased_to(after, now) =~= leased_to(leases, now).insert(i));
    assert(leased_to(after, was) =~= leased_to(leases, was).remove(i));
    assert(leased_to(leases, was).contains(i));
    assert forall|other: Option<usize>| other != now && other != was implies #[trigger] leased_to(
        after,
        other,
    ) == leased_to(leases, other) by {
        assert(leased_to(after, other) =~= leased_to(leases, other));
    }
}

/// `leases_in_order` lists exactly the indices below `n` that are leased to
/// `h`, each once.
pub proof fn lemma_leases_in_order(leases: Seq<Option<usize>>, h: usize, n: nat)
    requires
        n <= leases.len() <= usize::MAX,
    ensures
        leases_in_order(leases, h, n).no_duplicates(),
        forall|i: usize| #[trigger]
            leases_in_order(leases, h, n).contains(i) <==> (i < n && leases[i as int] == Some(h)),
    decreases n,
{
    if n > 0 {
        let before = leases_in_order(leases, h, (n - 1) as nat);
        lemma_leases_in_order(leases, h, (n - 1) as nat);
        if leases[n - 1] == Some(h) {
            let last = (n - 1) as usize;
            let all = before.push(last);
            assert(!before.contains(last));
            assert forall|i: usize| #[trigger] all.contains(i) <==> (i < n && leases[i as int] == Some(h)) by {
                if all.contains(i) {
                    let k = choose|k: int| 0 <= k < all.len() && all[k] == i;
                    if k < before.len() {
                        assert(before[k] == i);
                        assert(before.contains(i));
                    }
                }
                if i < n && leases[i as int] == Some(h) {
                    if i == last {
                        assert(all[before.len() as int] == i);
                    } else {
                        assert(before.contains(i));
                        let k = choose|k: int| 0 <= k < before.len() && before[k] == i;
                        assert(all[k] == i);
                    }
                }
            }
            assert forall|a: int, b: int| 0 <= a < all.len() && 0 <= b < all.len() && a != b implies all[a] != all[b] by {
                if a < before.len() {
                    assert(before.contains(all[a]));
                }
                if b < before.len() {
                    assert(before.contains(all[b]));
                }
            }
        }
    }
}

/// A duplicate-free list of exactly the free indices has as many items as
/// there are free entries.
pub proof fn lemma_idle_counts_free(idle: Seq<usize>, leases: Seq<Option<usize>>)
    requires
        leases.len() <= usize::MAX,
        idle.no_duplicates(),
        forall|i: usize| #[trigger] idle.contains(i) <==> (i < leases.len() && leases[i as int] is None),
    ensures
        idle.to_set() == leased_to(leases, None),
        idle.len() == leased_to(leases, None).len(),
{
    idle.unique_seq_to_set();
    assert(idle.to_set() =~= leased_to(leases, None));
}

} // verus!
