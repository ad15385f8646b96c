//! Stable ordering of scored items.

use vstd::prelude::*;

verus! {

/// An item with the score by which it is ordered.
pub type Scored = (u64, u64);

/// `perm` and `inv` are rearrangements of the positions below `n` that undo
/// each other.
pub open spec fn rearrangement(perm: Seq<int>, inv: Seq<int>, n: int) -> bool {
    &&& perm.len() == n
    &&& inv.len() == n
    &&& forall|k: int| 0 <= k < n ==> 0 <= #[trigger] perm[k] < n && inv[perm[k]] == k
    &&& forall|k: int| 0 <= k < n ==> 0 <= #[trigger] inv[k] < n && perm[inv[k]] == k
}

/// Position `a` comes before position `b`: its score is lower, or the
/// scores are equal and it came first before the sort.
pub open spec fn before_in(s: Seq<Scored>, perm: Seq<int>, a: int, b: int) -> bool {
    s[a].0 < s[b].0 || (s[a].0 == s[b].0 && perm[a] < perm[b])
}

/// `after` holds the entries of `before`, lower scores first, entries of
/// equal score in the order they had; `perm` tells where each entry was.
pub open spec fn sorted_by(before: Seq<Scored>, after: Seq<Scored>, perm: Seq<int>, inv: Seq<int>) -> bool {
    &&& after.len() == before.len()
    &&& rearrangement(perm, inv, before.len() as int)
    &&& forall|k: int| 0 <= k < after.len() ==> #[trigger] after[k] == before[perm[k]]
    &&& forall|a: int, b: int| 0 <= a < b < after.len() ==> before_in(after, perm, a, b)
}

/// `after` is `before` sorted stably by score.
pub open spec fn stably_sorted(before: Seq<Scored>, after: Seq<Scored>) -> bool {
    exists|perm: Seq<int>, inv: Seq<int>| sorted_by(before, after, perm, inv)
}

/// Sorts the entries by score, lowest first; entries of equal score keep
/// their order.
pub fn stable_sort(entries: &mut Vec<Scored>)
    ensures
        stably_sorted(old(entries)@, final(entries)@),
{
    let ghost orig = entries@;
    let n = entries.len();
    let ghost mut perm: Seq<int> = Seq::new(n as nat, |k: int| k);
    let ghost mut inv: Seq<int> = Seq::new(n as nat, |k: int| k);
    let mut i: usize = 0;
    while i < n
        invariant
            i <= n,
            n == orig.len(),
            entries@.len() == n,
            rearrangement(perm, inv, n as int),
            forall|k: int| 0 <= k < n ==> #[trigger] entries@[k] == orig[perm[k]],
            forall|k: int| i <= k < n ==> #[trigger] perm[k] == k,
            forall|k: int| 0 <= k < i ==> #[trigger] perm[k] < i,
            forall|a: int, b: int| 0 <= a < b < i ==> before_in(entries@, perm, a, b),
        decreases n - i,
    {
        let mut j: usize = i;
        while j > 0 && entries[j - 1].0 > entries[j].0
            invariant
                i < n,
                j <= i,
                n == orig.len(),
                entries@.len() == n,
                rearrangement(perm, inv, n as int),
                forall|k: int| 0 <= k < n ==> #[trigger] entries@[k] == orig[perm[k]],
                forall|k: int| i < k < n ==> #[trigger] perm[k] == k,
                forall|k: int| 0 <= k <= i ==> #[trigger] perm[k] <= i,
                perm[j as int] == i,
                forall|a: int, b: int|
                    0 <= a < b <= i && a != j && b != j ==> before_in(entries@, perm, a, b),
                forall|b: int| j < b <= i ==> before_in(entries@, perm, j as int, b),
            decreases j,
        {
            let x = entries[j - 1];
            let y = entries[j];
            let ghost entries_before = entries@;
            let ghost perm_before = perm;
            entries.set(j - 1, y);
            entries.set(j, x);
            proof {
                let pj = perm[j as int];
                let pi = perm[j as int - 1];
                perm = perm.update(j as int - 1, pj).update(j as int, pi);
                inv = inv.update(pj, j as int - 1).update(pi, j as int);
                assert forall|k: int| 0 <= k < n implies 0 <= #[trigger] perm[k] < n && inv[perm[k]]
                    == k by {
                    assert(0 <= perm_before[k] < n);
                }
                assert forall|k: int| 0 <= k < n implies 0 <= #[trigger] inv[k] < n && perm[inv[k]]
                    == k by {
                    if k != pj && k != pi {
                        let c = inv[k];
                        assert(perm_before[c] == k);
                    }
                }
                assert forall|a: int, b: int|
                    0 <= a < b <= i && a != j - 1 && b != j - 1 implies before_in(
                    entries@,
                    perm,
                    a,
                    b,
                ) by {
                    if a == j as int {
                        assert(before_in(entries_before, perm_before, j as int - 1, b));
                    } else if b == j as int {
                        assert(before_in(entries_before, perm_before, a, j as int - 1));
                    } else {
                        assert(before_in(entries_before, perm_before, a, b));
                    }
                }
                let jm = j as int - 1;
                assert forall|b: int| jm < b <= i implies #[trigger] before_in(
                    entries@,
                    perm,
                    jm,
                    b,
                ) by {
                    if b > j as int {
                        assert(before_in(entries_before, perm_before, j as int, b));
                    }
                }
            }
            j -= 1;
        }
        proof {
            assert forall|a: int, b: int| 0 <= a < b < i + 1 implies before_in(
                entries@,
                perm,
                a,
                b,
            ) by {
                if b == j as int {
                    // `a` precedes the entry just before the inserted one, or is it
                    assert(perm[a] <= i);
                    assert(inv[perm[a]] == a);
                    assert(inv[perm[j as int]] == j as int);
                    if a < j - 1 {
                        assert(before_in(entries@, perm, a, j as int - 1));
                    }
                }
            }
        }
        i += 1;
    }
    proof {
        assert(sorted_by(orig, entries@, perm, inv));
    }
}

} // verus!
