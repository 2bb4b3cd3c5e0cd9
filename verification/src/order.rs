//! Stable ordering of positions by an integer key (a time stamp), shared by
//! everything that lists commits or merge storms oldest first.

use vstd::prelude::*;

verus! {

/// Position `a` comes before position `b`: smaller key, or the same key and
/// earlier position.
pub open spec fn key_before(keys: Seq<i64>, a: int, b: int) -> bool {
    keys[a] < keys[b] || (keys[a] == keys[b] && a < b)
}

/// `perm` lists every position of `keys` once, by key, keeping the order of
/// positions with equal keys (a stable sort).
pub open spec fn is_key_order(keys: Seq<i64>, perm: Seq<int>) -> bool {
    &&& perm.len() == keys.len()
    &&& forall|k: int| 0 <= k < perm.len() ==> 0 <= #[trigger] perm[k] < keys.len()
    &&& perm.no_duplicates()
    &&& forall|a: int, b: int| 0 <= a < b < perm.len() ==> key_before(keys, #[trigger] perm[a], #[trigger] perm[b])
}

/// The items of `s` taken in the order `perm` gives.
pub open spec fn reorder<A>(s: Seq<A>, perm: Seq<int>) -> Seq<A> {
    Seq::new(perm.len(), |k: int| s[perm[k]])
}

/// The keys never decrease.
pub open spec fn keys_sorted(keys: Seq<i64>) -> bool {
    forall|a: int, b: int| 0 <= a <= b < keys.len() ==> keys[a] <= keys[b]
}

/// The positions of `keys` in stable key order.
pub fn stable_key_order(keys: &Vec<i64>) -> (idx: Vec<usize>)
    ensures
        is_key_order(keys@, idx@.map_values(|x: usize| x as int)),
{
    let n = keys.len();
    let mut idx: Vec<usize> = Vec::new();
    let mut i: usize = 0;
    while i < n
        invariant
            n == keys@.len(),
            i <= n,
            idx@.len() == i,
            forall|k: int| 0 <= k < idx@.len() ==> #[trigger] idx@[k] < i,
            forall|a: int, b: int| 0 <= a < idx@.len() && 0 <= b < idx@.len() && a != b ==> #[trigger] idx@[a] != #[trigger] idx@[b],
            forall|a: int, b: int| 0 <= a < b < idx@.len() ==> key_before(keys@, #[trigger] idx@[a] as int, #[trigger] idx@[b] as int),
        decreases n - i,
    {
        let t = keys[i];
        let mut p: usize = 0;
        while p < idx.len() && keys[idx[p]] <= t
            invariant
                n == keys@.len(),
                i < n,
                t == keys@[i as int],
                p <= idx@.len(),
                forall|k: int| 0 <= k < idx@.len() ==> #[trigger] idx@[k] < i,
                forall|k: int| 0 <= k < p ==> keys@[#[trigger] idx@[k] as int] <= t,
            decreases idx.len() - p,
        {
            p = p + 1;
        }
        let ghost old_idx = idx@;
        proof {
            if p < idx@.len() {
                assert(keys@[idx@[p as int] as int] > t);
                assert forall|k: int| p <= k < idx@.len() implies keys@[#[trigger] idx@[k] as int] > t by {
                    if k > p {
                        assert(key_before(keys@, idx@[p as int] as int, idx@[k] as int));
                    }
                }
            }
        }
        idx.insert(p, i);
        proof {
            assert forall|k: int| 0 <= k < idx@.len() implies #[trigger] idx@[k] == (if k < p { old_idx[k] } else if k == p { i } else { old_idx[k - 1] }) by {}
            assert forall|a: int, b: int| 0 <= a < b < idx@.len() implies key_before(keys@, #[trigger] idx@[a] as int, #[trigger] idx@[b] as int) by {
                if b == p {
                    assert(keys@[old_idx[a] as int] <= t);
                    assert(old_idx[a] < i);
                } else if a == p {
                    assert(keys@[old_idx[b - 1] as int] > t);
                } else if a < p && b > p {
                    assert(key_before(keys@, old_idx[a] as int, old_idx[b - 1] as int));
                } else if b < p {
                    assert(key_before(keys@, old_idx[a] as int, old_idx[b] as int));
                } else {
                    assert(key_before(keys@, old_idx[a - 1] as int, old_idx[b - 1] as int));
                }
            }
            assert forall|a: int, b: int| 0 <= a < idx@.len() && 0 <= b < idx@.len() && a != b implies #[trigger] idx@[a] != #[trigger] idx@[b] by {
                if a != p && b != p {
                    let a2 = if a < p { a } else { a - 1 };
                    let b2 = if b < p { b } else { b - 1 };
                    assert(idx@[a] == old_idx[a2]);
                    assert(idx@[b] == old_idx[b2]);
                } else if a == p {
                    let b2 = if b < p { b } else { b - 1 };
                    assert(idx@[b] == old_idx[b2]);
                } else {
                    let a2 = if a < p { a } else { a - 1 };
                    assert(idx@[a] == old_idx[a2]);
                }
            }
        }
        i = i + 1;
    }
    proof {
        let perm = idx@.map_values(|x: usize| x as int);
        assert(perm.no_duplicates()) by {
            assert forall|a: int, b: int| 0 <= a < perm.len() && 0 <= b < perm.len() && a != b implies perm[a] != perm[b] by {
                assert(idx@[a] != idx@[b]);
            }
        }
        assert forall|a: int, b: int| 0 <= a < b < perm.len() implies key_before(keys@, #[trigger] perm[a], #[trigger] perm[b]) by {
            assert(perm[a] == idx@[a] as int);
            assert(perm[b] == idx@[b] as int);
        }
    }
    idx
}

/// A strictly increasing sequence of `n` positions below `n` is `0, 1, ..., n - 1`.
proof fn lemma_increasing_positions(perm: Seq<int>, k: int)
    requires
        forall|j: int| 0 <= j < perm.len() ==> 0 <= #[trigger] perm[j] < perm.len(),
        forall|a: int, b: int| 0 <= a < b < perm.len() ==> #[trigger] perm[a] < #[trigger] perm[b],
        0 <= k < perm.len(),
    ensures
        k <= perm[k] <= k + (perm.len() - 1 - perm[perm.len() - 1]),
    decreases perm.len() - k,
{
    lemma_increasing_from_start(perm, k);
    if k < perm.len() - 1 {
        lemma_increasing_positions(perm, k + 1);
        assert(perm[k] < perm[k + 1]);
    }
}

/// A strictly increasing sequence of non-negative positions has `perm[k] >= k`.
proof fn lemma_increasing_from_start(perm: Seq<int>, k: int)
    requires
        forall|j: int| 0 <= j < perm.len() ==> 0 <= #[trigger] perm[j] < perm.len(),
        forall|a: int, b: int| 0 <= a < b < perm.len() ==> #[trigger] perm[a] < #[trigger] perm[b],
        0 <= k < perm.len(),
    ensures
        k <= perm[k],
    decreases k,
{
    if k > 0 {
        lemma_increasing_from_start(perm, k - 1);
        assert(perm[k - 1] < perm[k]);
    }
}

/// When the keys never decrease, the stable key order leaves every position
/// where it is.
pub proof fn lemma_sorted_keys_keep_order(keys: Seq<i64>, perm: Seq<int>)
    requires
        keys_sorted(keys),
        is_key_order(keys, perm),
    ensures
        forall|k: int| 0 <= k < perm.len() ==> #[trigger] perm[k] == k,
{
    assert forall|a: int, b: int| 0 <= a < b < perm.len() implies #[trigger] perm[a] < #[trigger] perm[b] by {
        assert(key_before(keys, perm[a], perm[b]));
        if perm[a] > perm[b] {
            assert(keys[perm[b]] <= keys[perm[a]]);
        }
    }
    assert forall|k: int| 0 <= k < perm.len() implies #[trigger] perm[k] == k by {
        lemma_increasing_positions(perm, k);
        lemma_increasing_from_start(perm, perm.len() - 1);
    }
}

} // verus!
