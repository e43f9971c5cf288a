//! Stable ordering of indices by integer keys.
//!
//! Events are taken in tick order and patterns in quality order; both are
//! stable orderings: entries with equal keys keep the order they came in.

use vstd::prelude::*;

verus! {

/// Where an entry with key `k` goes into `order`, scanning from position
/// `from`: just before the first entry whose key exceeds `k`, else at the end.
pub open spec fn insert_position(keys: Seq<u32>, order: Seq<usize>, k: u32, from: int) -> int
    decreases order.len() - from,
{
    if from >= order.len() {
        order.len() as int
    } else if keys[order[from] as int] > k {
        from
    } else {
        insert_position(keys, order, k, from + 1)
    }
}

/// The indices `0..n` ordered by key, smallest first, equal keys in index
/// order: each index in turn goes after every earlier index whose key is
/// not larger than its own.
pub open spec fn order_prefix(keys: Seq<u32>, n: nat) -> Seq<usize>
    decreases n,
{
    if n == 0 {
        Seq::empty()
    } else {
        let prev = order_prefix(keys, (n - 1) as nat);
        prev.insert(insert_position(keys, prev, keys[n - 1], 0), (n - 1) as usize)
    }
}

/// All indices of `keys`, ordered by key, ties in index order.
pub open spec fn stable_order(keys: Seq<u32>) -> Seq<usize> {
    order_prefix(keys, keys.len())
}

/// `order` lists each of the indices `0..n` exactly once.
pub open spec fn lists_each_index_once(order: Seq<usize>, n: nat) -> bool {
    &&& order.len() == n
    &&& forall|i: int| 0 <= i < n ==> #[trigger] order[i] < n
    &&& forall|i: int, j: int| 0 <= i < j < n ==> order[i] != order[j]
}

/// Index `i` appears somewhere in `order`.
pub open spec fn appears_in(order: Seq<usize>, i: int) -> bool {
    exists|j: int| 0 <= j < order.len() && order[j] == i
}

/// Along `order`, keys never decrease.
pub open spec fn keys_ascend(keys: Seq<u32>, order: Seq<usize>) -> bool {
    forall|i: int, j: int|
        0 <= i < j < order.len() ==> keys[order[i] as int] <= keys[order[j] as int]
}

/// Along `order`, entries with equal keys appear in index order.
pub open spec fn ties_keep_index_order(keys: Seq<u32>, order: Seq<usize>) -> bool {
    forall|i: int, j: int|
        0 <= i < j < order.len() && keys[order[i] as int] == keys[order[j] as int] ==> order[i]
            < order[j]
}

proof fn lemma_insert_position(keys: Seq<u32>, order: Seq<usize>, k: u32, from: int)
    requires
        0 <= from <= order.len(),
        keys_ascend(keys, order),
    ensures
        from <= insert_position(keys, order, k, from) <= order.len(),
        forall|j: int|
            from <= j < insert_position(keys, order, k, from) ==> keys[order[j] as int] <= k,
        forall|j: int|
            insert_position(keys, order, k, from) <= j < order.len() ==> keys[order[j] as int] > k,
    decreases order.len() - from,
{
    if from < order.len() {
        if keys[order[from] as int] <= k {
            lemma_insert_position(keys, order, k, from + 1);
        } else {
            assert forall|j: int| from <= j < order.len() implies keys[order[j] as int] > k by {
                if from < j {
                    assert(keys[order[from] as int] <= keys[order[j] as int]);
                }
            }
        }
    }
}

/// The indices `0..n` ordered by [`order_prefix`] are each listed once, their
/// keys ascend, and equal keys keep index order.
pub proof fn lemma_order_prefix(keys: Seq<u32>, n: nat)
    requires
        n <= keys.len(),
        keys.len() <= usize::MAX + 1,
    ensures
        lists_each_index_once(order_prefix(keys, n), n),
        keys_ascend(keys, order_prefix(keys, n)),
        ties_keep_index_order(keys, order_prefix(keys, n)),
        forall|i: int| 0 <= i < n ==> #[trigger] appears_in(order_prefix(keys, n), i),
    decreases n,
{
    if n > 0 {
        let m = (n - 1) as nat;
        let prev = order_prefix(keys, m);
        lemma_order_prefix(keys, m);
        let k = keys[m as int];
        let p = insert_position(keys, prev, k, 0);
        lemma_insert_position(keys, prev, k, 0);
        let next = prev.insert(p, m as usize);
        prev.insert_ensures(p, m as usize);
        assert(next == order_prefix(keys, n));
        assert forall|i: int| 0 <= i < n implies #[trigger] appears_in(next, i) by {
            if i == m {
                assert(next[p] == m);
            } else {
                assert(appears_in(prev, i));
                let j = choose|j: int| 0 <= j < prev.len() && prev[j] == i;
                if j < p {
                    assert(next[j] == i);
                } else {
                    assert(next[j + 1] == i);
                }
            }
        }
        assert forall|i: int| 0 <= i < n implies #[trigger] next[i] < n by {
            if i > p {
                assert(next[i] == prev[i - 1]);
            }
        }
        assert forall|i: int, j: int| 0 <= i < j < n implies next[i] != next[j] by {
            if i < p && j < p {
            } else if i < p && j == p {
            } else if i < p && j > p {
                assert(next[j] == prev[j - 1]);
            } else if i == p {
                assert(next[j] == prev[j - 1]);
            } else {
                assert(next[i] == prev[i - 1]);
                assert(next[j] == prev[j - 1]);
            }
        }
        assert forall|i: int, j: int| 0 <= i < j < next.len() implies keys[next[i] as int]
            <= keys[next[j] as int] by {
            if i < p && j < p {
            } else if i < p && j == p {
            } else if i < p && j > p {
                assert(next[j] == prev[j - 1]);
            } else if i == p {
                assert(next[j] == prev[j - 1]);
            } else {
                assert(next[i] == prev[i - 1]);
                assert(next[j] == prev[j - 1]);
            }
        }
        assert forall|i: int, j: int|
            0 <= i < j < next.len() && keys[next[i] as int] == keys[next[j] as int] implies next[i]
            < next[j] by {
            if i < p && j < p {
            } else if i < p && j == p {
            } else if i < p && j > p {
                assert(next[j] == prev[j - 1]);
            } else if i == p {
                assert(next[j] == prev[j - 1]);
            } else {
                assert(next[i] == prev[i - 1]);
                assert(next[j] == prev[j - 1]);
            }
        }
    }
}

/// The indices of `keys` ordered by key, smallest first; entries with equal
/// keys keep their index order.
pub fn stable_order_by_key(keys: &Vec<u32>) -> (order: Vec<usize>)
    ensures
        order@ == stable_order(keys@),
        lists_each_index_once(order@, keys@.len()),
        forall|i: int| 0 <= i < keys@.len() ==> #[trigger] appears_in(order@, i),
        keys_ascend(keys@, order@),
        ties_keep_index_order(keys@, order@),
{
    proof {
        assert(keys@.len() == keys.len());
        lemma_order_prefix(keys@, keys@.len());
    }
    let n = keys.len();
    let mut order: Vec<usize> = Vec::new();
    let mut i: usize = 0;
    while i < n
        invariant
            i <= n,
            n == keys.len(),
            order@ == order_prefix(keys@, i as nat),
        decreases n - i,
    {
        proof {
            lemma_order_prefix(keys@, i as nat);
        }
        let k = keys[i];
        let mut p: usize = 0;
        while p < order.len() && keys[order[p]] <= k
            invariant
                p <= order.len(),
                order.len() == i,
                i < n,
                n == keys.len(),
                forall|j: int| 0 <= j < order.len() ==> #[trigger] order@[j] < i,
                insert_position(keys@, order@, k, 0) == insert_position(keys@, order@, k, p as int),
            decreases order.len() - p,
        {
            p += 1;
        }
        order.insert(p, i);
        i += 1;
    }
    order
}

/// Keys that order the largest quality first: each quality key subtracted
/// from the largest key.
pub open spec fn descending_keys(qualities: Seq<u32>) -> Seq<u32> {
    qualities.map_values(|q: u32| (u32::MAX - q) as u32)
}

/// The indices of `qualities` from the highest key to the lowest; entries
/// with equal keys keep their index order.
///
/// A quality is handed in as the bit pattern of a non-negative IEEE-754
/// single, whose unsigned order is the order of the values themselves.
pub fn rank_by_quality(qualities: &Vec<u32>) -> (order: Vec<usize>)
    ensures
        order@ == stable_order(descending_keys(qualities@)),
        lists_each_index_once(order@, qualities@.len()),
        forall|i: int| 0 <= i < qualities@.len() ==> #[trigger] appears_in(order@, i),
        forall|i: int, j: int|
            0 <= i < j < order@.len() ==> qualities@[order@[i] as int] >= qualities@[order@[j] as int],
        forall|i: int, j: int|
            0 <= i < j < order@.len() && qualities@[order@[i] as int] == qualities@[order@[j] as int]
                ==> order@[i] < order@[j],
{
    proof {
        assert(qualities@.len() == qualities.len());
        law_rank_by_quality(qualities@);
    }
    let mut keys: Vec<u32> = Vec::new();
    let mut i: usize = 0;
    while i < qualities.len()
        invariant
            i <= qualities.len(),
            keys@ == descending_keys(qualities@.take(i as int)),
        decreases qualities.len() - i,
    {
        keys.push(u32::MAX - qualities[i]);
        i += 1;
        assert(keys@ == descending_keys(qualities@.take(i as int)));
    }
    assert(qualities@.take(qualities.len() as int) == qualities@);
    stable_order_by_key(&keys)
}

/// Ranking by quality lists every pattern once, from the highest quality
/// to the lowest, equal qualities in the order they came in.
pub proof fn law_rank_by_quality(qualities: Seq<u32>)
    requires
        qualities.len() <= usize::MAX,
    ensures
        lists_each_index_once(stable_order(descending_keys(qualities)), qualities.len()),
        forall|i: int|
            0 <= i < qualities.len() ==> #[trigger] appears_in(
                stable_order(descending_keys(qualities)),
                i,
            ),
        forall|i: int, j: int|
            0 <= i < j < qualities.len() ==> qualities[stable_order(
                descending_keys(qualities),
            )[i] as int] >= qualities[stable_order(descending_keys(qualities))[j] as int],
        forall|i: int, j: int|
            0 <= i < j < qualities.len() && qualities[stable_order(
                descending_keys(qualities),
            )[i] as int] == qualities[stable_order(descending_keys(qualities))[j] as int]
                ==> stable_order(descending_keys(qualities))[i] < stable_order(
                descending_keys(qualities),
            )[j],
{
    let keys = descending_keys(qualities);
    lemma_order_prefix(keys, keys.len());
    let o = stable_order(keys);
    assert forall|i: int, j: int| 0 <= i < j < qualities.len() implies qualities[o[i] as int]
        >= qualities[o[j] as int] by {
        assert(keys[o[i] as int] <= keys[o[j] as int]);
    }
    assert forall|i: int, j: int|
        0 <= i < j < qualities.len() && qualities[o[i] as int] == qualities[o[j] as int] implies o[i]
        < o[j] by {
        assert(keys[o[i] as int] == keys[o[j] as int]);
    }
}


} // verus!
