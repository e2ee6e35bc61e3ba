//! Stable ordering of entries by a descending key: the order in which the
//! interface list and the application list are shown, busiest first.
use vstd::prelude::*;

verus! {

/// Where an entry with key `k` goes in `order`, a list of indices into
/// `keys` already ordered by descending key: after every entry whose key is at
/// least `k`.
pub open spec fn insert_pos(order: Seq<usize>, keys: Seq<u128>, k: u128) -> nat
    decreases order.len(),
{
    if order.len() == 0 {
        0
    } else if keys[order[0] as int] >= k {
        1 + insert_pos(order.drop_first(), keys, k)
    } else {
        0
    }
}

/// The indices `0..n` of `keys`, ordered by descending key, equal keys in
/// their original order: what a stable sort by descending key yields.
pub open spec fn ranked(keys: Seq<u128>, n: nat) -> Seq<usize>
    decreases n,
{
    if n == 0 {
        Seq::empty()
    } else {
        let o = ranked(keys, (n - 1) as nat);
        o.insert(insert_pos(o, keys, keys[n - 1]) as int, (n - 1) as usize)
    }
}

/// The ranking is sorted by descending key.
pub open spec fn sorted_desc(order: Seq<usize>, keys: Seq<u128>) -> bool {
    forall|a: int, b: int|
        0 <= a < b < order.len() ==> keys[order[a] as int] >= keys[order[b] as int]
}

/// The ranking lists each of the indices `0..n` exactly once.
pub open spec fn permutes(order: Seq<usize>, n: nat) -> bool {
    &&& order.len() == n
    &&& forall|a: int| 0 <= a < order.len() ==> order[a] < n
    &&& forall|a: int, b: int| 0 <= a < b < order.len() ==> order[a] != order[b]
}

/// Entries with equal keys keep their original relative order.
pub open spec fn stable(order: Seq<usize>, keys: Seq<u128>) -> bool {
    forall|a: int, b: int|
        0 <= a < b < order.len() && keys[order[a] as int] == keys[order[b] as int] ==> order[a]
            < order[b]
}

/// Index `j` appears in `order`.
pub open spec fn lists(order: Seq<usize>, j: int) -> bool {
    exists|k: int| 0 <= k < order.len() && #[trigger] order[k] == j
}

/// A permutation of `0..n` lists every one of those indices.
pub proof fn lemma_permutes_onto(order: Seq<usize>, n: nat)
    requires
        permutes(order, n),
    ensures
        forall|j: int| 0 <= j < n ==> #[trigger] lists(order, j),
{
    assert forall|j: int| 0 <= j < n implies #[trigger] lists(order, j) by {
        if !(exists|k: int| 0 <= k < order.len() && #[trigger] order[k] == j) {
            let ints = order.map_values(|v: usize| v as int);
            assert(ints.no_duplicates()) by {
                assert forall|a: int, b: int| 0 <= a < ints.len() && 0 <= b < ints.len() && a != b
                    implies ints[a] != ints[b] by {
                    if a < b {
                        assert(order[a] != order[b]);
                    } else {
                        assert(order[b] != order[a]);
                    }
                }
            }
            ints.unique_seq_to_set();
            let values = ints.to_set();
            let range = vstd::set_lib::set_int_range(0, n as int).remove(j);
            assert(values.subset_of(range)) by {
                assert forall|v: int| values.contains(v) implies range.contains(v) by {
                    let k = choose|k: int| 0 <= k < ints.len() && ints[k] == v;
                    assert(order[k] != j);
                }
            }
            vstd::set_lib::lemma_int_range(0, n as int);
            vstd::set_lib::lemma_len_subset(values, range);
            assert(false);
        }
    }
}

proof fn lemma_insert_pos(order: Seq<usize>, keys: Seq<u128>, k: u128, p: int)
    requires
        0 <= p <= order.len(),
        forall|j: int| 0 <= j < p ==> keys[order[j] as int] >= k,
        p == order.len() || keys[order[p] as int] < k,
    ensures
        insert_pos(order, keys, k) == p,
    decreases order.len(),
{
    if order.len() > 0 && p > 0 {
        let rest = order.drop_first();
        assert forall|j: int| 0 <= j < p - 1 implies keys[rest[j] as int] >= k by {
            assert(rest[j] == order[j + 1]);
        }
        if p < order.len() {
            assert(rest[p - 1] == order[p]);
        }
        lemma_insert_pos(rest, keys, k, p - 1);
    }
}

/// A ranking of `keys` is a sorted, stable permutation of their indices.
pub proof fn lemma_ranked(keys: Seq<u128>, n: nat)
    requires
        n <= keys.len() <= usize::MAX,
    ensures
        permutes(ranked(keys, n), n),
        sorted_desc(ranked(keys, n), keys),
        stable(ranked(keys, n), keys),
    decreases n,
{
    if n > 0 {
        let o = ranked(keys, (n - 1) as nat);
        lemma_ranked(keys, (n - 1) as nat);
        let k = keys[n - 1];
        let p = insert_pos(o, keys, k) as int;
        lemma_insert_pos_bounds(o, keys, k);
        let r = o.insert(p, (n - 1) as usize);
        assert(r == ranked(keys, n));
        assert forall|a: int| 0 <= a < r.len() implies r[a] < n by {
            if a < p {
                assert(r[a] == o[a]);
            } else if a > p {
                assert(r[a] == o[a - 1]);
            }
        }
        assert forall|a: int, b: int| 0 <= a < b < r.len() implies r[a] != r[b] by {
            if a < p && b < p {
                assert(r[a] == o[a] && r[b] == o[b]);
            } else if a < p && b == p {
                assert(r[a] == o[a]);
            } else if a < p && b > p {
                assert(r[a] == o[a] && r[b] == o[b - 1]);
            } else if a == p {
                assert(r[b] == o[b - 1]);
            } else {
                assert(r[a] == o[a - 1] && r[b] == o[b - 1]);
            }
        }
        assert forall|a: int, b: int| 0 <= a < b < r.len() implies keys[r[a] as int]
            >= keys[r[b] as int] && (keys[r[a] as int] == keys[r[b] as int] ==> r[a] < r[b]) by {
            if a < p && b < p {
                assert(r[a] == o[a] && r[b] == o[b]);
            } else if a < p && b == p {
                assert(r[a] == o[a]);
            } else if a < p && b > p {
                assert(r[a] == o[a] && r[b] == o[b - 1]);
            } else if a == p {
                assert(r[b] == o[b - 1]);
                assert(keys[o[p] as int] < k);
                if b - 1 > p {
                    assert(keys[o[p] as int] >= keys[o[b - 1] as int]);
                }
            } else {
                assert(r[a] == o[a - 1] && r[b] == o[b - 1]);
            }
        }
    }
}

proof fn lemma_insert_pos_bounds(order: Seq<usize>, keys: Seq<u128>, k: u128)
    ensures
        insert_pos(order, keys, k) <= order.len(),
        forall|j: int|
            0 <= j < insert_pos(order, keys, k) ==> keys[order[j] as int] >= k,
        insert_pos(order, keys, k) < order.len() ==> keys[order[insert_pos(
            order,
            keys,
            k,
        ) as int] as int] < k,
    decreases order.len(),
{
    if order.len() > 0 && keys[order[0] as int] >= k {
        let rest = order.drop_first();
        lemma_insert_pos_bounds(rest, keys, k);
        assert forall|j: int| 0 <= j < insert_pos(order, keys, k) implies keys[order[j] as int]
            >= k by {
            if j > 0 {
                assert(order[j] == rest[j - 1]);
            }
        }
    }
}

/// The indices of `keys` in a stable order of descending key.
pub fn rank_desc(keys: &Vec<u128>) -> (order: Vec<usize>)
    ensures
        order@ == ranked(keys@, keys@.len()),
{
    let n = keys.len();
    let mut order: Vec<usize> = Vec::new();
    for i in 0..n
        invariant
            n == keys@.len(),
            order@ == ranked(keys@, i as nat),
            permutes(order@, i as nat),
    {
        proof {
            lemma_ranked(keys@, i as nat);
        }
        let k = keys[i];
        let mut p: usize = 0;
        while p < order.len() && keys[order[p]] >= k
            invariant
                n == keys@.len(),
                i < n,
                permutes(order@, i as nat),
                p <= order@.len(),
                forall|j: int| 0 <= j < p ==> keys@[order@[j] as int] >= k,
            decreases order@.len() - p,
        {
            p = p + 1;
        }
        proof {
            lemma_insert_pos(order@, keys@, k, p as int);
        }
        order.insert(p, i);
        proof {
            lemma_ranked(keys@, (i + 1) as nat);
        }
    }
    order
}

} // verus!
