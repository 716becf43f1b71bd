//! Stable sorting, as the order in which to take the elements of a list.

use vstd::prelude::*;

verus! {

/// Element `i` comes before element `j`: its key is smaller, or the keys are equal and it
/// stands earlier in the list.
pub open spec fn comes_before(keys: Seq<int>, i: int, j: int) -> bool {
    keys[i] < keys[j] || (keys[i] == keys[j] && i < j)
}

/// `order` lists every index into `keys`, by rising key, equal keys as they stand.
pub open spec fn sorts(order: Seq<int>, keys: Seq<int>) -> bool {
    &&& order.len() == keys.len()
    &&& forall|a: int| 0 <= a < order.len() ==> 0 <= #[trigger] order[a] < keys.len()
    &&& forall|i: int| 0 <= i < keys.len() ==> #[trigger] order.contains(i)
    &&& forall|a: int, b: int|
        0 <= a < b < order.len() ==> comes_before(keys, #[trigger] order[a], #[trigger] order[b])
}

/// The order in which a stable sort by rising key takes the elements.
pub open spec fn stable_order(keys: Seq<int>) -> Seq<int> {
    choose|order: Seq<int>| sorts(order, keys)
}

/// The elements of a list in the given order.
pub open spec fn taken<T>(list: Seq<T>, order: Seq<int>) -> Seq<T> {
    Seq::new(order.len(), |i: int| list[order[i]])
}

/// The numbers that a list of indices stands for.
pub open spec fn indices(list: Seq<usize>) -> Seq<int> {
    list.map_values(|i: usize| i as int)
}

/// The numbers that a list of keys stands for.
pub open spec fn key_values(list: Seq<i128>) -> Seq<int> {
    list.map_values(|k: i128| k as int)
}

/// There is only one order in which a stable sort can take the elements.
pub proof fn lemma_order_unique(a: Seq<int>, b: Seq<int>, keys: Seq<int>)
    requires
        sorts(a, keys),
        sorts(b, keys),
    ensures
        a == b,
        a == stable_order(keys),
{
    lemma_order_agrees(a, b, keys, keys.len() as int);
    assert(a =~= b);
    let c = stable_order(keys);
    assert(sorts(c, keys));
    lemma_order_agrees(a, c, keys, keys.len() as int);
    assert(a =~= c);
}

proof fn lemma_order_agrees(a: Seq<int>, b: Seq<int>, keys: Seq<int>, n: int)
    requires
        sorts(a, keys),
        sorts(b, keys),
        0 <= n <= keys.len(),
    ensures
        forall|k: int| 0 <= k < n ==> a[k] == b[k],
    decreases n,
{
    if n > 0 {
        lemma_order_agrees(a, b, keys, n - 1);
        let k = n - 1;
        if a[k] != b[k] {
            assert(b.contains(a[k]));
            assert(a.contains(b[k]));
            let m = choose|m: int| 0 <= m < b.len() && b[m] == a[k];
            let l = choose|l: int| 0 <= l < a.len() && a[l] == b[k];
            if m < k {
                assert(comes_before(keys, a[m], a[k]));
            } else if l < k {
                assert(comes_before(keys, b[l], b[k]));
            } else {
                assert(comes_before(keys, b[k], b[m]));
                assert(comes_before(keys, a[k], a[l]));
            }
        }
    }
}

/// Index `n`, put behind all indices with a key up to its own, keeps an order sorted.
proof fn lemma_inserted(order: Seq<int>, keys: Seq<int>, n: int, p: int)
    requires
        0 <= n < keys.len(),
        sorts(order, keys.take(n)),
        0 <= p <= n,
        forall|b: int| 0 <= b < p ==> keys[#[trigger] order[b]] <= keys[n],
        forall|b: int| p <= b < n ==> keys[#[trigger] order[b]] > keys[n],
    ensures
        sorts(order.insert(p, n), keys.take(n + 1)),
{
    let part = keys.take(n);
    let next = keys.take(n + 1);
    let longer = order.insert(p, n);
    assert forall|j: int| 0 <= j < next.len() implies #[trigger] longer.contains(j) by {
        if j == n {
            assert(longer[p] == j);
        } else {
            assert(order.contains(j));
            let a = choose|a: int| 0 <= a < order.len() && order[a] == j;
            if a < p {
                assert(longer[a] == j);
            } else {
                assert(longer[a + 1] == j);
            }
        }
    }
    assert forall|a: int, b: int| 0 <= a < b < longer.len() implies comes_before(
        next,
        #[trigger] longer[a],
        #[trigger] longer[b],
    ) by {
        let oa = if a < p {
            a
        } else {
            a - 1
        };
        let ob = if b < p {
            b
        } else {
            b - 1
        };
        if a != p && b != p {
            assert(comes_before(part, order[oa], order[ob]));
        } else if a == p {
            assert(longer[b] == order[ob]);
        } else {
            assert(longer[a] == order[oa]);
        }
    }
}

/// Every list can be sorted.
pub proof fn lemma_order_exists(keys: Seq<int>)
    ensures
        sorts(stable_order(keys), keys),
    decreases keys.len(),
{
    if keys.len() == 0 {
        assert(sorts(Seq::<int>::empty(), keys));
    } else {
        let n = keys.len() - 1;
        let part = keys.take(n);
        let order = stable_order(part);
        lemma_order_exists(part);
        let p = lemma_slot(order, keys, n, n);
        lemma_inserted(order, keys, n, p);
        assert(keys.take(n + 1) =~= keys);
        assert(sorts(order.insert(p, n), keys));
    }
}

/// The place of index `n` among the indices before it, looked for among the first `m`.
proof fn lemma_slot(order: Seq<int>, keys: Seq<int>, n: int, m: int) -> (p: int)
    requires
        0 <= n < keys.len(),
        sorts(order, keys.take(n)),
        0 <= m <= n,
        forall|b: int| m <= b < n ==> keys[#[trigger] order[b]] > keys[n],
    ensures
        0 <= p <= n,
        forall|b: int| 0 <= b < p ==> keys[#[trigger] order[b]] <= keys[n],
        forall|b: int| p <= b < n ==> keys[#[trigger] order[b]] > keys[n],
    decreases m,
{
    if m == 0 {
        0
    } else if keys[order[m - 1]] > keys[n] {
        lemma_slot(order, keys, n, m - 1)
    } else {
        assert forall|b: int| 0 <= b < m implies keys[#[trigger] order[b]] <= keys[n] by {
            if b < m - 1 {
                assert(comes_before(keys.take(n), order[b], order[m - 1]));
            }
        }
        m
    }
}

/// The order in which a stable sort by rising key takes the elements with the given keys.
pub fn sort_order(keys: &Vec<i128>) -> (order: Vec<usize>)
    ensures
        sorts(indices(order@), key_values(keys@)),
        indices(order@) == stable_order(key_values(keys@)),
{
    let ghost all = key_values(keys@);
    let mut order: Vec<usize> = Vec::new();
    let mut i: usize = 0;
    while i < keys.len()
        invariant
            i <= keys.len(),
            all == key_values(keys@),
            sorts(indices(order@), all.take(i as int)),
        decreases keys.len() - i,
    {
        let ghost part = all.take(i as int);
        let ghost old_order = indices(order@);
        assert forall|a: int| 0 <= a < order.len() implies #[trigger] order[a] < keys.len() by {
            assert(old_order[a] == order[a]);
        }
        let mut p: usize = order.len();
        while p > 0 && keys[order[p - 1]] > keys[i]
            invariant
                p <= order.len(),
                i < keys.len(),
                all == key_values(keys@),
                part == all.take(i as int),
                old_order == indices(order@),
                sorts(old_order, part),
                forall|a: int| 0 <= a < order.len() ==> #[trigger] order[a] < keys.len(),
                forall|b: int|
                    p <= b < order.len() ==> all[#[trigger] old_order[b]] > all[i as int],
            decreases p,
        {
            assert(old_order[p - 1] == order[p - 1]);
            p = p - 1;
        }
        order.insert(p, i);
        proof {
            assert(indices(order@) =~= old_order.insert(p as int, i as int));
            assert forall|b: int| 0 <= b < p implies all[#[trigger] old_order[b]]
                <= all[i as int] by {
                assert(order@[p - 1] == old_order[p - 1]);
                if b < p - 1 {
                    assert(comes_before(part, old_order[b], old_order[p - 1]));
                }
            }
            lemma_inserted(old_order, all, i as int, p as int);
        }
        i = i + 1;
    }
    proof {
        assert(all.take(i as int) =~= all);
        lemma_order_unique(indices(order@), indices(order@), all);
    }
    order
}

} // verus!
