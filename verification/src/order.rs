//! The order in which entries are shown: by a key, largest first.
use vstd::prelude::*;

verus! {

/// How many of the first `n` indices in `order` have a key above `key`, counted up to the
/// first that has not.
pub open spec fn rank(keys: Seq<int>, order: Seq<int>, key: int, n: nat) -> nat
    decreases order.len() - n,
{
    if n >= order.len() || keys[order[n as int]] <= key {
        n
    } else {
        rank(keys, order, key, n + 1)
    }
}

/// The indices of the first `n` keys, in the order in which their entries are shown: each
/// stands before those that came earlier and whose key is not above its own.
pub open spec fn order_of_first(keys: Seq<int>, n: nat) -> Seq<int>
    decreases n,
{
    if n == 0 {
        Seq::empty()
    } else {
        let before = order_of_first(keys, (n - 1) as nat);
        before.insert(rank(keys, before, keys[n - 1], 0) as int, n - 1)
    }
}

/// The indices of the keys, in the order in which their entries are shown.
pub open spec fn display_order(keys: Seq<int>) -> Seq<int> {
    order_of_first(keys, keys.len())
}

/// Whether entry `a` is shown before entry `b`: its key is larger, or the same and it
/// came later.
pub open spec fn shown_before(keys: Seq<int>, a: int, b: int) -> bool {
    keys[a] > keys[b] || (keys[a] == keys[b] && a > b)
}

/// The rank of a key is that of the first index that has no larger key.
proof fn lemma_rank(keys: Seq<int>, order: Seq<int>, key: int, n: nat)
    requires
        n <= order.len(),
    ensures
        n <= rank(keys, order, key, n) <= order.len(),
        forall|p: int| n <= p < rank(keys, order, key, n) ==> keys[#[trigger] order[p]] > key,
        rank(keys, order, key, n) < order.len() ==> keys[order[rank(keys, order, key, n) as int]]
            <= key,
    decreases order.len() - n,
{
    if n < order.len() && keys[order[n as int]] > key {
        lemma_rank(keys, order, key, n + 1);
    }
}

/// Every entry is shown, once, and in order of size: larger keys first, and among equal
/// keys the later first.
pub proof fn law_display_order(keys: Seq<int>)
    ensures
        display_order(keys).len() == keys.len(),
        forall|p: int|
            0 <= p < keys.len() ==> 0 <= #[trigger] display_order(keys)[p] < keys.len(),
        forall|i: int| 0 <= i < keys.len() ==> #[trigger] display_order(keys).contains(i),
        forall|p: int, q: int|
            0 <= p < q < keys.len() ==> shown_before(
                keys,
                #[trigger] display_order(keys)[p],
                #[trigger] display_order(keys)[q],
            ),
{
    lemma_order_of_first(keys, keys.len());
}

/// Whether indices stand in the order of their keys: each index once, a larger key before
/// a smaller one, and among equal keys the later index first.
pub open spec fn is_in_order(keys: Seq<int>, order: Seq<int>) -> bool {
    &&& order.len() == keys.len()
    &&& forall|p: int| 0 <= p < order.len() ==> 0 <= #[trigger] order[p] < keys.len()
    &&& forall|i: int| 0 <= i < keys.len() ==> #[trigger] order.contains(i)
    &&& forall|p: int, q: int|
        0 <= p < q < order.len() ==> {
            let a = #[trigger] order[p];
            let b = #[trigger] order[q];
            keys[a] > keys[b] || (keys[a] == keys[b] && a > b)
        }
}

/// The order in which entries are shown is the one in which their keys stand in order:
/// there is no other.
pub proof fn law_display_order_is_the_only_one(keys: Seq<int>, order: Seq<int>)
    ensures
        is_in_order(keys, order) <==> order == display_order(keys),
{
    law_display_order(keys);
    let shown = display_order(keys);
    assert forall|p: int, q: int| 0 <= p < q < shown.len() implies {
        let a = #[trigger] shown[p];
        let b = #[trigger] shown[q];
        keys[a] > keys[b] || (keys[a] == keys[b] && a > b)
    } by {
        assert(shown_before(keys, shown[p], shown[q]));
    }
    assert(is_in_order(keys, shown));
    if is_in_order(keys, order) {
        assert forall|p: int| 0 <= p < order.len() implies order[p] == shown[p] by {
            lemma_same_place(keys, order, shown, p);
        }
        assert(order =~= shown);
    }
}

/// Two sequences of indices that stand in order have the same index at every place.
proof fn lemma_same_place(keys: Seq<int>, a: Seq<int>, b: Seq<int>, p: int)
    requires
        is_in_order(keys, a),
        is_in_order(keys, b),
        0 <= p < keys.len(),
    ensures
        a[p] == b[p],
    decreases p,
{
    assert forall|j: int| 0 <= j < p implies a[j] == b[j] by {
        lemma_same_place(keys, a, b, j);
    }
    assert(b.contains(a[p]));
    let q = choose|q: int| 0 <= q < b.len() && b[q] == a[p];
    assert(a.contains(b[p]));
    let r = choose|r: int| 0 <= r < a.len() && a[r] == b[p];
    if q < p {
        assert(a[q] == b[q]);
        assert(false);
    }
    if r < p {
        assert(b[r] == a[r]);
        assert(false);
    }
    if p < q && p < r {
        assert(keys[b[p]] >= keys[b[q]]);
        assert(keys[a[p]] >= keys[a[r]]);
    }
}

/// What holds of the order of the first keys.
pub proof fn lemma_order_of_first(keys: Seq<int>, n: nat)
    requires
        n <= keys.len(),
    ensures
        order_of_first(keys, n).len() == n,
        forall|p: int| 0 <= p < n ==> 0 <= #[trigger] order_of_first(keys, n)[p] < n,
        forall|i: int| 0 <= i < n ==> #[trigger] order_of_first(keys, n).contains(i),
        forall|p: int, q: int|
            0 <= p < q < n ==> shown_before(
                keys,
                #[trigger] order_of_first(keys, n)[p],
                #[trigger] order_of_first(keys, n)[q],
            ),
    decreases n,
{
    if n > 0 {
        let m = (n - 1) as nat;
        lemma_order_of_first(keys, m);
        let before = order_of_first(keys, m);
        let key = keys[n - 1];
        let at = rank(keys, before, key, 0) as int;
        lemma_rank(keys, before, key, 0);
        let after = order_of_first(keys, n);
        assert(after == before.insert(at, n - 1));
        assert forall|p: int| 0 <= p < n implies 0 <= #[trigger] after[p] < n by {
            if p < at {
                assert(after[p] == before[p]);
            } else if p > at {
                assert(after[p] == before[p - 1]);
            }
        }
        assert forall|i: int| 0 <= i < n implies #[trigger] after.contains(i) by {
            if i == n - 1 {
                assert(after[at] == i);
            } else {
                assert(before.contains(i));
                let p = choose|p: int| 0 <= p < before.len() && before[p] == i;
                if p < at {
                    assert(after[p] == i);
                } else {
                    assert(after[p + 1] == i);
                }
            }
        }
        assert forall|p: int, q: int| 0 <= p < q < n implies shown_before(
            keys,
            #[trigger] after[p],
            #[trigger] after[q],
        ) by {
            let p0 = if p < at {
                p
            } else {
                p - 1
            };
            let q0 = if q < at {
                q
            } else {
                q - 1
            };
            if p == at {
                assert(after[q] == before[q0]);
                assert(after[p] == n - 1);
                if at < q0 {
                    assert(shown_before(keys, before[at], before[q0]));
                }
                assert(keys[before[q0]] <= key);
            } else if q == at {
                assert(after[p] == before[p0]);
                assert(keys[before[p0]] > key);
            } else {
                assert(after[p] == before[p0]);
                assert(after[q] == before[q0]);
                assert(shown_before(keys, before[p0], before[q0]));
            }
        }
    }
}

/// The keys as numbers.
pub open spec fn key_values(keys: Seq<i128>) -> Seq<int> {
    Seq::new(keys.len(), |i: int| keys[i] as int)
}

/// Indices as numbers.
pub open spec fn index_values(order: Seq<usize>) -> Seq<int> {
    Seq::new(order.len(), |i: int| order[i] as int)
}

/// The indices of the keys, in the order in which their entries are shown: larger keys
/// first, and among equal keys the later first.
pub fn order_for_display(keys: &Vec<i128>) -> (res: Vec<usize>)
    ensures
        index_values(res@) == display_order(key_values(keys@)),
        res@.len() == keys@.len(),
        forall|p: int| 0 <= p < res@.len() ==> #[trigger] res@[p] < keys@.len(),
{
    let ghost values = key_values(keys@);
    let mut order: Vec<usize> = Vec::new();
    assert(index_values(order@) =~= order_of_first(values, 0));
    let mut i: usize = 0;
    while i < keys.len()
        invariant
            i <= keys@.len(),
            values == key_values(keys@),
            index_values(order@) == order_of_first(values, i as nat),
        decreases keys@.len() - i,
    {
        let ghost before = index_values(order@);
        proof {
            lemma_order_of_first(values, i as nat);
            lemma_order_of_first(values, (i + 1) as nat);
        }
        let key: i128 = keys[i];
        assert(before.len() == i);
        let mut at: usize = 0;
        while at < order.len() && keys[order[at]] > key
            invariant
                at <= order@.len(),
                order@.len() == i,
                i < keys@.len(),
                key == keys@[i as int],
                before == index_values(order@),
                values == key_values(keys@),
                forall|p: int| 0 <= p < i ==> 0 <= #[trigger] before[p] < i,
                rank(values, before, key as int, 0) == rank(values, before, key as int, at as nat),
            decreases order@.len() - at,
        {
            assert(before[at as int] == order@[at as int]);
            at = at + 1;
        }
        order.insert(at, i);
        assert(index_values(order@) =~= before.insert(at as int, i as int));
        i = i + 1;
    }
    proof {
        lemma_order_of_first(values, values.len());
        assert forall|p: int| 0 <= p < order@.len() implies #[trigger] order@[p]
            < keys@.len() by {
            assert(index_values(order@)[p] < values.len());
        }
    }
    order
}

} // verus!
