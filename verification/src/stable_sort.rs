//! Stable sorting by integer keys.
use vstd::prelude::*;

verus! {

/// The positions of `order` with `new` placed after every position whose key
/// is not greater than its own, reading from the end.
pub open spec fn place(order: Seq<int>, keys: Seq<usize>, new: int) -> Seq<int>
    decreases order.len(),
{
    if order.len() == 0 {
        seq![new]
    } else if keys[order.last()] <= keys[new] {
        order.push(new)
    } else {
        place(order.drop_last(), keys, new).push(order.last())
    }
}

/// The positions `0..n` of `keys` in the order that a stable sort gives them.
pub open spec fn stable_order(keys: Seq<usize>, n: nat) -> Seq<int>
    decreases n,
{
    if n == 0 {
        Seq::empty()
    } else {
        place(stable_order(keys, (n - 1) as nat), keys, n - 1)
    }
}

/// The items at the given positions.
pub open spec fn pick<T>(items: Seq<T>, order: Seq<int>) -> Seq<T> {
    order.map_values(|i: int| items[i])
}

/// `items` in the order of their keys, those of equal keys as they stood.
pub open spec fn stably_sorted<T>(items: Seq<T>, keys: Seq<usize>) -> Seq<T> {
    pick(items, stable_order(keys, keys.len()))
}

/// Placing a position is inserting it at the point found from the end.
proof fn lemma_place(order: Seq<int>, keys: Seq<usize>, new: int, p: int)
    requires
        0 <= p <= order.len(),
        p == 0 || keys[order[p - 1]] <= keys[new],
        forall|q: int| p <= q < order.len() ==> keys[#[trigger] order[q]] > keys[new],
    ensures
        place(order, keys, new) == order.insert(p, new),
    decreases order.len(),
{
    if order.len() == 0 {
        assert(order.insert(p, new) =~= seq![new]);
    } else if p == order.len() {
        assert(order.insert(p, new) =~= order.push(new));
    } else {
        let shorter = order.drop_last();
        assert(keys[order[order.len() - 1]] > keys[new]);
        assert forall|q: int| p <= q < shorter.len() implies keys[#[trigger] shorter[q]]
            > keys[new] by {
            assert(shorter[q] == order[q]);
        }
        lemma_place(shorter, keys, new, p);
        assert(shorter.insert(p, new).push(order.last()) =~= order.insert(p, new));
    }
}

/// A stable order lists each position once, by key and then by position.
pub open spec fn is_stable_order(keys: Seq<usize>, n: nat, order: Seq<int>) -> bool {
    &&& order.len() == n
    &&& forall|a: int| 0 <= a < n ==> 0 <= #[trigger] order[a] < n
    &&& forall|a: int, b: int|
        0 <= a < b < n ==> keys[#[trigger] order[a]] < keys[#[trigger] order[b]] || (
        keys[order[a]] == keys[order[b]] && order[a] < order[b])
}

/// Where `place` puts a new position in a stable order.
proof fn lemma_place_point(order: Seq<int>, keys: Seq<usize>, new: int) -> (p: int)
    requires
        is_stable_order(keys, order.len(), order),
        new == order.len(),
    ensures
        0 <= p <= order.len(),
        place(order, keys, new) == order.insert(p, new),
        forall|q: int| 0 <= q < p ==> keys[#[trigger] order[q]] <= keys[new],
        forall|q: int| p <= q < order.len() ==> keys[#[trigger] order[q]] > keys[new],
{
    let p = lemma_first_greater(order, keys, keys[new], order.len() as int);
    if p > 0 {
        assert(keys[order[p - 1]] <= keys[new]);
    }
    lemma_place(order, keys, new, p);
    p
}

/// The keys of a stable order are divided by any bound.
proof fn lemma_first_greater(order: Seq<int>, keys: Seq<usize>, key: usize, n: int) -> (p: int)
    requires
        is_stable_order(keys, order.len(), order),
        0 <= n <= order.len(),
        forall|q: int| n <= q < order.len() ==> keys[#[trigger] order[q]] > key,
    ensures
        0 <= p <= n,
        forall|q: int| 0 <= q < p ==> keys[#[trigger] order[q]] <= key,
        forall|q: int| p <= q < order.len() ==> keys[#[trigger] order[q]] > key,
    decreases n,
{
    if n == 0 {
        0
    } else if keys[order[n - 1]] <= key {
        assert forall|q: int| 0 <= q < n implies keys[#[trigger] order[q]] <= key by {
            if q < n - 1 {
                assert(keys[order[q]] <= keys[order[n - 1]]);
            }
        }
        n
    } else {
        lemma_first_greater(order, keys, key, n - 1)
    }
}

/// Sorting lists every position once, by key, and keeps the order of equal
/// keys.
pub proof fn law_stable_order(keys: Seq<usize>, n: nat)
    requires
        n <= keys.len(),
    ensures
        is_stable_order(keys, n, stable_order(keys, n)),
    decreases n,
{
    if n > 0 {
        let m = (n - 1) as nat;
        law_stable_order(keys, m);
        let shorter = stable_order(keys, m);
        let p = lemma_place_point(shorter, keys, m as int);
        let order = stable_order(keys, n);
        assert(order == shorter.insert(p, m as int));
        assert forall|a: int| 0 <= a < n implies 0 <= #[trigger] order[a] < n by {
            if a < p {
                assert(order[a] == shorter[a]);
            } else if a > p {
                assert(order[a] == shorter[a - 1]);
            }
        }
        assert forall|a: int, b: int| 0 <= a < b < n implies keys[#[trigger] order[a]]
            < keys[#[trigger] order[b]] || (keys[order[a]] == keys[order[b]] && order[a]
            < order[b]) by {
            let sa = if a < p {
                a
            } else {
                a - 1
            };
            let sb = if b < p {
                b
            } else {
                b - 1
            };
            if a != p {
                assert(order[a] == shorter[sa]);
            }
            if b != p {
                assert(order[b] == shorter[sb]);
            }
        }
    }
}

/// Sorting loses nothing: every position is listed.
pub proof fn law_sort_loses_nothing(keys: Seq<usize>, n: nat, i: int)
    requires
        n <= keys.len(),
        0 <= i < n,
    ensures
        stable_order(keys, n).contains(i),
    decreases n,
{
    let m = (n - 1) as nat;
    law_stable_order(keys, m);
    let shorter = stable_order(keys, m);
    let p = lemma_place_point(shorter, keys, m as int);
    let order = stable_order(keys, n);
    if i == m {
        assert(order[p] == i);
    } else {
        law_sort_loses_nothing(keys, m, i);
        let a = choose|a: int| 0 <= a < shorter.len() && shorter[a] == i;
        if a < p {
            assert(order[a] == i);
        } else {
            assert(order[a + 1] == i);
        }
    }
}

/// A sorted sequence is as long as the unsorted one, and each of its items is
/// one of those.
pub proof fn lemma_sorted_items<T>(items: Seq<T>, keys: Seq<usize>)
    requires
        items.len() == keys.len(),
    ensures
        stably_sorted(items, keys).len() == items.len(),
        forall|a: int|
            0 <= a < items.len() ==> {
                let i = stable_order(keys, keys.len())[a];
                0 <= i < items.len() && #[trigger] stably_sorted(items, keys)[a] == items[i]
            },
{
    law_stable_order(keys, keys.len());
}

/// Sorts items by their keys, which move along, and keeps the order of items
/// with equal keys.
pub fn stable_sort<T>(items: &mut Vec<T>, keys: &mut Vec<usize>)
    requires
        old(items)@.len() == old(keys)@.len(),
    ensures
        final(items)@ == stably_sorted(old(items)@, old(keys)@),
        final(keys)@ == stably_sorted(old(keys)@, old(keys)@),
{
    let len: usize = items.len();
    let ghost items0 = items@;
    let ghost keys0 = keys@;
    let mut n: usize = 0;
    assert(items@ =~= pick(items0, stable_order(keys0, 0)) + items0.skip(0));
    assert(keys@ =~= pick(keys0, stable_order(keys0, 0)) + keys0.skip(0));
    while n < len
        invariant
            n <= len,
            len == items0.len(),
            items0.len() == keys0.len(),
            stable_order(keys0, n as nat).len() == n,
            items@ == pick(items0, stable_order(keys0, n as nat)) + items0.skip(n as int),
            keys@ == pick(keys0, stable_order(keys0, n as nat)) + keys0.skip(n as int),
        decreases len - n,
    {
        let ghost order = stable_order(keys0, n as nat);
        proof {
            law_stable_order(keys0, n as nat);
        }
        let item = items.remove(n);
        let key: usize = keys.remove(n);
        assert(item == items0[n as int] && key == keys0[n as int]);
        assert(items@ =~= pick(items0, order) + items0.skip(n + 1));
        assert(keys@ =~= pick(keys0, order) + keys0.skip(n + 1));
        let mut p: usize = n;
        while p > 0 && keys[p - 1] > key
            invariant
                p <= n,
                n < len,
                order.len() == n,
                len == keys0.len(),
                key == keys0[n as int],
                keys@ == pick(keys0, order) + keys0.skip(n + 1),
                forall|q: int| p <= q < n ==> keys0[#[trigger] order[q]] > key,
            decreases p,
        {
            assert(keys@[p - 1] == keys0[order[p - 1]]);
            p = p - 1;
        }
        proof {
            if p > 0 {
                assert(keys@[p - 1] == keys0[order[p - 1]]);
            }
            lemma_place(order, keys0, n as int, p as int);
            law_stable_order(keys0, (n + 1) as nat);
        }
        items.insert(p, item);
        keys.insert(p, key);
        proof {
            let next = stable_order(keys0, (n + 1) as nat);
            assert(next == order.insert(p as int, n as int));
            assert(items@ =~= pick(items0, next) + items0.skip(n + 1));
            assert(keys@ =~= pick(keys0, next) + keys0.skip(n + 1));
        }
        n = n + 1;
    }
    assert(items@ =~= pick(items0, stable_order(keys0, len as nat)));
    assert(keys@ =~= pick(keys0, stable_order(keys0, len as nat)));
}

} // verus!
