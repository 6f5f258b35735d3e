//! Ordering by keys: the positions of a list in the order of their keys, equal
//! keys in the order of the list.

use vstd::prelude::*;

verus! {

/// Position `a` comes before position `b`.
pub open spec fn precedes(keys: Seq<u64>, a: int, b: int) -> bool {
    keys[a] < keys[b] || (keys[a] == keys[b] && a < b)
}

/// The positions are those of keys and stand in their order.
pub open spec fn in_order(keys: Seq<u64>, v: Seq<usize>) -> bool {
    &&& forall|i: int| 0 <= i < v.len() ==> #[trigger] v[i] < keys.len()
    &&& forall|i: int, j: int|
        0 <= i < j < v.len() ==> precedes(keys, #[trigger] v[i] as int, #[trigger] v[j] as int)
}

/// The order of the keys: all their positions, in order.
pub open spec fn is_order(keys: Seq<u64>, v: Seq<usize>) -> bool {
    &&& in_order(keys, v)
    &&& v.len() == keys.len()
    &&& forall|p: usize| p < keys.len() ==> #[trigger] v.contains(p)
}

/// There is only one order of given keys.
pub proof fn lemma_order_unique(keys: Seq<u64>, v: Seq<usize>, w: Seq<usize>)
    requires
        is_order(keys, v),
        is_order(keys, w),
    ensures
        v == w,
{
    assert forall|n: int| 0 <= n <= v.len() implies v.take(n) == w.take(n) by {
        lemma_order_same_front(keys, v, w, n);
    }
    assert(v.take(v.len() as int) =~= v);
    assert(w.take(w.len() as int) =~= w);
}

proof fn lemma_order_same_front(keys: Seq<u64>, v: Seq<usize>, w: Seq<usize>, n: int)
    requires
        is_order(keys, v),
        is_order(keys, w),
        0 <= n <= v.len(),
    ensures
        v.take(n) == w.take(n),
    decreases n,
{
    if n > 0 {
        lemma_order_same_front(keys, v, w, n - 1);
        let m = n - 1;
        assert forall|i: int| 0 <= i < m implies v[i] == w[i] by {
            assert(v.take(m)[i] == w.take(m)[i]);
        }
        assert(w.contains(v[m]));
        let a = choose|a: int| 0 <= a < w.len() && w[a] == v[m];
        assert(v.contains(w[m]));
        let b = choose|b: int| 0 <= b < v.len() && v[b] == w[m];
        if a < m {
            assert(v[a] == v[m]);
            assert(precedes(keys, v[a] as int, v[m] as int));
        }
        if b < m {
            assert(w[b] == w[m]);
            assert(precedes(keys, w[b] as int, w[m] as int));
        }
        if a > m && b > m {
            assert(precedes(keys, w[m] as int, w[a] as int));
            assert(precedes(keys, v[m] as int, v[b] as int));
        }
        assert(v[m] == w[m]);
        assert(v.take(n) =~= w.take(n));
    }
}

/// Merges two ordered lists, of which the second has the later positions.
fn merge(keys: &Vec<u64>, a: Vec<usize>, b: Vec<usize>) -> (r: Vec<usize>)
    requires
        in_order(keys@, a@),
        in_order(keys@, b@),
        forall|i: int, j: int|
            0 <= i < a@.len() && 0 <= j < b@.len() ==> #[trigger] a@[i] < #[trigger] b@[j],
    ensures
        in_order(keys@, r@),
        r@.len() == a@.len() + b@.len(),
        forall|p: usize| #[trigger] r@.contains(p) <==> a@.contains(p) || b@.contains(p),
{
    let mut out: Vec<usize> = Vec::new();
    let mut i: usize = 0;
    let mut j: usize = 0;
    while i < a.len() || j < b.len()
        invariant
            i <= a@.len(),
            j <= b@.len(),
            in_order(keys@, a@),
            in_order(keys@, b@),
            forall|x: int, y: int|
                0 <= x < a@.len() && 0 <= y < b@.len() ==> #[trigger] a@[x] < #[trigger] b@[y],
            out@.len() == i + j,
            in_order(keys@, out@),
            forall|k: int, x: int|
                0 <= k < out@.len() && i <= x < a@.len() ==> precedes(
                    keys@,
                    #[trigger] out@[k] as int,
                    #[trigger] a@[x] as int,
                ),
            forall|k: int, y: int|
                0 <= k < out@.len() && j <= y < b@.len() ==> precedes(
                    keys@,
                    #[trigger] out@[k] as int,
                    #[trigger] b@[y] as int,
                ),
            forall|x: int| 0 <= x < i ==> out@.contains(#[trigger] a@[x]),
            forall|y: int| 0 <= y < j ==> out@.contains(#[trigger] b@[y]),
            forall|k: int|
                0 <= k < out@.len() ==> a@.contains(#[trigger] out@[k]) || b@.contains(out@[k]),
        decreases a@.len() + b@.len() - i - j,
    {
        let ghost before = out@;
        let from_a = if i == a.len() {
            false
        } else if j == b.len() {
            true
        } else {
            keys[a[i]] <= keys[b[j]]
        };
        let next: usize = if from_a {
            a[i]
        } else {
            b[j]
        };
        out.push(next);
        if from_a {
            i = i + 1;
        } else {
            j = j + 1;
        }
        proof {
            assert forall|p: usize| before.contains(p) implies #[trigger] out@.contains(p) by {
                let k = choose|k: int| 0 <= k < before.len() && before[k] == p;
                assert(out@[k] == p);
            }
            assert(out@[before.len() as int] == next);
            assert forall|k: int| 0 <= k < out@.len() implies a@.contains(#[trigger] out@[k])
                || b@.contains(out@[k]) by {
                if k < before.len() {
                    assert(out@[k] == before[k]);
                }
            }
        }
    }
    proof {
        assert forall|p: usize| #[trigger] out@.contains(p) <==> a@.contains(p) || b@.contains(
            p,
        ) by {
            if a@.contains(p) {
                let x = choose|x: int| 0 <= x < a@.len() && a@[x] == p;
                assert(out@.contains(a@[x]));
            }
            if b@.contains(p) {
                let y = choose|y: int| 0 <= y < b@.len() && b@[y] == p;
                assert(out@.contains(b@[y]));
            }
            if out@.contains(p) {
                let k = choose|k: int| 0 <= k < out@.len() && out@[k] == p;
                assert(a@.contains(out@[k]) || b@.contains(out@[k]));
            }
        }
    }
    out
}

/// The positions from `lo` up to `hi` in the order of their keys.
fn sort_range(keys: &Vec<u64>, lo: usize, hi: usize) -> (r: Vec<usize>)
    requires
        lo <= hi <= keys@.len(),
    ensures
        in_order(keys@, r@),
        r@.len() == hi - lo,
        forall|p: usize| #[trigger] r@.contains(p) <==> lo <= p < hi,
    decreases hi - lo,
{
    if hi - lo == 0 {
        return Vec::new();
    }
    if hi - lo == 1 {
        let mut one: Vec<usize> = Vec::new();
        one.push(lo);
        assert(one@[0] == lo);
        return one;
    }
    let mid: usize = lo + (hi - lo) / 2;
    let a = sort_range(keys, lo, mid);
    let b = sort_range(keys, mid, hi);
    proof {
        assert forall|i: int, j: int|
            0 <= i < a@.len() && 0 <= j < b@.len() implies #[trigger] a@[i] < #[trigger] b@[j] by {
            assert(a@.contains(a@[i]));
            assert(b@.contains(b@[j]));
        }
    }
    merge(keys, a, b)
}

/// The order of the keys.
pub fn order(keys: &Vec<u64>) -> (r: Vec<usize>)
    ensures
        is_order(keys@, r@),
{
    sort_range(keys, 0, keys.len())
}

/// The first `k` of the positions; all of them where there are no more.
pub open spec fn first(v: Seq<usize>, k: usize) -> Seq<usize> {
    if k < v.len() {
        v.take(k as int)
    } else {
        v
    }
}

/// The positions of the `k` least keys, in their order; all of them where there
/// are no more.
pub fn least(keys: &Vec<u64>, k: usize) -> (r: Vec<usize>)
    ensures
        exists|v: Seq<usize>| #[trigger] is_order(keys@, v) && r@ == first(v, k),
{
    let mut v = order(keys);
    let ghost all = v@;
    v.truncate(k);
    assert(v@ =~= first(all, k));
    v
}

/// What the least keys are: each of them comes before each key that is left out.
pub proof fn lemma_least_come_first(keys: Seq<u64>, v: Seq<usize>, k: int, i: int, p: usize)
    requires
        is_order(keys, v),
        0 <= i < k <= v.len(),
        p < keys.len(),
        !v.take(k).contains(p),
    ensures
        precedes(keys, v[i] as int, p as int),
{
    assert(v.contains(p));
    let j = choose|j: int| 0 <= j < v.len() && v[j] == p;
    if j < k {
        assert(v.take(k)[j] == p);
    }
}

/// What an order is: no key stands behind a greater one, equal keys keep the order of
/// the list, and each position is there once.
pub proof fn lemma_order(keys: Seq<u64>, v: Seq<usize>, i: int, j: int, k: usize)
    requires
        is_order(keys, v),
        0 <= i < j < v.len(),
    ensures
        keys[v[i] as int] <= keys[v[j] as int],
        keys[v[i] as int] == keys[v[j] as int] ==> v[i] < v[j],
        v[i] != v[j],
        v.len() == keys.len(),
        first(v, k).len() == (if keys.len() < k {
            keys.len() as int
        } else {
            k as int
        }),
        i < k ==> first(v, k)[i] == v[i],
{
    assert(precedes(keys, v[i] as int, v[j] as int));
}

} // verus!
