//! Stable sorting by an integer key.

use vstd::prelude::*;

verus! {

/// Index `a` comes before index `b`: by key, and among equal keys by index.
pub open spec fn comes_before(keys: Seq<i64>, a: int, b: int) -> bool {
    keys[a] < keys[b] || (keys[a] == keys[b] && a < b)
}

/// `r` holds each index from `lo` up to `hi` once, in order of key, and indexes of
/// equal keys in their own order.
pub open spec fn is_order(keys: Seq<i64>, r: Seq<usize>, lo: int, hi: int) -> bool {
    &&& r.len() == hi - lo
    &&& forall|i: int| 0 <= i < r.len() ==> lo <= #[trigger] r[i] < hi
    &&& forall|i: int, j: int|
        0 <= i < j < r.len() ==> comes_before(keys, #[trigger] r[i] as int, #[trigger] r[j] as int)
    &&& forall|k: usize| lo <= k < hi ==> #[trigger] r.contains(k)
}

/// Merges the orders of two neighbouring runs.
fn merge(keys: &[i64], a: &Vec<usize>, b: &Vec<usize>, lo: usize, mid: usize, hi: usize) -> (r: Vec<
    usize,
>)
    requires
        lo <= mid <= hi <= keys.len(),
        is_order(keys@, a@, lo as int, mid as int),
        is_order(keys@, b@, mid as int, hi as int),
    ensures
        is_order(keys@, r@, lo as int, hi as int),
{
    let mut out: Vec<usize> = Vec::new();
    let mut i: usize = 0;
    let mut j: usize = 0;
    while i < a.len() || j < b.len()
        invariant
            lo <= mid <= hi <= keys@.len(),
            is_order(keys@, a@, lo as int, mid as int),
            is_order(keys@, b@, mid as int, hi as int),
            i <= a@.len(),
            j <= b@.len(),
            out@.len() == i + j,
            forall|p: int| 0 <= p < out@.len() ==> lo <= #[trigger] out@[p] < hi,
            forall|p: int, q: int|
                0 <= p < q < out@.len() ==> comes_before(
                    keys@,
                    #[trigger] out@[p] as int,
                    #[trigger] out@[q] as int,
                ),
            forall|p: int, q: int|
                0 <= p < out@.len() && i <= q < a@.len() ==> comes_before(
                    keys@,
                    #[trigger] out@[p] as int,
                    #[trigger] a@[q] as int,
                ),
            forall|p: int, q: int|
                0 <= p < out@.len() && j <= q < b@.len() ==> comes_before(
                    keys@,
                    #[trigger] out@[p] as int,
                    #[trigger] b@[q] as int,
                ),
            forall|q: int| 0 <= q < i ==> out@.contains(#[trigger] a@[q]),
            forall|q: int| 0 <= q < j ==> out@.contains(#[trigger] b@[q]),
        decreases a@.len() - i + b@.len() - j,
    {
        let ghost prev = out@;
        let left: bool = if j >= b.len() {
            true
        } else if i >= a.len() {
            false
        } else {
            keys[a[i]] <= keys[b[j]]
        };
        let x: usize = if left {
            a[i]
        } else {
            b[j]
        };
        out.push(x);
        proof {
            assert forall|k: usize| prev.contains(k) implies out@.contains(k) by {
                let p = choose|p: int| 0 <= p < prev.len() && prev[p] == k;
                assert(out@[p] == k);
            }
            assert(out@[prev.len() as int] == x);
            assert(out@.contains(x));
            assert forall|p: int, q: int| 0 <= p < q < out@.len() implies comes_before(
                keys@,
                #[trigger] out@[p] as int,
                #[trigger] out@[q] as int,
            ) by {
                assert(out@[p] == prev[p]);
                if q < prev.len() {
                    assert(out@[q] == prev[q]);
                }
            }
            assert forall|p: int, q: int|
                0 <= p < out@.len() && (if left {
                    i + 1
                } else {
                    i as int
                }) <= q < a@.len() implies comes_before(
                keys@,
                #[trigger] out@[p] as int,
                #[trigger] a@[q] as int,
            ) by {
                if p < prev.len() {
                    assert(out@[p] == prev[p]);
                } else if !left {
                    assert(i <= q);
                    if i < q {
                        assert(comes_before(keys@, a@[i as int] as int, a@[q] as int));
                    }
                }
            }
            assert forall|p: int, q: int|
                0 <= p < out@.len() && (if left {
                    j as int
                } else {
                    j + 1
                }) <= q < b@.len() implies comes_before(
                keys@,
                #[trigger] out@[p] as int,
                #[trigger] b@[q] as int,
            ) by {
                if p < prev.len() {
                    assert(out@[p] == prev[p]);
                } else if left {
                    if j < q {
                        assert(comes_before(keys@, b@[j as int] as int, b@[q] as int));
                    }
                }
            }
        }
        if left {
            i = i + 1;
        } else {
            j = j + 1;
        }
    }
    proof {
        assert forall|k: usize| lo <= k < hi implies #[trigger] out@.contains(k) by {
            if k < mid {
                assert(a@.contains(k));
                let q = choose|q: int| 0 <= q < a@.len() && a@[q] == k;
                assert(out@.contains(a@[q]));
            } else {
                assert(b@.contains(k));
                let q = choose|q: int| 0 <= q < b@.len() && b@[q] == k;
                assert(out@.contains(b@[q]));
            }
        }
    }
    out
}

fn order_range(keys: &[i64], lo: usize, hi: usize) -> (r: Vec<usize>)
    requires
        lo <= hi <= keys.len(),
    ensures
        is_order(keys@, r@, lo as int, hi as int),
    decreases hi - lo,
{
    if hi - lo == 0 {
        Vec::new()
    } else if hi - lo == 1 {
        let mut r: Vec<usize> = Vec::new();
        r.push(lo);
        assert(r@[0] == lo);
        r
    } else {
        let mid: usize = lo + (hi - lo) / 2;
        let a = order_range(keys, lo, mid);
        let b = order_range(keys, mid, hi);
        merge(keys, &a, &b, lo, mid, hi)
    }
}

/// The order of a run of keys.
pub fn order_by_key(keys: &[i64]) -> (r: Vec<usize>)
    ensures
        is_order(keys@, r@, 0, keys@.len() as int),
{
    order_range(keys, 0, keys.len())
}

/// There is only one order of a run of keys.
pub proof fn law_order_is_unique(keys: Seq<i64>, a: Seq<usize>, b: Seq<usize>)
    requires
        is_order(keys, a, 0, keys.len() as int),
        is_order(keys, b, 0, keys.len() as int),
        keys.len() <= usize::MAX,
    ensures
        a == b,
{
    assert forall|i: int| 0 <= i < a.len() implies a[i] == b[i] by {
        lemma_same_prefix(keys, a, b, i);
    }
    assert(a =~= b);
}

proof fn lemma_same_prefix(keys: Seq<i64>, a: Seq<usize>, b: Seq<usize>, i: int)
    requires
        is_order(keys, a, 0, keys.len() as int),
        is_order(keys, b, 0, keys.len() as int),
        0 <= i < keys.len(),
    ensures
        a[i] == b[i],
    decreases i,
{
    assert forall|j: int| 0 <= j < i implies a[j] == b[j] by {
        lemma_same_prefix(keys, a, b, j);
    }
    let x = a[i];
    let y = b[i];
    assert(b.contains(x) && a.contains(y));
    let p = choose|p: int| 0 <= p < b.len() && b[p] == x;
    let q = choose|q: int| 0 <= q < a.len() && a[q] == y;
    if p < i {
        assert(a[p] == x);
        assert(comes_before(keys, a[p] as int, a[i] as int));
    }
    if q < i {
        assert(b[q] == y);
        assert(comes_before(keys, b[q] as int, b[i] as int));
    }
    if p > i && q > i {
        assert(comes_before(keys, b[i] as int, b[p] as int));
        assert(comes_before(keys, a[i] as int, a[q] as int));
    }
}

} // verus!
