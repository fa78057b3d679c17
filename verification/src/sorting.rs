//! Stable ordering of records by an integer key (a timestamp), as candles and
//! trades are ordered before they are processed.

use vstd::prelude::*;

verus! {

broadcast use vstd::seq_lib::lemma_seq_contains_after_push;

/// Record `a` comes before record `b` in a stable sort by `keys`: its key is
/// smaller, or the keys are equal and `a` came first.
pub open spec fn precedes(keys: Seq<i64>, a: usize, b: usize) -> bool {
    keys[a as int] < keys[b as int] || (keys[a as int] == keys[b as int] && a < b)
}

/// Every earlier entry of `p` precedes every later one.
pub open spec fn strictly_ordered(keys: Seq<i64>, p: Seq<usize>) -> bool {
    forall|i: int, j: int| 0 <= i < j < p.len() ==> precedes(keys, #[trigger] p[i], #[trigger] p[j])
}

/// `p` lists every record index once, in the order of a stable sort by `keys`.
pub open spec fn is_stable_order(keys: Seq<i64>, p: Seq<usize>) -> bool {
    &&& p.len() == keys.len()
    &&& forall|i: int| 0 <= i < p.len() ==> #[trigger] p[i] < keys.len()
    &&& forall|k: usize| k < keys.len() ==> #[trigger] p.contains(k)
    &&& strictly_ordered(keys, p)
}

fn comes_before(keys: &Vec<i64>, a: usize, b: usize) -> (r: bool)
    requires
        a < keys.len(),
        b < keys.len(),
    ensures
        r == precedes(keys@, a, b),
{
    keys[a] < keys[b] || (keys[a] == keys[b] && a < b)
}

/// Merges two index lists that are each in stable-sort order and share no index.
fn merge(keys: &Vec<i64>, a: Vec<usize>, b: Vec<usize>) -> (r: Vec<usize>)
    requires
        forall|i: int| 0 <= i < a.len() ==> #[trigger] a@[i] < keys.len(),
        forall|i: int| 0 <= i < b.len() ==> #[trigger] b@[i] < keys.len(),
        forall|i: int, j: int| 0 <= i < a.len() && 0 <= j < b.len() ==> a@[i] != b@[j],
        strictly_ordered(keys@, a@),
        strictly_ordered(keys@, b@),
    ensures
        r.len() == a.len() + b.len(),
        forall|x: usize| r@.contains(x) <==> (a@.contains(x) || b@.contains(x)),
        strictly_ordered(keys@, r@),
{
    let mut r: Vec<usize> = Vec::new();
    let mut i: usize = 0;
    let mut j: usize = 0;
    while i < a.len() || j < b.len()
        invariant
            i <= a.len(),
            j <= b.len(),
            r.len() == i + j,
            forall|i: int| 0 <= i < a.len() ==> #[trigger] a@[i] < keys.len(),
            forall|i: int| 0 <= i < b.len() ==> #[trigger] b@[i] < keys.len(),
            forall|i: int, j: int| 0 <= i < a.len() && 0 <= j < b.len() ==> a@[i] != b@[j],
            strictly_ordered(keys@, a@),
            strictly_ordered(keys@, b@),
            forall|x: usize|
                r@.contains(x) <==> (a@.take(i as int).contains(x) || b@.take(j as int).contains(
                    x,
                )),
            strictly_ordered(keys@, r@),
            forall|k: int|
                0 <= k < r.len() ==> (i < a.len() ==> precedes(keys@, #[trigger] r@[k], a@[i as int])),
            forall|k: int|
                0 <= k < r.len() ==> (j < b.len() ==> precedes(keys@, #[trigger] r@[k], b@[j as int])),
        decreases a.len() + b.len() - i - j,
    {
        let take_a = if i < a.len() && j < b.len() {
            comes_before(keys, a[i], b[j])
        } else {
            i < a.len()
        };
        let ghost old_r = r@;
        if take_a {
            let x = a[i];
            r.push(x);
            assert(a@.take(i + 1) =~= a@.take(i as int).push(x));
            proof {
                if i + 1 < a.len() {
                    assert(precedes(keys@, a@[i as int], a@[i + 1]));
                }
                if j < b.len() {
                    assert(a@[i as int] != b@[j as int]);
                }
            }
            i += 1;
        } else {
            let x = b[j];
            r.push(x);
            assert(b@.take(j + 1) =~= b@.take(j as int).push(x));
            proof {
                if j + 1 < b.len() {
                    assert(precedes(keys@, b@[j as int], b@[j + 1]));
                }
                if i < a.len() {
                    assert(a@[i as int] != b@[j as int]);
                }
            }
            j += 1;
        }
        assert(forall|k: int| 0 <= k < old_r.len() ==> r@[k] == old_r[k]);
    }
    assert(a@.take(i as int) =~= a@);
    assert(b@.take(j as int) =~= b@);
    r
}

/// Sorts a list of distinct record indices stably by `keys`.
fn merge_sort(keys: &Vec<i64>, idx: Vec<usize>) -> (r: Vec<usize>)
    requires
        forall|i: int| 0 <= i < idx.len() ==> #[trigger] idx@[i] < keys.len(),
        forall|i: int, j: int| 0 <= i < j < idx.len() ==> idx@[i] != idx@[j],
    ensures
        r.len() == idx.len(),
        forall|x: usize| r@.contains(x) <==> idx@.contains(x),
        forall|i: int| 0 <= i < r.len() ==> #[trigger] r@[i] < keys.len(),
        strictly_ordered(keys@, r@),
    decreases idx.len(),
{
    if idx.len() <= 1 {
        return idx;
    }
    let mid = idx.len() / 2;
    let mut left = idx;
    let ghost whole = left@;
    let right = left.split_off(mid);
    assert(whole =~= left@ + right@);
    assert forall|i: int, j: int| 0 <= i < left.len() && 0 <= j < right.len() implies left@[i]
        != right@[j] by {
        assert(whole[i] == left@[i]);
        assert(whole[mid + j] == right@[j]);
    }
    assert forall|i: int, j: int| 0 <= i < j < right.len() implies right@[i] != right@[j] by {
        assert(whole[mid + i] == right@[i]);
        assert(whole[mid + j] == right@[j]);
    }
    assert forall|i: int| 0 <= i < right.len() implies #[trigger] right@[i] < keys.len() by {
        assert(whole[mid + i] == right@[i]);
    }
    let ghost lv = left@;
    let ghost rv = right@;
    let sl = merge_sort(keys, left);
    let sr = merge_sort(keys, right);
    assert forall|i: int, j: int| 0 <= i < sl.len() && 0 <= j < sr.len() implies sl@[i]
        != sr@[j] by {
        assert(sl@.contains(sl@[i]));
        assert(sr@.contains(sr@[j]));
        let p = choose|p: int| 0 <= p < lv.len() && lv[p] == sl@[i];
        let q = choose|q: int| 0 <= q < rv.len() && rv[q] == sr@[j];
        assert(lv[p] != rv[q]);
    }
    let r = merge(keys, sl, sr);
    assert forall|x: usize| r@.contains(x) <==> whole.contains(x) by {
        if whole.contains(x) {
            let p = choose|p: int| 0 <= p < whole.len() && whole[p] == x;
            if p < mid {
                assert(lv[p] == x);
                assert(lv.contains(x));
            } else {
                assert(rv[p - mid] == x);
                assert(rv.contains(x));
            }
        }
        if lv.contains(x) {
            let p = choose|p: int| 0 <= p < lv.len() && lv[p] == x;
            assert(whole[p] == x);
        }
        if rv.contains(x) {
            let p = choose|p: int| 0 <= p < rv.len() && rv[p] == x;
            assert(whole[mid + p] == x);
        }
    }
    assert forall|i: int| 0 <= i < r.len() implies #[trigger] r@[i] < keys.len() by {
        assert(r@.contains(r@[i]));
        if sl@.contains(r@[i]) {
            let p = choose|p: int| 0 <= p < sl.len() && sl@[p] == r@[i];
        } else {
            let p = choose|p: int| 0 <= p < sr.len() && sr@[p] == r@[i];
        }
    }
    r
}

/// The order in which a stable sort by `keys` lists the records `0..keys.len()`:
/// by ascending key, records with equal keys in their input order
/// (`slice::sort_by_key`, as candles are ordered by timestamp and trades by entry time).
pub fn stable_order_by_key(keys: &Vec<i64>) -> (p: Vec<usize>)
    ensures
        is_stable_order(keys@, p@),
        forall|i: int, j: int|
            0 <= i < j < p.len() ==> keys@[p@[i] as int] <= keys@[p@[j] as int],
        forall|i: int, j: int|
            0 <= i < j < p.len() && keys@[p@[i] as int] == keys@[p@[j] as int] ==> p@[i] < p@[j],
{
    let n = keys.len();
    let mut idx: Vec<usize> = Vec::with_capacity(n);
    let mut k: usize = 0;
    while k < n
        invariant
            k <= n == keys.len(),
            idx.len() == k,
            forall|i: int| 0 <= i < k ==> idx@[i] == i,
        decreases n - k,
    {
        idx.push(k);
        k += 1;
    }
    let p = merge_sort(keys, idx);
    assert forall|k: usize| k < keys.len() implies #[trigger] p@.contains(k) by {
        assert(idx@[k as int] == k);
        assert(idx@.contains(k));
    }
    assert forall|i: int, j: int| 0 <= i < j < p.len() implies keys@[p@[i] as int]
        <= keys@[p@[j] as int] by {
        assert(precedes(keys@, p@[i], p@[j]));
    }
    p
}

/// A stable order is unique: two index lists that both satisfy `is_stable_order`
/// for the same keys are equal, so the ordering of records by key is fully determined.
pub proof fn lemma_stable_order_unique(keys: Seq<i64>, p: Seq<usize>, q: Seq<usize>)
    requires
        is_stable_order(keys, p),
        is_stable_order(keys, q),
    ensures
        p == q,
{
    assert forall|i: int| 0 <= i < p.len() implies p[i] == q[i] by {
        lemma_stable_order_agree_at(keys, p, q, i);
    }
    assert(p =~= q);
}

proof fn lemma_stable_order_agree_at(keys: Seq<i64>, p: Seq<usize>, q: Seq<usize>, i: int)
    requires
        is_stable_order(keys, p),
        is_stable_order(keys, q),
        0 <= i < p.len(),
    ensures
        p[i] == q[i],
    decreases i,
{
    if i > 0 {
        lemma_stable_order_agree_at(keys, p, q, i - 1);
    }
    assert forall|k: int| 0 <= k < i implies p[k] == q[k] by {
        if k < i - 1 {
            lemma_stable_order_agree_at(keys, p, q, k);
        }
    }
    if p[i] != q[i] {
        assert(q.contains(p[i]));
        assert(p.contains(q[i]));
        let jq = choose|j: int| 0 <= j < q.len() && q[j] == p[i];
        let jp = choose|j: int| 0 <= j < p.len() && p[j] == q[i];
        if jq < i {
            assert(p[jq] == q[jq]);
            assert(precedes(keys, p[jq], p[i]));
        }
        if jp < i {
            assert(p[jp] == q[jp]);
            assert(precedes(keys, q[jp], q[i]));
        }
        assert(jq > i && jp > i);
        assert(precedes(keys, q[i], q[jq]));
        assert(precedes(keys, p[i], p[jp]));
    }
}

} // verus!
