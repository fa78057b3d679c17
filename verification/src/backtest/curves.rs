//! Merging the per-asset equity curves of a backtest into one total curve.
//!
//! Each asset's curve is a list of `(timestamp, equity)` bars. With a single
//! asset the total curve is that curve. With several, the total curve has one
//! bar per distinct timestamp of any asset, in ascending order, and its value
//! is the sum over the assets of each asset's latest equity at that time (an
//! asset that has no bar yet counts with its first equity, an asset with no
//! bars at all counts as zero). This module computes which bar of each curve
//! enters each total bar; the caller adds the equities up.

use vstd::prelude::*;

use crate::sorting::stable_order_by_key;

verus! {

broadcast use vstd::seq_lib::lemma_seq_contains_after_push;

/// Number of leading bars of `curve` stamped at or before `t`.
pub open spec fn leading_at_or_before(curve: Seq<i64>, t: i64) -> nat
    decreases curve.len(),
{
    if curve.len() == 0 || curve[0] > t {
        0
    } else {
        1 + leading_at_or_before(curve.drop_first(), t)
    }
}

/// The bar of `curve` whose equity counts at time `t`: the last bar of the
/// leading run stamped at or before `t`, else the first bar; none when the
/// curve is empty.
pub open spec fn bar_at(curve: Seq<i64>, t: i64) -> Option<usize> {
    if curve.len() == 0 {
        None
    } else if leading_at_or_before(curve, t) == 0 {
        Some(0)
    } else {
        Some((leading_at_or_before(curve, t) - 1) as usize)
    }
}

/// Some curve has a bar stamped `t`.
pub open spec fn stamped_in(curves: Seq<Seq<i64>>, t: i64) -> bool {
    exists|c: int, j: int| 0 <= c < curves.len() && 0 <= j < curves[c].len() && curves[c][j] == t
}

/// `ts` lists every timestamp of every curve once, in ascending order.
pub open spec fn is_merged_axis(curves: Seq<Seq<i64>>, ts: Seq<i64>) -> bool {
    &&& forall|k: int, l: int| 0 <= k < l < ts.len() ==> #[trigger] ts[k] < #[trigger] ts[l]
    &&& forall|k: int| 0 <= k < ts.len() ==> stamped_in(curves, #[trigger] ts[k])
    &&& forall|c: int, j: int|
        0 <= c < curves.len() && 0 <= j < curves[c].len() ==> ts.contains(#[trigger] curves[c][j])
}

/// `ts` and `picks` describe the merged curve of `curves`: total bar `k` is
/// stamped `ts[k]` and adds up, for each curve `c`, the bar `picks[k][c]` of
/// that curve (none for an empty curve).
pub open spec fn is_merge_plan(curves: Seq<Seq<i64>>, ts: Seq<i64>, picks: Seq<Seq<Option<usize>>>) -> bool {
    &&& picks.len() == ts.len()
    &&& if curves.len() == 1 {
        &&& ts == curves[0]
        &&& forall|k: int| 0 <= k < picks.len() ==> #[trigger] picks[k] == seq![Some(k as usize)]
    } else {
        &&& is_merged_axis(curves, ts)
        &&& forall|k: int|
            0 <= k < picks.len() ==> {
                &&& (#[trigger] picks[k]).len() == curves.len()
                &&& forall|c: int|
                    0 <= c < curves.len() ==> picks[k][c] == bar_at(curves[c], ts[k])
            }
    }
}

/// How to build the total equity curve: the timestamps of its bars, and for
/// each bar the bar of each asset curve that it adds up.
pub struct MergePlan {
    pub timestamps: Vec<i64>,
    pub picks: Vec<Vec<Option<usize>>>,
}

/// The curves' timestamps as sequences.
pub open spec fn curve_views(curves: Seq<Vec<i64>>) -> Seq<Seq<i64>> {
    Seq::new(curves.len(), |c: int| curves[c]@)
}

/// The picks as sequences.
pub open spec fn pick_views(picks: Seq<Vec<Option<usize>>>) -> Seq<Seq<Option<usize>>> {
    Seq::new(picks.len(), |k: int| picks[k]@)
}

proof fn lemma_leading_exact(curve: Seq<i64>, t: i64, m: int)
    requires
        0 <= m <= curve.len(),
        forall|j: int| 0 <= j < m ==> curve[j] <= t,
        m == curve.len() || curve[m] > t,
    ensures
        leading_at_or_before(curve, t) == m,
    decreases m,
{
    if m > 0 {
        let rest = curve.drop_first();
        assert forall|j: int| 0 <= j < m - 1 implies rest[j] <= t by {
            assert(rest[j] == curve[j + 1]);
        }
        if m < curve.len() {
            assert(rest[m - 1] == curve[m]);
        }
        lemma_leading_exact(rest, t, m - 1);
    }
}

/// Every timestamp of the curves, curve by curve.
fn all_timestamps(curves: &Vec<Vec<i64>>) -> (all: Vec<i64>)
    ensures
        forall|x: int| 0 <= x < all.len() ==> stamped_in(curve_views(curves@), #[trigger] all@[x]),
        forall|c: int, j: int|
            0 <= c < curves.len() && 0 <= j < curves@[c].len() ==> all@.contains(
                #[trigger] curves@[c]@[j],
            ),
{
    let ghost cv = curve_views(curves@);
    let mut all: Vec<i64> = Vec::new();
    let mut c: usize = 0;
    while c < curves.len()
        invariant
            c <= curves.len(),
            cv == curve_views(curves@),
            forall|x: int| 0 <= x < all.len() ==> stamped_in(cv, #[trigger] all@[x]),
            forall|c2: int, j: int|
                0 <= c2 < c && 0 <= j < curves@[c2].len() ==> all@.contains(
                    #[trigger] curves@[c2]@[j],
                ),
        decreases curves.len() - c,
    {
        let curve = &curves[c];
        let mut j: usize = 0;
        while j < curve.len()
            invariant
                c < curves.len(),
                *curve == curves@[c as int],
                j <= curve.len(),
                cv == curve_views(curves@),
                forall|x: int| 0 <= x < all.len() ==> stamped_in(cv, #[trigger] all@[x]),
                forall|c2: int, j2: int|
                    0 <= c2 < c && 0 <= j2 < curves@[c2].len() ==> all@.contains(
                        #[trigger] curves@[c2]@[j2],
                    ),
                forall|j2: int| 0 <= j2 < j ==> all@.contains(#[trigger] curve@[j2]),
            decreases curve.len() - j,
        {
            let ghost old_all = all@;
            all.push(curve[j]);
            assert(cv[c as int][j as int] == curve@[j as int]);
            assert(stamped_in(cv, curve@[j as int]));
            assert forall|x: int| 0 <= x < all.len() implies stamped_in(cv, #[trigger] all@[x]) by {
                if x < old_all.len() {
                    assert(all@[x] == old_all[x]);
                }
            }
            j += 1;
        }
        c += 1;
    }
    all
}

/// The ascending list of distinct timestamps of all the curves.
fn merged_axis(curves: &Vec<Vec<i64>>) -> (ts: Vec<i64>)
    ensures
        is_merged_axis(curve_views(curves@), ts@),
{
    let ghost cv = curve_views(curves@);
    let all = all_timestamps(curves);
    let order = stable_order_by_key(&all);
    let mut ts: Vec<i64> = Vec::new();
    let mut k: usize = 0;
    while k < order.len()
        invariant
            k <= order.len() == all.len(),
            cv == curve_views(curves@),
            forall|x: int| 0 <= x < all.len() ==> stamped_in(cv, #[trigger] all@[x]),
            forall|x: int| 0 <= x < order.len() ==> #[trigger] order@[x] < all.len(),
            forall|i: int, j: int|
                0 <= i < j < order.len() ==> all@[order@[i] as int] <= all@[order@[j] as int],
            forall|a: int, b: int| 0 <= a < b < ts.len() ==> #[trigger] ts@[a] < #[trigger] ts@[b],
            k > 0 ==> ts.len() > 0 && ts@.last() == all@[order@[k - 1] as int],
            k == 0 ==> ts.len() == 0,
            forall|x: int| 0 <= x < k ==> ts@.contains(#[trigger] all@[order@[x] as int]),
            forall|a: int|
                0 <= a < ts.len() ==> exists|x: int|
                    0 <= x < k && #[trigger] ts@[a] == all@[order@[x] as int],
        decreases order.len() - k,
    {
        let v = all[order[k]];
        let ghost old_ts = ts@;
        if ts.len() == 0 || ts[ts.len() - 1] != v {
            proof {
                if k > 0 {
                    assert(all@[order@[k - 1] as int] <= all@[order@[k as int] as int]);
                }
            }
            ts.push(v);
            assert forall|a: int| 0 <= a < ts.len() implies exists|x: int|
                0 <= x < k + 1 && #[trigger] ts@[a] == all@[order@[x] as int] by {
                if a < old_ts.len() {
                    assert(ts@[a] == old_ts[a]);
                    let x = choose|x: int| 0 <= x < k && old_ts[a] == all@[order@[x] as int];
                } else {
                    assert(ts@[a] == all@[order@[k as int] as int]);
                }
            }
        } else {
            assert(ts@[ts.len() - 1] == v);
        }
        k += 1;
    }
    assert forall|a: int| 0 <= a < ts.len() implies stamped_in(cv, #[trigger] ts@[a]) by {
        let x = choose|x: int| 0 <= x < k && ts@[a] == all@[order@[x] as int];
        assert(stamped_in(cv, all@[order@[x] as int]));
    }
    assert forall|c: int, j: int| 0 <= c < cv.len() && 0 <= j < cv[c].len() implies ts@.contains(
        #[trigger] cv[c][j],
    ) by {
        assert(cv[c][j] == curves@[c]@[j]);
        assert(all@.contains(curves@[c]@[j]));
        let x = choose|x: int| 0 <= x < all.len() && all@[x] == curves@[c]@[j];
        assert(order@.contains(x as usize));
        let y = choose|y: int| 0 <= y < order.len() && order@[y] == x as usize;
        assert(ts@.contains(all@[order@[y] as int]));
    }
    ts
}

/// Plans the total equity curve of the per-asset curves whose bar timestamps are `curves`.
pub fn merge_plan(curves: &Vec<Vec<i64>>) -> (plan: MergePlan)
    ensures
        is_merge_plan(curve_views(curves@), plan.timestamps@, pick_views(plan.picks@)),
{
    let ghost cv = curve_views(curves@);
    if curves.len() == 1 {
        let curve = &curves[0];
        let mut ts: Vec<i64> = Vec::new();
        let mut picks: Vec<Vec<Option<usize>>> = Vec::new();
        let mut k: usize = 0;
        while k < curve.len()
            invariant
                k <= curve.len(),
                ts@ == curve@.take(k as int),
                picks.len() == k,
                forall|x: int| 0 <= x < k ==> (#[trigger] picks@[x])@ == seq![Some(x as usize)],
            decreases curve.len() - k,
        {
            ts.push(curve[k]);
            let mut row: Vec<Option<usize>> = Vec::new();
            row.push(Some(k));
            assert(row@ =~= seq![Some(k)]);
            picks.push(row);
            assert(curve@.take(k + 1) =~= curve@.take(k as int).push(curve@[k as int]));
            k += 1;
        }
        assert(curve@.take(k as int) =~= curve@);
        let plan = MergePlan { timestamps: ts, picks };
        assert(cv[0] == curve@);
        return plan;
    }
    let ts = merged_axis(curves);
    let n = curves.len();
    let mut heads: Vec<usize> = Vec::new();
    let mut c: usize = 0;
    while c < n
        invariant
            c <= n == curves.len(),
            heads.len() == c,
            forall|x: int| 0 <= x < c ==> heads@[x] == 0,
        decreases n - c,
    {
        heads.push(0);
        c += 1;
    }
    let mut picks: Vec<Vec<Option<usize>>> = Vec::new();
    let mut k: usize = 0;
    while k < ts.len()
        invariant
            n == curves.len(),
            cv == curve_views(curves@),
            is_merged_axis(cv, ts@),
            k <= ts.len(),
            heads.len() == n,
            picks.len() == k,
            forall|c2: int| 0 <= c2 < n ==> #[trigger] heads@[c2] <= curves@[c2].len(),
            k > 0 ==> forall|c2: int, j: int|
                0 <= c2 < n && 0 <= j < heads@[c2] ==> #[trigger] curves@[c2]@[j] <= ts@[k - 1],
            k == 0 ==> forall|c2: int| 0 <= c2 < n ==> #[trigger] heads@[c2] == 0,
            forall|x: int|
                0 <= x < k ==> {
                    &&& (#[trigger] picks@[x])@.len() == n
                    &&& forall|c2: int| 0 <= c2 < n ==> picks@[x]@[c2] == bar_at(cv[c2], ts@[x])
                },
        decreases ts.len() - k,
    {
        let t = ts[k];
        let mut row: Vec<Option<usize>> = Vec::new();
        let mut c: usize = 0;
        while c < n
            invariant
                n == curves.len(),
                cv == curve_views(curves@),
                is_merged_axis(cv, ts@),
                k < ts.len(),
                t == ts@[k as int],
                c <= n,
                heads.len() == n,
                row.len() == c,
                forall|c2: int| 0 <= c2 < n ==> #[trigger] heads@[c2] <= curves@[c2].len(),
                forall|c2: int, j: int|
                    0 <= c2 < c && 0 <= j < heads@[c2] ==> #[trigger] curves@[c2]@[j] <= t,
                k > 0 ==> forall|c2: int, j: int|
                    c <= c2 < n && 0 <= j < heads@[c2] ==> #[trigger] curves@[c2]@[j] <= ts@[k - 1],
                k == 0 ==> forall|c2: int| c <= c2 < n ==> #[trigger] heads@[c2] == 0,
                forall|c2: int| 0 <= c2 < c ==> row@[c2] == bar_at(cv[c2], t),
            decreases n - c,
        {
            let curve = &curves[c];
            let mut h = heads[c];
            proof {
                if k > 0 {
                    assert(ts@[k - 1] < ts@[k as int]);
                }
            }
            while h < curve.len() && curve[h] <= t
                invariant
                    *curve == curves@[c as int],
                    h <= curve.len(),
                    forall|j: int| 0 <= j < h ==> curve@[j] <= t,
                decreases curve.len() - h,
            {
                h += 1;
            }
            proof {
                lemma_leading_exact(curve@, t, h as int);
                assert(cv[c as int] == curve@);
            }
            let ghost old_heads = heads@;
            heads.set(c, h);
            let pick = if curve.len() == 0 {
                None
            } else if h == 0 {
                Some(0)
            } else {
                Some(h - 1)
            };
            row.push(pick);
            assert forall|c2: int, j: int|
                0 <= c2 < c + 1 && 0 <= j < heads@[c2] implies #[trigger] curves@[c2]@[j] <= t by {
                if c2 < c {
                    assert(heads@[c2] == old_heads[c2]);
                }
            }
            c += 1;
        }
        picks.push(row);
        k += 1;
    }
    MergePlan { timestamps: ts, picks }
}

/// For a curve whose bars ascend in time, the bar counted at time `t` is the
/// latest bar stamped at or before `t` (the first bar when there is none).
pub proof fn lemma_bar_at_is_latest(curve: Seq<i64>, t: i64)
    requires
        0 < curve.len() <= usize::MAX,
        forall|i: int, j: int| 0 <= i < j < curve.len() ==> curve[i] <= curve[j],
    ensures
        ({
            let j = bar_at(curve, t)->0 as int;
            &&& 0 <= j < curve.len()
            &&& (exists|i: int| 0 <= i < curve.len() && curve[i] <= t) ==> curve[j] <= t
                && forall|i: int| j < i < curve.len() ==> curve[i] > t
            &&& (forall|i: int| 0 <= i < curve.len() ==> curve[i] > t) ==> j == 0
        }),
{
    let m = leading_at_or_before(curve, t);
    lemma_leading_bounds(curve, t);
    if m < curve.len() {
        assert forall|i: int| m <= i < curve.len() implies curve[i] > t by {
            assert(curve[m as int] <= curve[i]);
        }
    }
    if exists|i: int| 0 <= i < curve.len() && curve[i] <= t {
        let i = choose|i: int| 0 <= i < curve.len() && curve[i] <= t;
        if m == 0 {
            assert(curve[0] <= curve[i]);
        }
    }
}

proof fn lemma_leading_bounds(curve: Seq<i64>, t: i64)
    ensures
        leading_at_or_before(curve, t) <= curve.len(),
        forall|j: int| 0 <= j < leading_at_or_before(curve, t) ==> curve[j] <= t,
        leading_at_or_before(curve, t) < curve.len() ==> curve[leading_at_or_before(curve, t) as int] > t,
    decreases curve.len(),
{
    if curve.len() > 0 && curve[0] <= t {
        let rest = curve.drop_first();
        lemma_leading_bounds(rest, t);
        assert forall|j: int| 0 <= j < leading_at_or_before(curve, t) implies curve[j] <= t by {
            if j > 0 {
                assert(curve[j] == rest[j - 1]);
            }
        }
    }
}

} // verus!
