//! Partition consistency: summing the partial counts of all residue
//! classes gives exactly the full count.
//!
//! The main result is [`lemma_partition_consistency`]: for a positive
//! dimension list that fits the engine and a partition count between two
//! and the leaf count, the sum over all partitions of the partition's
//! residue-class sum equals the single full search.  The proof walks the
//! search recursion: above the partition depth every run explores the
//! same tree, at the partition depth the candidate lists of the residue
//! classes partition the unfiltered candidate list, and below it the
//! filter is inactive again.
use vstd::prelude::*;

use crate::model::{
    admitted, all_positive, axis_walk, child_sum, clip0, fold_total, gap_candidates, gaps_axes,
    keep_full, leaf_total, lemma_push_contains, lemma_record_visit_inv, partition_sum,
    record_visit, residue_sum, scratch_inv, search_total, splice_in, stride, table_entry, upto,
    walk_fuel, zero_row, GapScratch, MAX_LEAVES,
};
use crate::tables::{
    lemma_axes_inv, lemma_coord_bounds, lemma_stride_pos, lemma_table_entry_range, succ_in_range,
};

verus! {

use crate::accum::lemma_mod_mul_vanish;
use vstd::arithmetic::div_mod::{lemma_fundamental_div_mod, lemma_small_mod};

/// For `0 <= j < k`, the difference `x - j` is a multiple of `k` exactly
/// when `j` is the residue of `x`.
proof fn lemma_mod_eq_iff(x: int, j: int, k: int)
    requires
        k >= 1,
        0 <= j < k,
        x >= 0,
    ensures
        (x - j) % k == 0 <==> x % k == j,
{
    let r = x % k;
    lemma_fundamental_div_mod(x, k);
    lemma_mod_mul_vanish(r - j, x / k, k);
    assert(x - j == (r - j) + k * (x / k));
    assert((x - j) % k == (r - j) % k);
    if r >= j {
        lemma_small_mod((r - j) as nat, k as nat);
    } else {
        lemma_mod_mul_vanish(r - j, 1, k);
        assert((r - j) + k * 1 == r - j + k);
        lemma_small_mod((r - j + k) as nat, k as nat);
        assert((r - j) % k == r - j + k);
    }
}

/// Sum of the guarded runs with residues `i, i + 1, ..., n - 1`, all with
/// the same partition depth `k`.
spec fn every_residue_sum(p: Seq<int>, n: int, k: int, i: int) -> int
    decreases clip0(n - i),
{
    if i < n {
        fold_total(p, true, i, k) + every_residue_sum(p, n, k, i + 1)
    } else {
        0
    }
}

/// One residue class, restricted to a smaller range bound: removing the
/// topmost residue `n - 1` removes exactly its term.
proof fn lemma_residue_sum_shrink(p: Seq<int>, n: int, j: int, k: int)
    requires
        k >= 1,
        n >= 1,
        j >= 0,
    ensures
        residue_sum(p, n, j, k) == residue_sum(p, n - 1, j, k) + if j <= n - 1 && (n - 1 - j) % k
            == 0 {
            fold_total(p, true, n - 1, k)
        } else {
            0
        },
    decreases clip0(n - j),
{
    if j >= n {
    } else if j == n - 1 {
        assert(residue_sum(p, n, j + k, k) == 0);
        assert(residue_sum(p, n - 1, j, k) == 0);
        assert((n - 1 - j) % k == 0) by {
            lemma_small_mod(0nat, k as nat);
        }
    } else {
        lemma_residue_sum_shrink(p, n, j + k, k);
        assert((n - 1 - (j + k)) % k == (n - 1 - j) % k) by {
            lemma_mod_mul_vanish(n - 1 - j, -1, k);
            assert((n - 1 - j) + k * (-1) == n - 1 - (j + k));
        }
        if (n - 1 - j) % k == 0 {
            // A positive multiple of `k` is at least `k`.
            let d = n - 1 - j;
            lemma_fundamental_div_mod(d, k);
            assert(d == k * (d / k));
            assert(d / k >= 1 && k * (d / k) >= k) by (nonlinear_arith)
                requires
                    k >= 1,
                    d >= 1,
                    d == k * (d / k),
            ;
            assert(j + k <= n - 1);
        }
    }
}

/// The partition tail sum, restricted to a smaller range bound: the term
/// of the topmost residue lands in exactly one partition.
proof fn lemma_partition_sum_shrink(p: Seq<int>, n: int, k: int, j: int)
    requires
        k >= 1,
        n >= 1,
        0 <= j <= k,
    ensures
        partition_sum(p, n, k, j) == partition_sum(p, n - 1, k, j) + if j <= (n - 1) % k {
            fold_total(p, true, n - 1, k)
        } else {
            0
        },
    decreases k - j,
{
    let r = (n - 1) % k;
    assert(0 <= r < k);
    if j >= k {
    } else {
        lemma_partition_sum_shrink(p, n, k, j + 1);
        lemma_residue_sum_shrink(p, n, j, k);
        lemma_mod_eq_iff(n - 1, j, k);
        assert(r <= n - 1) by {
            vstd::arithmetic::div_mod::lemma_mod_decreases((n - 1) as nat, k as nat);
        }
        if j == r {
            assert(j <= n - 1 && (n - 1 - j) % k == 0);
        }
    }
}

/// The flat residue sum, restricted to a smaller range bound.
proof fn lemma_every_residue_shrink(p: Seq<int>, n: int, k: int, i: int)
    requires
        n >= 1,
        i >= 0,
    ensures
        every_residue_sum(p, n, k, i) == every_residue_sum(p, n - 1, k, i) + if i <= n - 1 {
            fold_total(p, true, n - 1, k)
        } else {
            0
        },
    decreases clip0(n - i),
{
    if i < n {
        lemma_every_residue_shrink(p, n, k, i + 1);
    }
}

/// Partitioning the residues `0..n` by their class modulo `k` is a
/// reindexing: both nested sums add up the same runs.
proof fn lemma_partition_reindex(p: Seq<int>, n: int, k: int)
    requires
        k >= 1,
        n >= 0,
    ensures
        partition_sum(p, n, k, 0) == every_residue_sum(p, n, k, 0),
    decreases n,
{
    if n == 0 {
        lemma_partition_sum_empty(p, n, k, 0);
    } else {
        lemma_partition_reindex(p, n - 1, k);
        lemma_partition_sum_shrink(p, n, k, 0);
        lemma_every_residue_shrink(p, n, k, 0);
        assert(0 <= (n - 1) % k);
    }
}

/// With an empty residue range every partition is empty.
proof fn lemma_partition_sum_empty(p: Seq<int>, n: int, k: int, j: int)
    requires
        n <= 0,
        j >= 0,
    ensures
        partition_sum(p, n, k, j) == 0,
    decreases clip0(k - j),
{
    if 0 <= j < k {
        lemma_partition_sum_empty(p, n, k, j + 1);
    }
}


/// With the filter inactive at this chain length, the axis walk records
/// every visit whatever the residue parameters are.
proof fn lemma_walk_nofilter(
    p: Seq<int>,
    b: Seq<int>,
    i: int,
    l: int,
    m: int,
    fuel: nat,
    res1: int,
    mod1: int,
    res2: int,
    mod2: int,
    st: GapScratch,
)
    requires
        mod1 == 0 || l != mod1,
        mod2 == 0 || l != mod2,
    ensures
        axis_walk(p, b, i, l, m, fuel, res1, mod1, st) == axis_walk(
            p,
            b,
            i,
            l,
            m,
            fuel,
            res2,
            mod2,
            st,
        ),
    decreases fuel,
{
    if m == l || fuel == 0 {
    } else {
        let st1 = record_visit(st, l, m, res1, mod1);
        assert(st1 == record_visit(st, l, m, res2, mod2));
        lemma_walk_nofilter(
            p,
            b,
            i,
            l,
            crate::model::table_entry(p, i, l, b[m]),
            (fuel - 1) as nat,
            res1,
            mod1,
            res2,
            mod2,
            st1,
        );
    }
}

/// With the filter inactive, processing the axes is independent of the
/// residue parameters.
proof fn lemma_axes_nofilter(
    p: Seq<int>,
    n: int,
    b: Seq<int>,
    l: int,
    i: int,
    res1: int,
    mod1: int,
    res2: int,
    mod2: int,
)
    requires
        mod1 == 0 || l != mod1,
        mod2 == 0 || l != mod2,
    ensures
        gaps_axes(p, n, b, l, i, res1, mod1) == gaps_axes(p, n, b, l, i, res2, mod2),
    decreases i,
{
    if i > 0 {
        lemma_axes_nofilter(p, n, b, l, i - 1, res1, mod1, res2, mod2);
        let st = gaps_axes(p, n, b, l, i - 1, res1, mod1).0;
        if crate::model::table_entry(p, i, l, l) == l {
        } else {
            lemma_walk_nofilter(
                p,
                b,
                i,
                l,
                crate::model::table_entry(p, i, l, l),
                walk_fuel(n),
                res1,
                mod1,
                res2,
                mod2,
                st,
            );
        }
    }
}

/// With the filter inactive, the candidate list is independent of the
/// residue parameters.
proof fn lemma_candidates_nofilter(
    p: Seq<int>,
    n: int,
    dim: int,
    b: Seq<int>,
    l: int,
    res1: int,
    mod1: int,
    res2: int,
    mod2: int,
)
    requires
        mod1 == 0 || l != mod1,
        mod2 == 0 || l != mod2,
    ensures
        gap_candidates(p, n, dim, b, l, res1, mod1) == gap_candidates(p, n, dim, b, l, res2, mod2),
{
    lemma_axes_nofilter(p, n, b, l, dim, res1, mod1, res2, mod2);
}

/// Every kept candidate comes from the collected list: it stays within
/// the list's value range.
proof fn lemma_keep_full_range(
    gaps: Seq<int>,
    counts: Seq<int>,
    need: int,
    j: int,
    lo: int,
    hi: int,
)
    requires
        0 <= j <= gaps.len(),
        forall|t: int| 0 <= t < gaps.len() ==> lo <= #[trigger] gaps[t] < hi,
    ensures
        forall|t: int|
            0 <= t < keep_full(gaps, counts, need, j).len() ==> lo <= #[trigger] keep_full(
                gaps,
                counts,
                need,
                j,
            )[t] < hi,
    decreases j,
{
    if j > 0 {
        lemma_keep_full_range(gaps, counts, need, j - 1, lo, hi);
        let pre = keep_full(gaps, counts, need, j - 1);
        let kf = keep_full(gaps, counts, need, j);
        assert forall|t: int| 0 <= t < kf.len() implies lo <= #[trigger] kf[t] < hi by {
            if counts[gaps[j - 1]] == need {
                assert(kf == pre.push(gaps[j - 1]));
                if t < pre.len() {
                    assert(kf[t] == pre[t]);
                } else {
                    assert(kf[t] == gaps[j - 1]);
                }
            } else {
                assert(kf == pre);
            }
        }
    }
}

/// The candidates for extending a fold of length `l - 1` are positions
/// `0..l`.
proof fn lemma_candidates_range(
    p: Seq<int>,
    n: int,
    dim: int,
    b: Seq<int>,
    l: int,
    res: int,
    mod_val: int,
)
    requires
        all_positive(p),
        dim == p.len(),
        1 <= l <= n,
        succ_in_range(b, n),
    ensures
        forall|t: int|
            0 <= t < gap_candidates(p, n, dim, b, l, res, mod_val).len() ==> 0 <= #[trigger]
                gap_candidates(p, n, dim, b, l, res, mod_val)[t] < l,
{
    lemma_axes_inv(p, n, b, l, dim, res, mod_val);
    let axr = gaps_axes(p, n, b, l, dim, res, mod_val);
    let gaps2 = if axr.1 == dim {
        axr.0.gaps + upto(l)
    } else {
        axr.0.gaps
    };
    assert(forall|t: int| 0 <= t < gaps2.len() ==> 0 <= #[trigger] gaps2[t] < l);
    lemma_keep_full_range(gaps2, axr.0.counts, dim - axr.1, gaps2.len() as int, 0, l);
}

/// Below the partition depth the filter is inactive for good: the search
/// no longer depends on the residue parameters.
proof fn lemma_search_past_depth(
    p: Seq<int>,
    n: int,
    dim: int,
    k: int,
    res: int,
    a: Seq<int>,
    b: Seq<int>,
    l: int,
)
    requires
        all_positive(p),
        dim == p.len(),
        n == leaf_total(p),
        n >= 1,
        0 <= k < l,
        l <= n + 1,
        succ_in_range(b, n),
    ensures
        search_total(p, n, dim, true, res, k, a, b, l) == search_total(
            p,
            n,
            dim,
            true,
            0,
            0,
            a,
            b,
            l,
        ),
    decreases n + 1 - l, 1int, 0int,
{
    if b[0] != 1 && l > 1 {
    } else if l == n + 1 {
    } else {
        lemma_candidates_nofilter(p, n, dim, b, l, res, k, 0, 0);
        let gs = gap_candidates(p, n, dim, b, l, 0, 0);
        lemma_candidates_range(p, n, dim, b, l, 0, 0);
        lemma_children_past_depth(p, n, dim, k, res, a, b, l, gs, 0);
    }
}

/// Companion of `lemma_search_past_depth` over the candidate tail.
proof fn lemma_children_past_depth(
    p: Seq<int>,
    n: int,
    dim: int,
    k: int,
    res: int,
    a: Seq<int>,
    b: Seq<int>,
    l: int,
    gs: Seq<int>,
    j: int,
)
    requires
        all_positive(p),
        dim == p.len(),
        n == leaf_total(p),
        n >= 1,
        0 <= k < l,
        1 <= l <= n,
        succ_in_range(b, n),
        forall|t: int| 0 <= t < gs.len() ==> 0 <= #[trigger] gs[t] < l,
        0 <= j,
    ensures
        child_sum(p, n, dim, true, res, k, a, b, l, gs, j) == child_sum(
            p,
            n,
            dim,
            true,
            0,
            0,
            a,
            b,
            l,
            gs,
            j,
        ),
    decreases n + 1 - l, 0int, clip0(gs.len() - j),
{
    if j < gs.len() {
        let g = gs[j];
        let spliced = splice_in(a, b, l, g);
        assert(succ_in_range(spliced.1, n));
        lemma_search_past_depth(p, n, dim, k, res, spliced.0, spliced.1, l + 1);
        lemma_children_past_depth(p, n, dim, k, res, a, b, l, gs, j + 1);
    }
}


/// An axis is trivial at chain length `l` exactly when the coordinate of
/// `l` along that axis is one.
proof fn lemma_trivial_axis_coord(p: Seq<int>, i: int, l: int)
    requires
        all_positive(p),
        1 <= i <= p.len(),
        1 <= l,
    ensures
        crate::model::table_entry(p, i, l, l) == l <==> crate::model::coord(p, i, l) == 1,
{
    lemma_stride_pos(p, i - 1);
    lemma_coord_bounds(p, i, l);
    assert(0int % 2 == 0) by {
        lemma_small_mod(0nat, 2nat);
    }
}

/// When every axis up to `i` was counted trivial, every one of them is.
proof fn lemma_axes_all_trivial(
    p: Seq<int>,
    n: int,
    b: Seq<int>,
    l: int,
    i: int,
    res: int,
    mod_val: int,
)
    requires
        all_positive(p),
        0 <= i <= p.len(),
        1 <= l <= n,
        succ_in_range(b, n),
        gaps_axes(p, n, b, l, i, res, mod_val).1 == i,
    ensures
        forall|i2: int| 1 <= i2 <= i ==> #[trigger] crate::model::table_entry(p, i2, l, l) == l,
    decreases i,
{
    if i > 0 {
        lemma_axes_inv(p, n, b, l, i - 1, res, mod_val);
        if crate::model::table_entry(p, i, l, l) == l {
            assert(gaps_axes(p, n, b, l, i - 1, res, mod_val).1 == i - 1);
            lemma_axes_all_trivial(p, n, b, l, i - 1, res, mod_val);
        } else {
            assert(gaps_axes(p, n, b, l, i, res, mod_val).1 == gaps_axes(
                p,
                n,
                b,
                l,
                i - 1,
                res,
                mod_val,
            ).1);
            assert(false);
        }
    }
}

/// A number below the leaf total whose mixed-radix digits all vanish is
/// divisible by every stride.
proof fn lemma_digits_zero_prefix(p: Seq<int>, x: int, j: int)
    requires
        all_positive(p),
        0 <= x,
        0 <= j <= p.len(),
        forall|i: int|
            1 <= i <= p.len() ==> (x / stride(p, i - 1)) % #[trigger] p[i - 1] == 0,
    ensures
        x % stride(p, j) == 0,
    decreases j,
{
    if j == 0 {
        lemma_fundamental_div_mod(x, 1);
    } else {
        lemma_digits_zero_prefix(p, x, j - 1);
        let s = stride(p, j - 1);
        let pj = p[j - 1];
        lemma_stride_pos(p, j - 1);
        let q = x / s;
        lemma_fundamental_div_mod(x, s);
        assert(x == s * q);
        assert((x / s) % pj == 0);
        let q2 = q / pj;
        lemma_fundamental_div_mod(q, pj);
        assert(q == pj * q2);
        assert(x == (s * pj) * q2) by (nonlinear_arith)
            requires
                x == s * q,
                q == pj * q2,
        ;
        assert(stride(p, j) == s * pj);
        assert(x % stride(p, j) == 0) by {
            lemma_stride_pos(p, j);
            lemma_mod_mul_vanish(0, q2, stride(p, j));
            assert(0 + stride(p, j) * q2 == x) by (nonlinear_arith)
                requires
                    x == (s * pj) * q2,
                    stride(p, j) == s * pj,
            ;
            lemma_small_mod(0nat, stride(p, j) as nat);
        }
    }
}

/// At chain lengths of at least two, some axis is non-trivial: the gap
/// computation never reaches its all-trivial fallback.
proof fn lemma_dd_below_dim(p: Seq<int>, n: int, b: Seq<int>, l: int, res: int, mod_val: int)
    requires
        all_positive(p),
        n == leaf_total(p),
        2 <= l <= n,
        succ_in_range(b, n),
    ensures
        gaps_axes(p, n, b, l, p.len() as int, res, mod_val).1 < p.len(),
{
    let dim = p.len() as int;
    lemma_axes_inv(p, n, b, l, dim, res, mod_val);
    if gaps_axes(p, n, b, l, dim, res, mod_val).1 == dim {
        lemma_axes_all_trivial(p, n, b, l, dim, res, mod_val);
        assert forall|i: int|
            1 <= i <= dim implies ((l - 1) / stride(p, i - 1)) % #[trigger] p[i - 1] == 0 by {
            lemma_trivial_axis_coord(p, i, l);
            lemma_coord_bounds(p, i, l);
        }
        lemma_digits_zero_prefix(p, l - 1, dim);
        assert((l - 1) % stride(p, dim) == 0);
        lemma_small_mod((l - 1) as nat, n as nat);
        assert(false);
    }
}


/// Relation between the scratch state of a run filtered at its own
/// partition depth and the unfiltered state: the filtered run collects at
/// most its own residue, with the same occurrence count.
spec fn filtered_rel(sti: GapScratch, stb: GapScratch, i: int, n: int) -> bool {
    &&& sti.counts.len() == n + 1
    &&& stb.counts.len() == n + 1
    &&& sti.gaps == if stb.gaps.contains(i) {
        seq![i]
    } else {
        Seq::<int>::empty()
    }
    &&& (forall|v: int|
        0 <= v <= n ==> #[trigger] sti.counts[v] == if v == i {
            stb.counts[v]
        } else {
            0
        })
}

/// Recording one visit preserves the filtered-state relation.
proof fn lemma_record_rel(
    sti: GapScratch,
    stb: GapScratch,
    i: int,
    n: int,
    l: int,
    m: int,
    k: int,
)
    requires
        filtered_rel(sti, stb, i, n),
        scratch_inv(stb, n, l),
        0 <= m < l,
        l == k,
        1 <= l <= n,
        0 <= i,
    ensures
        filtered_rel(record_visit(sti, l, m, i, k), record_visit(stb, l, m, 0, 0), i, n),
{
    lemma_small_mod(m as nat, k as nat);
    assert(admitted(l, m, i, k) <==> m == i);
    let sti2 = record_visit(sti, l, m, i, k);
    let stb2 = record_visit(stb, l, m, 0, 0);
    if m == i {
        if stb.counts[i] == 0 {
            assert(!stb.gaps.contains(i));
            assert(sti.gaps == Seq::<int>::empty());
            assert(sti.counts[i] == 0);
            assert(sti2.gaps =~= seq![i]);
            assert(stb2.gaps == stb.gaps.push(i));
            assert(stb2.gaps[stb2.gaps.len() - 1] == i);
            assert(stb2.gaps.contains(i));
        } else {
            assert(stb.gaps.contains(i));
            assert(sti.gaps == seq![i]);
            assert(sti.counts[i] == stb.counts[i]);
            assert(sti2.gaps == seq![i]);
            lemma_push_contains(stb.gaps, m, i);
        }
    } else {
        assert(sti2 == sti);
        assert(stb2.gaps.contains(i) <==> stb.gaps.contains(i)) by {
            if stb.counts[m] == 0 {
                if stb.gaps.contains(i) {
                    lemma_push_contains(stb.gaps, m, i);
                }
                if stb.gaps.push(m).contains(i) {
                    let t = choose|t: int|
                        0 <= t < stb.gaps.push(m).len() && stb.gaps.push(m)[t] == i;
                    if t < stb.gaps.len() {
                        assert(stb.gaps[t] == i);
                    } else {
                        assert(false);
                    }
                }
            }
        }
    }
}

/// The axis walk preserves the filtered-state relation: both runs visit
/// the same leaves in the same order.
proof fn lemma_walk_rel(
    p: Seq<int>,
    b: Seq<int>,
    ax: int,
    l: int,
    m: int,
    fuel: nat,
    i: int,
    k: int,
    sti: GapScratch,
    stb: GapScratch,
    n: int,
)
    requires
        filtered_rel(sti, stb, i, n),
        scratch_inv(stb, n, l),
        all_positive(p),
        1 <= ax <= p.len(),
        l == k,
        1 <= l <= n,
        succ_in_range(b, n),
        0 <= m <= l,
        0 <= i,
    ensures
        filtered_rel(
            axis_walk(p, b, ax, l, m, fuel, i, k, sti),
            axis_walk(p, b, ax, l, m, fuel, 0, 0, stb),
            i,
            n,
        ),
        scratch_inv(axis_walk(p, b, ax, l, m, fuel, 0, 0, stb), n, l),
    decreases fuel,
{
    if m == l || fuel == 0 {
    } else {
        lemma_record_rel(sti, stb, i, n, l, m, k);
        lemma_record_visit_inv(stb, n, l, m, 0, 0);
        lemma_table_entry_range(p, ax, l, b[m]);
        lemma_walk_rel(
            p,
            b,
            ax,
            l,
            table_entry(p, ax, l, b[m]),
            (fuel - 1) as nat,
            i,
            k,
            record_visit(sti, l, m, i, k),
            record_visit(stb, l, m, 0, 0),
            n,
        );
    }
}

/// Processing the axes preserves the filtered-state relation and counts
/// the same trivial axes.
proof fn lemma_axes_rel(p: Seq<int>, n: int, b: Seq<int>, l: int, ax: int, i: int, k: int)
    requires
        all_positive(p),
        0 <= ax <= p.len(),
        l == k,
        1 <= l <= n,
        succ_in_range(b, n),
        0 <= i,
    ensures
        filtered_rel(
            gaps_axes(p, n, b, l, ax, i, k).0,
            gaps_axes(p, n, b, l, ax, 0, 0).0,
            i,
            n,
        ),
        gaps_axes(p, n, b, l, ax, i, k).1 == gaps_axes(p, n, b, l, ax, 0, 0).1,
    decreases ax,
{
    if ax <= 0 {
        let st0 = gaps_axes(p, n, b, l, ax, i, k).0;
        assert(st0.counts == zero_row(n + 1));
        assert(forall|v: int| 0 <= v <= n ==> #[trigger] st0.counts[v] == 0);
        assert(!st0.gaps.contains(i));
    } else {
        lemma_axes_rel(p, n, b, l, ax - 1, i, k);
        lemma_axes_inv(p, n, b, l, ax - 1, 0, 0);
        let sti = gaps_axes(p, n, b, l, ax - 1, i, k).0;
        let stb = gaps_axes(p, n, b, l, ax - 1, 0, 0).0;
        if table_entry(p, ax, l, l) == l {
        } else {
            lemma_table_entry_range(p, ax, l, l);
            lemma_walk_rel(p, b, ax, l, table_entry(p, ax, l, l), walk_fuel(n), i, k, sti, stb, n);
        }
    }
}

/// Membership in the kept candidates: a value is kept exactly when it was
/// collected and counted the required number of times.
proof fn lemma_keep_full_contains(gaps: Seq<int>, counts: Seq<int>, need: int, j: int, v: int)
    requires
        0 <= j <= gaps.len(),
    ensures
        keep_full(gaps, counts, need, j).contains(v) <==> ((exists|t: int|
            0 <= t < j && #[trigger] gaps[t] == v) && counts[v] == need),
    decreases j,
{
    if j > 0 {
        lemma_keep_full_contains(gaps, counts, need, j - 1, v);
        let pre = keep_full(gaps, counts, need, j - 1);
        let kf = keep_full(gaps, counts, need, j);
        if counts[gaps[j - 1]] == need {
            assert(kf == pre.push(gaps[j - 1]));
            if kf.contains(v) {
                let t = choose|t: int| 0 <= t < kf.len() && kf[t] == v;
                if t < pre.len() {
                    assert(pre[t] == v);
                } else {
                    assert(v == gaps[j - 1]);
                }
            }
            if pre.contains(v) {
                lemma_push_contains(pre, gaps[j - 1], v);
            }
            if v == gaps[j - 1] {
                assert(kf[kf.len() - 1] == v);
            }
        } else {
            assert(kf == pre);
        }
    }
}

/// At its own partition depth, the candidate list of a filtered run is
/// the singleton of its residue where the unfiltered run keeps it, and
/// empty otherwise.
proof fn lemma_candidates_partition(
    p: Seq<int>,
    n: int,
    dim: int,
    b: Seq<int>,
    l: int,
    i: int,
    k: int,
)
    requires
        all_positive(p),
        dim == p.len(),
        n == leaf_total(p),
        2 <= l <= n,
        l == k,
        succ_in_range(b, n),
        0 <= i <= n,
    ensures
        gap_candidates(p, n, dim, b, l, i, k) == if gap_candidates(
            p,
            n,
            dim,
            b,
            l,
            0,
            0,
        ).contains(i) {
            seq![i]
        } else {
            Seq::<int>::empty()
        },
{
    lemma_axes_rel(p, n, b, l, dim, i, k);
    lemma_axes_inv(p, n, b, l, dim, 0, 0);
    lemma_dd_below_dim(p, n, b, l, 0, 0);
    let fi = gaps_axes(p, n, b, l, dim, i, k);
    let fb = gaps_axes(p, n, b, l, dim, 0, 0);
    let need = dim - fb.1;
    assert(fi.1 == fb.1 && fb.1 < dim);
    let gi = gap_candidates(p, n, dim, b, l, i, k);
    let gb = gap_candidates(p, n, dim, b, l, 0, 0);
    assert(gi == keep_full(fi.0.gaps, fi.0.counts, need, fi.0.gaps.len() as int));
    assert(gb == keep_full(fb.0.gaps, fb.0.counts, need, fb.0.gaps.len() as int));
    lemma_keep_full_contains(fb.0.gaps, fb.0.counts, need, fb.0.gaps.len() as int, i);
    assert(gb.contains(i) <==> (fb.0.gaps.contains(i) && fb.0.counts[i] == need));
    if fb.0.gaps.contains(i) {
        assert(fi.0.gaps == seq![i]);
        assert(fi.0.counts[i] == fb.0.counts[i]);
        assert(keep_full(fi.0.gaps, fi.0.counts, need, 0) == Seq::<int>::empty());
        if fb.0.counts[i] == need {
            assert(gi =~= seq![i]);
            assert(gb.contains(i));
        } else {
            assert(gi =~= Seq::<int>::empty());
            assert(!gb.contains(i));
        }
    } else {
        assert(fi.0.gaps == Seq::<int>::empty());
        assert(gi =~= Seq::<int>::empty());
        assert(!gb.contains(i));
    }
}


/// Sum over the range `i..n` of `f` at the members of `s`.
spec fn range_sum_if(s: Seq<int>, n: int, f: spec_fn(int) -> int, i: int) -> int
    decreases clip0(n - i),
{
    if i < n {
        (if s.contains(i) {
            f(i)
        } else {
            0
        }) + range_sum_if(s, n, f, i + 1)
    } else {
        0
    }
}

/// Sum of `f` over the tail `s[j..]`.
spec fn list_sum(s: Seq<int>, f: spec_fn(int) -> int, j: int) -> int
    decreases clip0(s.len() - j),
{
    if 0 <= j < s.len() {
        f(s[j]) + list_sum(s, f, j + 1)
    } else {
        0
    }
}

/// Dropping the last element of the list drops its term from the sum.
proof fn lemma_list_sum_drop(s: Seq<int>, f: spec_fn(int) -> int, j: int)
    requires
        s.len() >= 1,
        0 <= j <= s.len(),
    ensures
        list_sum(s, f, j) == list_sum(s.drop_last(), f, j) + if j < s.len() {
            f(s.last())
        } else {
            0
        },
    decreases s.len() - j,
{
    if j < s.len() {
        lemma_list_sum_drop(s, f, j + 1);
        if j < s.len() - 1 {
            assert(s.drop_last()[j] == s[j]);
        }
    }
}

/// Dropping the last element of the list drops its term from the
/// range-membership sum.
proof fn lemma_range_sum_drop(s: Seq<int>, n: int, f: spec_fn(int) -> int, i: int)
    requires
        s.len() >= 1,
        s.no_duplicates(),
        forall|t: int| 0 <= t < s.len() ==> 0 <= #[trigger] s[t] < n,
        i >= 0,
    ensures
        range_sum_if(s, n, f, i) == range_sum_if(s.drop_last(), n, f, i) + if s.last() >= i {
            f(s.last())
        } else {
            0
        },
    decreases clip0(n - i),
{
    let g = s.last();
    let s2 = s.drop_last();
    if i < n {
        lemma_range_sum_drop(s, n, f, i + 1);
        assert(s.contains(i) <==> (s2.contains(i) || i == g)) by {
            if s2.contains(i) {
                let t = choose|t: int| 0 <= t < s2.len() && s2[t] == i;
                assert(s[t] == i);
            }
            if i == g {
                assert(s[s.len() - 1] == i);
            }
            if s.contains(i) && i != g {
                let t = choose|t: int| 0 <= t < s.len() && s[t] == i;
                assert(t < s.len() - 1);
                assert(s2[t] == i);
            }
        }
        if i == g {
            assert(!s2.contains(g)) by {
                if s2.contains(g) {
                    let t = choose|t: int| 0 <= t < s2.len() && s2[t] == g;
                    assert(s[t] == s[s.len() - 1]);
                }
            }
        }
    } else {
        assert(g < n <= i);
    }
}

/// With no members at all, the range-membership sum vanishes.
proof fn lemma_range_sum_empty(n: int, f: spec_fn(int) -> int, i: int)
    ensures
        range_sum_if(Seq::<int>::empty(), n, f, i) == 0,
    decreases clip0(n - i),
{
    if i < n {
        lemma_range_sum_empty(n, f, i + 1);
        assert(!Seq::<int>::empty().contains(i));
    }
}

/// Summing `f` over the distinct members of `s` by scanning the whole
/// range `0..n` gives the same total as summing along the list.
proof fn lemma_sum_over_contains(s: Seq<int>, n: int, f: spec_fn(int) -> int)
    requires
        s.no_duplicates(),
        forall|t: int| 0 <= t < s.len() ==> 0 <= #[trigger] s[t] < n,
    ensures
        range_sum_if(s, n, f, 0) == list_sum(s, f, 0),
    decreases s.len(),
{
    if s.len() == 0 {
        assert(s =~= Seq::<int>::empty());
        lemma_range_sum_empty(n, f, 0);
    } else {
        let s2 = s.drop_last();
        assert(s2.no_duplicates()) by {
            assert(forall|t: int, t2: int|
                0 <= t < t2 < s2.len() ==> s2[t] == s[t] && s2[t2] == s[t2]);
        }
        lemma_sum_over_contains(s2, n, f);
        lemma_range_sum_drop(s, n, f, 0);
        lemma_list_sum_drop(s, f, 0);
    }
}

/// The kept candidate list inherits distinctness from the collected list.
proof fn lemma_keep_full_distinct(gaps: Seq<int>, counts: Seq<int>, need: int, j: int)
    requires
        gaps.no_duplicates(),
        0 <= j <= gaps.len(),
    ensures
        keep_full(gaps, counts, need, j).no_duplicates(),
        forall|v: int| keep_full(gaps, counts, need, j).contains(v) ==> (exists|t: int|
            0 <= t < j && #[trigger] gaps[t] == v),
    decreases j,
{
    if j > 0 {
        lemma_keep_full_distinct(gaps, counts, need, j - 1);
        let pre = keep_full(gaps, counts, need, j - 1);
        let kf = keep_full(gaps, counts, need, j);
        let g = gaps[j - 1];
        if counts[g] == need {
            assert(kf == pre.push(g));
            assert(!pre.contains(g)) by {
                if pre.contains(g) {
                    let t = choose|t: int| 0 <= t < j - 1 && #[trigger] gaps[t] == g;
                    assert(gaps[t] == gaps[j - 1]);
                }
            }
            assert(kf.no_duplicates()) by {
                assert forall|t: int, t2: int|
                    0 <= t < kf.len() && 0 <= t2 < kf.len() && t != t2 implies kf[t] != kf[t2] by {
                    if t < pre.len() && t2 < pre.len() {
                    } else if t < pre.len() {
                        assert(kf[t2] == g);
                        if kf[t] == g {
                            assert(pre[t] == g);
                            assert(pre.contains(g));
                        }
                    } else {
                        assert(kf[t] == g);
                        if kf[t2] == g && t2 < pre.len() {
                            assert(pre.contains(g));
                        }
                    }
                }
            }
            assert forall|v: int| kf.contains(v) implies (exists|t: int|
                0 <= t < j && #[trigger] gaps[t] == v) by {
                let t = choose|t: int| 0 <= t < kf.len() && kf[t] == v;
                if t < pre.len() {
                    assert(pre[t] == v);
                    assert(pre.contains(v));
                } else {
                    assert(v == gaps[j - 1]);
                }
            }
        } else {
            assert(kf == pre);
        }
    }
}


/// Sum over the residues `i..n` of the guarded search from one state,
/// all runs partitioned at depth `k`.
spec fn sum_search_res(
    p: Seq<int>,
    n: int,
    dim: int,
    k: int,
    a: Seq<int>,
    b: Seq<int>,
    l: int,
    i: int,
) -> int
    decreases clip0(n - i),
{
    if i < n {
        search_total(p, n, dim, true, i, k, a, b, l) + sum_search_res(p, n, dim, k, a, b, l, i + 1)
    } else {
        0
    }
}

/// Sum over the residues `i..n` of the candidate-tail sums.
spec fn sum_child_res(
    p: Seq<int>,
    n: int,
    dim: int,
    k: int,
    a: Seq<int>,
    b: Seq<int>,
    l: int,
    gs: Seq<int>,
    j: int,
    i: int,
) -> int
    decreases clip0(n - i),
{
    if i < n {
        child_sum(p, n, dim, true, i, k, a, b, l, gs, j) + sum_child_res(
            p,
            n,
            dim,
            k,
            a,
            b,
            l,
            gs,
            j,
            i + 1,
        )
    } else {
        0
    }
}

/// A state the orientation guard rejects contributes zero in every run.
proof fn lemma_sum_search_guard_zero(
    p: Seq<int>,
    n: int,
    dim: int,
    k: int,
    a: Seq<int>,
    b: Seq<int>,
    l: int,
    i: int,
)
    requires
        l > 1,
        b[0] != 1,
    ensures
        sum_search_res(p, n, dim, k, a, b, l, i) == 0,
    decreases clip0(n - i),
{
    if i < n {
        lemma_sum_search_guard_zero(p, n, dim, k, a, b, l, i + 1);
    }
}

/// Above the partition depth every run computes the same candidates: the
/// summed searches unfold to summed candidate-tail sums.
proof fn lemma_sum_search_to_children(
    p: Seq<int>,
    n: int,
    dim: int,
    k: int,
    a: Seq<int>,
    b: Seq<int>,
    l: int,
    i: int,
)
    requires
        1 <= l < k,
        l <= n,
        l <= 1 || b[0] == 1,
    ensures
        sum_search_res(p, n, dim, k, a, b, l, i) == sum_child_res(
            p,
            n,
            dim,
            k,
            a,
            b,
            l,
            gap_candidates(p, n, dim, b, l, 0, 0),
            0,
            i,
        ),
    decreases clip0(n - i),
{
    if i < n {
        lemma_sum_search_to_children(p, n, dim, k, a, b, l, i + 1);
        lemma_candidates_nofilter(p, n, dim, b, l, i, k, 0, 0);
    }
}

/// Splitting off the head candidate distributes over the residue sum.
proof fn lemma_sum_child_split(
    p: Seq<int>,
    n: int,
    dim: int,
    k: int,
    a: Seq<int>,
    b: Seq<int>,
    l: int,
    gs: Seq<int>,
    j: int,
    i: int,
)
    requires
        1 <= l <= n,
        0 <= j < gs.len(),
    ensures
        sum_child_res(p, n, dim, k, a, b, l, gs, j, i) == sum_search_res(
            p,
            n,
            dim,
            k,
            splice_in(a, b, l, gs[j]).0,
            splice_in(a, b, l, gs[j]).1,
            l + 1,
            i,
        ) + sum_child_res(p, n, dim, k, a, b, l, gs, j + 1, i),
    decreases clip0(n - i),
{
    if i < n {
        lemma_sum_child_split(p, n, dim, k, a, b, l, gs, j, i + 1);
    }
}

/// Past the end of the candidate list the summed tails vanish.
proof fn lemma_sum_child_zero(
    p: Seq<int>,
    n: int,
    dim: int,
    k: int,
    a: Seq<int>,
    b: Seq<int>,
    l: int,
    gs: Seq<int>,
    j: int,
    i: int,
)
    requires
        j >= gs.len(),
    ensures
        sum_child_res(p, n, dim, k, a, b, l, gs, j, i) == 0,
    decreases clip0(n - i),
{
    if i < n {
        lemma_sum_child_zero(p, n, dim, k, a, b, l, gs, j, i + 1);
    }
}

/// At the partition depth, run `i` contributes exactly the subtree of
/// candidate `i` where the unfiltered run keeps it, and nothing else.
proof fn lemma_sum_search_at_depth(
    p: Seq<int>,
    n: int,
    dim: int,
    k: int,
    a: Seq<int>,
    b: Seq<int>,
    l: int,
    i: int,
    f: spec_fn(int) -> int,
)
    requires
        all_positive(p),
        dim == p.len(),
        n == leaf_total(p),
        2 <= l <= n,
        l == k,
        b[0] == 1,
        succ_in_range(b, n),
        0 <= i,
        forall|g: int|
            #[trigger] f(g) == search_total(
                p,
                n,
                dim,
                true,
                0,
                0,
                splice_in(a, b, l, g).0,
                splice_in(a, b, l, g).1,
                l + 1,
            ),
    ensures
        sum_search_res(p, n, dim, k, a, b, l, i) == range_sum_if(
            gap_candidates(p, n, dim, b, l, 0, 0),
            n,
            f,
            i,
        ),
    decreases clip0(n - i),
{
    if i < n {
        lemma_sum_search_at_depth(p, n, dim, k, a, b, l, i + 1, f);
        let gb = gap_candidates(p, n, dim, b, l, 0, 0);
        lemma_candidates_partition(p, n, dim, b, l, i, k);
        lemma_candidates_range(p, n, dim, b, l, 0, 0);
        let gi = gap_candidates(p, n, dim, b, l, i, k);
        if gb.contains(i) {
            assert(0 <= i < l) by {
                let t = choose|t: int| 0 <= t < gb.len() && gb[t] == i;
            }
            assert(gi == seq![i]);
            let spliced = splice_in(a, b, l, i);
            assert(succ_in_range(spliced.1, n));
            lemma_search_past_depth(p, n, dim, k, i, spliced.0, spliced.1, l + 1);
            assert(child_sum(p, n, dim, true, i, k, a, b, l, gi, 1) == 0);
            assert(search_total(p, n, dim, true, i, k, a, b, l) == f(i));
        } else {
            assert(gi == Seq::<int>::empty());
            assert(search_total(p, n, dim, true, i, k, a, b, l) == 0);
        }
    }
}

/// The unfiltered candidate-tail sum is the list sum of the subtrees.
proof fn lemma_child_sum_is_list(
    p: Seq<int>,
    n: int,
    dim: int,
    a: Seq<int>,
    b: Seq<int>,
    l: int,
    gs: Seq<int>,
    j: int,
    f: spec_fn(int) -> int,
)
    requires
        1 <= l <= n,
        0 <= j,
        forall|g: int|
            #[trigger] f(g) == search_total(
                p,
                n,
                dim,
                true,
                0,
                0,
                splice_in(a, b, l, g).0,
                splice_in(a, b, l, g).1,
                l + 1,
            ),
    ensures
        child_sum(p, n, dim, true, 0, 0, a, b, l, gs, j) == list_sum(gs, f, j),
    decreases clip0(gs.len() - j),
{
    if j < gs.len() {
        lemma_child_sum_is_list(p, n, dim, a, b, l, gs, j + 1, f);
    }
}

/// Summed over every residue, the partitioned searches from one state
/// above or at the partition depth equal the single unfiltered search.
proof fn lemma_partition_search(
    p: Seq<int>,
    n: int,
    dim: int,
    k: int,
    a: Seq<int>,
    b: Seq<int>,
    l: int,
)
    requires
        all_positive(p),
        dim == p.len(),
        n == leaf_total(p),
        n >= 1,
        2 <= k <= n,
        1 <= l <= k,
        succ_in_range(b, n),
    ensures
        sum_search_res(p, n, dim, k, a, b, l, 0) == search_total(p, n, dim, true, 0, 0, a, b, l),
    decreases n + 1 - l, 1int, 0int,
{
    if l > 1 && b[0] != 1 {
        lemma_sum_search_guard_zero(p, n, dim, k, a, b, l, 0);
    } else if l < k {
        let gb = gap_candidates(p, n, dim, b, l, 0, 0);
        lemma_sum_search_to_children(p, n, dim, k, a, b, l, 0);
        lemma_candidates_range(p, n, dim, b, l, 0, 0);
        lemma_partition_children(p, n, dim, k, a, b, l, gb, 0);
    } else {
        // l == k: the candidate lists of the runs partition the
        // unfiltered candidate list.
        assert(b[0] == 1 || l <= 1);
        assert(b[0] == 1);
        let gb = gap_candidates(p, n, dim, b, l, 0, 0);
        let f: spec_fn(int) -> int = |g: int|
            search_total(
                p,
                n,
                dim,
                true,
                0,
                0,
                splice_in(a, b, l, g).0,
                splice_in(a, b, l, g).1,
                l + 1,
            );
        lemma_sum_search_at_depth(p, n, dim, k, a, b, l, 0, f);
        lemma_candidates_range(p, n, dim, b, l, 0, 0);
        lemma_axes_inv(p, n, b, l, dim, 0, 0);
        lemma_dd_below_dim(p, n, b, l, 0, 0);
        let axr = gaps_axes(p, n, b, l, dim, 0, 0);
        lemma_keep_full_distinct(axr.0.gaps, axr.0.counts, dim - axr.1, axr.0.gaps.len() as int);
        assert(gb.no_duplicates());
        assert(forall|t: int| 0 <= t < gb.len() ==> 0 <= #[trigger] gb[t] < n);
        lemma_sum_over_contains(gb, n, f);
        lemma_child_sum_is_list(p, n, dim, a, b, l, gb, 0, f);
    }
}

/// Companion of `lemma_partition_search` over the candidate tail.
proof fn lemma_partition_children(
    p: Seq<int>,
    n: int,
    dim: int,
    k: int,
    a: Seq<int>,
    b: Seq<int>,
    l: int,
    gs: Seq<int>,
    j: int,
)
    requires
        all_positive(p),
        dim == p.len(),
        n == leaf_total(p),
        n >= 1,
        2 <= k <= n,
        1 <= l < k,
        succ_in_range(b, n),
        forall|t: int| 0 <= t < gs.len() ==> 0 <= #[trigger] gs[t] < l,
        0 <= j,
    ensures
        sum_child_res(p, n, dim, k, a, b, l, gs, j, 0) == child_sum(
            p,
            n,
            dim,
            true,
            0,
            0,
            a,
            b,
            l,
            gs,
            j,
        ),
    decreases n + 1 - l, 0int, clip0(gs.len() - j),
{
    if j < gs.len() {
        let g = gs[j];
        let spliced = splice_in(a, b, l, g);
        assert(succ_in_range(spliced.1, n));
        lemma_sum_child_split(p, n, dim, k, a, b, l, gs, j, 0);
        lemma_partition_search(p, n, dim, k, spliced.0, spliced.1, l + 1);
        lemma_partition_children(p, n, dim, k, a, b, l, gs, j + 1);
    } else {
        lemma_sum_child_zero(p, n, dim, k, a, b, l, gs, j, 0);
    }
}

/// The flat residue sum is the summed search from the initial state.
proof fn lemma_every_residue_is_sum_search(p: Seq<int>, n: int, k: int, i: int)
    requires
        n == leaf_total(p),
    ensures
        every_residue_sum(p, n, k, i) == sum_search_res(
            p,
            n,
            p.len() as int,
            k,
            zero_row(n + 1),
            zero_row(n + 1),
            1,
            i,
        ),
    decreases clip0(n - i),
{
    if i < n {
        lemma_every_residue_is_sum_search(p, n, k, i + 1);
    }
}

/// Partition consistency: over any supported positive grid, for any
/// partition count from two up to the leaf count, the partial counts of
/// all partitions sum to the full count.
pub proof fn lemma_partition_consistency(p: Seq<int>, total_parts: int)
    requires
        all_positive(p),
        p.len() < MAX_LEAVES as int,
        leaf_total(p) < MAX_LEAVES as int,
        2 <= total_parts <= leaf_total(p),
    ensures
        partition_sum(p, leaf_total(p), total_parts, 0) == fold_total(p, true, 0, 0),
{
    let n = leaf_total(p);
    lemma_partition_reindex(p, n, total_parts);
    lemma_every_residue_is_sum_search(p, n, total_parts, 0);
    let z = zero_row(n + 1);
    assert(succ_in_range(z, n));
    lemma_partition_search(p, n, p.len() as int, total_parts, z, z, 1);
}

} // verus!
