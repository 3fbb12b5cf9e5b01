//! Mathematical model of stamp-folding enumeration.
//!
//! A grid of `p[0] * p[1] * ... * p[dim-1]` hinged cells ("leaves", numbered
//! `1..=n`) is folded into a single stack.  The model below defines, over
//! mathematical integers and sequences, the exact count that the search
//! engine computes: the stride table, the per-axis coordinate of each leaf,
//! the fold-reflection step relation, the gap (candidate insertion point)
//! computation with its per-axis walks and deduplication, and the recursive
//! backtracking sum.  The executable engine is verified to return exactly
//! these values (reduced into a wrapping 64-bit accumulator).
use vstd::prelude::*;

verus! {

/// Upper bound (exclusive) on the supported number of leaves, and on the
/// number of axes.
pub const MAX_LEAVES: usize = 64;

/// View of a sequence of machine integers as mathematical integers.
pub open spec fn ints(s: Seq<i32>) -> Seq<int> {
    s.map_values(|x: i32| x as int)
}

/// All entries of the dimension list are at least one.
pub open spec fn all_positive(p: Seq<int>) -> bool {
    forall|i: int| 0 <= i < p.len() ==> #[trigger] p[i] >= 1
}

/// All entries of the dimension list are nonnegative.
pub open spec fn all_nonnegative(p: Seq<int>) -> bool {
    forall|i: int| 0 <= i < p.len() ==> #[trigger] p[i] >= 0
}

/// Some entry of the dimension list is zero.
pub open spec fn has_zero(p: Seq<int>) -> bool {
    exists|i: int| 0 <= i < p.len() && #[trigger] p[i] == 0
}

/// Product of the first `i` axis sizes; the stride of axis `i`.
pub open spec fn stride(p: Seq<int>, i: int) -> int
    decreases i,
{
    if i <= 0 {
        1
    } else {
        stride(p, i - 1) * p[i - 1]
    }
}

/// Total number of leaves of the grid.
pub open spec fn leaf_total(p: Seq<int>) -> int {
    stride(p, p.len() as int)
}

/// One-based coordinate of leaf `m` along axis `i` (axes are numbered from 1).
pub open spec fn coord(p: Seq<int>, i: int, m: int) -> int {
    (m - 1) / stride(p, i - 1) - ((m - 1) / stride(p, i)) * p[i - 1] + 1
}

/// Fold-reflection step along axis `i` at chain length `l`, for a leaf
/// `m` with `1 <= m <= l`: the neighbour of `m` under the reflection that
/// folding at length `l` induces on axis `i`, or `m` itself where the
/// reflection leaves it fixed or would leave the chain.
pub open spec fn reflect(p: Seq<int>, i: int, l: int, m: int) -> int {
    let s = stride(p, i - 1);
    if (coord(p, i, l) - coord(p, i, m)) % 2 == 0 {
        if coord(p, i, m) == 1 {
            m
        } else {
            m - s
        }
    } else if coord(p, i, m) == p[i - 1] || m + s > l {
        m
    } else {
        m + s
    }
}

/// The transition table entry for axis `i`, chain length `l`, index `m`:
/// `reflect` inside the triangle `1 <= m <= l`, and the table's fill value
/// zero outside it.
pub open spec fn table_entry(p: Seq<int>, i: int, l: int, m: int) -> int {
    if 1 <= m <= l {
        reflect(p, i, l, m)
    } else {
        0
    }
}

/// Scratch state of one gap computation: the candidate list collected so
/// far (first occurrences, in discovery order) and, for every leaf value,
/// how many times it has been pushed.
pub struct GapScratch {
    pub gaps: Seq<int>,
    pub counts: Seq<int>,
}

/// A sequence of `len` zeros.
pub open spec fn zero_row(len: int) -> Seq<int> {
    Seq::new(len as nat, |j: int| 0)
}

/// The sequence `0, 1, ..., l - 1`.
pub open spec fn upto(l: int) -> Seq<int> {
    Seq::new(l as nat, |j: int| j)
}

/// The residue filter: at chain length `mod_val` only candidates of residue
/// class `res` modulo `mod_val` are admitted; everywhere else, and with
/// `mod_val == 0`, everything passes.
pub open spec fn admitted(l: int, m: int, res: int, mod_val: int) -> bool {
    mod_val == 0 || l != mod_val || m % mod_val == res
}

/// Record one visited leaf `m`: if the filter admits it, append it to the
/// candidate list on its first occurrence and bump its occurrence count.
pub open spec fn record_visit(st: GapScratch, l: int, m: int, res: int, mod_val: int) -> GapScratch {
    if admitted(l, m, res, mod_val) {
        let gaps1 = if st.counts[m] == 0 {
            st.gaps.push(m)
        } else {
            st.gaps
        };
        GapScratch { gaps: gaps1, counts: st.counts.update(m, st.counts[m] + 1) }
    } else {
        st
    }
}

/// Walk the chain of leaves reachable along axis `i` from `m`, following
/// `m -> table_entry(i, l, b[m])`, recording each visited leaf, until the
/// walk returns to `l` or the fuel runs out.
pub open spec fn axis_walk(
    p: Seq<int>,
    b: Seq<int>,
    i: int,
    l: int,
    m: int,
    fuel: nat,
    res: int,
    mod_val: int,
    st: GapScratch,
) -> GapScratch
    decreases fuel,
{
    if m == l || fuel == 0 {
        st
    } else {
        let st1 = record_visit(st, l, m, res, mod_val);
        axis_walk(p, b, i, l, table_entry(p, i, l, b[m]), (fuel - 1) as nat, res, mod_val, st1)
    }
}

/// Fuel that always suffices for a terminating axis walk: a walk that
/// returns to `l` visits pairwise distinct leaves out of `0..=n`, so it
/// does so within `n + 2` steps or never.
pub open spec fn walk_fuel(n: int) -> nat {
    (n + 2) as nat
}

/// Scratch state and trivial-axis count after processing axes `1..=i`:
/// an axis whose table entry at `(l, l)` is `l` itself imposes no
/// restriction and only bumps the trivial count `dd`; every other axis is
/// walked from `table_entry(i, l, l)`.
pub open spec fn gaps_axes(
    p: Seq<int>,
    n: int,
    b: Seq<int>,
    l: int,
    i: int,
    res: int,
    mod_val: int,
) -> (GapScratch, int)
    decreases i,
{
    if i <= 0 {
        (GapScratch { gaps: Seq::empty(), counts: zero_row(n + 1) }, 0)
    } else {
        let (st, dd) = gaps_axes(p, n, b, l, i - 1, res, mod_val);
        if table_entry(p, i, l, l) == l {
            (st, dd + 1)
        } else {
            (axis_walk(p, b, i, l, table_entry(p, i, l, l), walk_fuel(n), res, mod_val, st), dd)
        }
    }
}

/// Candidates among the first `j` collected values that were visited on
/// every non-trivial axis, in collection order.
pub open spec fn keep_full(gaps: Seq<int>, counts: Seq<int>, need: int, j: int) -> Seq<int>
    decreases j,
{
    if j <= 0 {
        Seq::empty()
    } else {
        let pre = keep_full(gaps, counts, need, j - 1);
        if counts[gaps[j - 1]] == need {
            pre.push(gaps[j - 1])
        } else {
            pre
        }
    }
}

/// The final candidate list for extending a partial fold of length `l - 1`
/// by leaf `l`: walk every axis, fall back to all positions `0..l` when
/// every axis is trivial, and keep the values visited on every non-trivial
/// axis.
pub open spec fn gap_candidates(
    p: Seq<int>,
    n: int,
    dim: int,
    b: Seq<int>,
    l: int,
    res: int,
    mod_val: int,
) -> Seq<int> {
    let (st, dd) = gaps_axes(p, n, b, l, dim, res, mod_val);
    let gaps2 = if dd == dim {
        st.gaps + upto(l)
    } else {
        st.gaps
    };
    keep_full(gaps2, st.counts, dim - dd, gaps2.len() as int)
}

/// Splice leaf `l` into the circular list directly after leaf `g`,
/// mirroring the exact write order of the engine.
pub open spec fn splice_in(a: Seq<int>, b: Seq<int>, l: int, g: int) -> (Seq<int>, Seq<int>) {
    let a1 = a.update(l, g);
    let b1 = b.update(l, b[g]);
    let b2 = b1.update(g, l);
    let a2 = a1.update(b1[l], l);
    (a2, b2)
}

/// The number of complete folds reachable from the partial fold `(a, b)`
/// of length `l - 1`, each weighted by `n`; `0` when the orientation guard
/// rejects the state.  This is the reference meaning of the backtracking
/// search driver.
pub open spec fn search_total(
    p: Seq<int>,
    n: int,
    dim: int,
    flag: bool,
    res: int,
    mod_val: int,
    a: Seq<int>,
    b: Seq<int>,
    l: int,
) -> int
    decreases n + 1 - l, 1int, 0int,
{
    if 1 <= l <= n + 1 {
        if flag && l > 1 && b[0] != 1 {
            0
        } else if l == n + 1 {
            n
        } else {
            child_sum(
                p,
                n,
                dim,
                flag,
                res,
                mod_val,
                a,
                b,
                l,
                gap_candidates(p, n, dim, b, l, res, mod_val),
                0,
            )
        }
    } else {
        0
    }
}

/// Sum, over the candidates `gs[j..]`, of the counts of the subtrees
/// obtained by splicing leaf `l` in after each candidate.
pub open spec fn child_sum(
    p: Seq<int>,
    n: int,
    dim: int,
    flag: bool,
    res: int,
    mod_val: int,
    a: Seq<int>,
    b: Seq<int>,
    l: int,
    gs: Seq<int>,
    j: int,
) -> int
    decreases n + 1 - l, 0int, gs.len() - j,
{
    if 1 <= l <= n && 0 <= j < gs.len() {
        let g = gs[j];
        let spliced = splice_in(a, b, l, g);
        search_total(p, n, dim, flag, res, mod_val, spliced.0, spliced.1, l + 1) + child_sum(
            p,
            n,
            dim,
            flag,
            res,
            mod_val,
            a,
            b,
            l,
            gs,
            j + 1,
        )
    } else {
        0
    }
}

/// The full count of one engine run: the search started on the empty
/// circular list at length 1.
pub open spec fn fold_total(p: Seq<int>, flag: bool, res: int, mod_val: int) -> int {
    let n = leaf_total(p);
    search_total(
        p,
        n,
        p.len() as int,
        flag,
        res,
        mod_val,
        zero_row(n + 1),
        zero_row(n + 1),
        1,
    )
}

/// `x` clamped from below to zero.
pub open spec fn clip0(x: int) -> int {
    if x < 0 {
        0
    } else {
        x
    }
}

/// Sum of the engine runs with residues `i, i + total, i + 2 * total, ...`
/// below `n`: the partial count owned by one residue class.
pub open spec fn residue_sum(p: Seq<int>, n: int, i: int, total: int) -> int
    decreases clip0(n - i),
{
    if i < n && total >= 1 {
        fold_total(p, true, i, total) + residue_sum(p, n, i + total, total)
    } else {
        0
    }
}

/// Sum of the partial counts of partitions `j, j + 1, ..., k - 1`.
pub open spec fn partition_sum(p: Seq<int>, n: int, k: int, j: int) -> int
    decreases k - j,
{
    if 0 <= j < k {
        residue_sum(p, n, j, k) + partition_sum(p, n, k, j + 1)
    } else {
        0
    }
}

/// Reduction of a mathematical integer into `i64` by wrapping, the
/// semantics of the engine's 64-bit accumulator.
pub open spec fn wrap64(x: int) -> int {
    let r = x % 0x1_0000_0000_0000_0000;
    if r > 0x7fff_ffff_ffff_ffff {
        r - 0x1_0000_0000_0000_0000
    } else {
        r
    }
}


/// The circular doubly-linked list invariant of a partial fold of length
/// `l - 1`: the placed leaves `1..l-1` and the sentinel `0` link among
/// themselves, and predecessor and successor are mutually inverse.
pub open spec fn ring_wf(a: Seq<int>, b: Seq<int>, l: int) -> bool {
    &&& (forall|x: int| 0 <= x < l ==> 0 <= #[trigger] a[x] < l)
    &&& (forall|x: int| 0 <= x < l ==> 0 <= #[trigger] b[x] < l)
    &&& (forall|x: int| 0 <= x < l ==> a[#[trigger] b[x]] == x)
    &&& (forall|x: int| 0 <= x < l ==> b[#[trigger] a[x]] == x)
}

/// Splicing a fresh leaf `l` in after a placed leaf `g` preserves the
/// ring invariant, now over `0..l`.
pub proof fn lemma_splice_ring(a: Seq<int>, b: Seq<int>, l: int, g: int)
    requires
        a.len() > l,
        b.len() > l,
        ring_wf(a, b, l),
        1 <= l,
        0 <= g < l,
    ensures
        ring_wf(splice_in(a, b, l, g).0, splice_in(a, b, l, g).1, l + 1),
{
    let bg = b[g];
    let a2 = splice_in(a, b, l, g).0;
    let b2 = splice_in(a, b, l, g).1;
    assert(a[bg] == g);
    assert(b[a[bg]] == bg);
    assert forall|x: int| 0 <= x < l + 1 implies a2[#[trigger] b2[x]] == x by {
        if x == l {
        } else if x == g {
        } else {
            assert(b2[x] == b[x]);
            if b[x] == bg {
                assert(a[b[x]] == x);
                assert(x == g);
            }
        }
    }
    assert forall|x: int| 0 <= x < l + 1 implies b2[#[trigger] a2[x]] == x by {
        if x == l {
        } else if x == bg {
        } else {
            assert(a2[x] == a[x]);
            if a[x] == g {
                assert(b[a[x]] == x);
                assert(x == bg);
            }
        }
    }
}

/// Invariant of the gap-computation scratch state: the collected
/// candidates are pairwise distinct positions below `l`, and a value has
/// been counted if and only if it has been collected.
pub open spec fn scratch_inv(st: GapScratch, n: int, l: int) -> bool {
    &&& st.counts.len() == n + 1
    &&& (forall|v: int| 0 <= v <= n ==> #[trigger] st.counts[v] >= 0)
    &&& st.gaps.no_duplicates()
    &&& (forall|k: int| 0 <= k < st.gaps.len() ==> 0 <= #[trigger] st.gaps[k] < l)
    &&& (forall|v: int| 0 <= v <= n ==> st.counts[v] > 0 ==> st.gaps.contains(v))
    &&& (forall|k: int| 0 <= k < st.gaps.len() ==> st.counts[#[trigger] st.gaps[k]] > 0)
}



/// A sequence whose entry at each index is that index has no duplicates.
pub proof fn lemma_distinct_by_index(s: Seq<int>)
    requires
        forall|k: int| 0 <= k < s.len() ==> #[trigger] s[k] == k,
    ensures
        s.no_duplicates(),
{
}

/// An element of a sequence is still an element after a push.
pub proof fn lemma_push_contains(s: Seq<int>, x: int, v: int)
    requires
        s.contains(v),
    ensures
        s.push(x).contains(v),
{
    let k = choose|k: int| 0 <= k < s.len() && s[k] == v;
    assert(s.push(x)[k] == v);
}

/// Recording one visit preserves the scratch invariant.
pub proof fn lemma_record_visit_inv(st: GapScratch, n: int, l: int, m: int, res: int, mod_val: int)
    requires
        scratch_inv(st, n, l),
        0 <= m < l,
        l <= n + 1,
    ensures
        scratch_inv(record_visit(st, l, m, res, mod_val), n, l),
{
    let st2 = record_visit(st, l, m, res, mod_val);
    if admitted(l, m, res, mod_val) {
        if st.counts[m] == 0 {
            assert(!st.gaps.contains(m));
            assert forall|k: int| 0 <= k < st2.gaps.len() implies 0 <= #[trigger] st2.gaps[k] < l by {
                if k < st.gaps.len() {
                }
            }
            assert(st2.gaps.no_duplicates()) by {
                assert(forall|k: int|
                    0 <= k < st.gaps.len() ==> #[trigger] st.gaps[k] != m) by {
                    assert forall|k: int| 0 <= k < st.gaps.len() implies #[trigger] st.gaps[k] != m by {
                        if st.gaps[k] == m {
                            assert(st.gaps.contains(m));
                        }
                    }
                }
            }
            assert forall|v: int| 0 <= v <= n && st2.counts[v] > 0 implies st2.gaps.contains(v) by {
                if v == m {
                    assert(st2.gaps[st2.gaps.len() - 1] == m);
                } else {
                    assert(st.counts[v] == st2.counts[v]);
                    assert(st.gaps.contains(v));
                    lemma_push_contains(st.gaps, m, v);
                }
            }
            assert forall|k: int| 0 <= k < st2.gaps.len() implies st2.counts[#[trigger] st2.gaps[k]]
                > 0 by {
                if k < st.gaps.len() {
                    assert(st.counts[st.gaps[k]] > 0);
                }
            }
        } else {
            assert forall|v: int| 0 <= v <= n && st2.counts[v] > 0 implies st2.gaps.contains(v) by {
                if v != m {
                    assert(st.counts[v] == st2.counts[v]);
                } else {
                    assert(st.counts[m] > 0);
                }
            }
        }
    }
}

} // verus!
