//! Enumeration of stamp foldings: the number of ways a rectangular grid
//! of hinged cells can be folded into a single stack.
//!
//! The count is computed by a backtracking search over partial fold
//! orders, driven by precomputed stride, coordinate and fold-reflection
//! tables.  Every public function is specified against the mathematical
//! model in [`model`], and the search space can be partitioned into
//! disjoint residue classes whose partial counts sum to the whole.
#![verifier::loop_isolation(false)]
pub mod accum;
pub(crate) mod engine;
pub mod laws;
pub mod model;
pub mod tables;

use vstd::prelude::*;

use crate::accum::{lemma_wrap64_absorb, lemma_wrap64_identity, wadd64};
use crate::engine::SearchEngine;
use crate::model::{
    all_nonnegative, all_positive, clip0, fold_total, has_zero, ints, leaf_total, partition_sum,
    residue_sum, ring_wf, stride, wrap64, zero_row, MAX_LEAVES,
};
use crate::tables::{lemma_stride_le_total, lemma_stride_pos, zero_i32_vec, PrecomputedArrays};
use rayon::iter::{IndexedParallelIterator, IntoParallelIterator, ParallelIterator};

verus! {

/// The error of a query whose grid does not fit the engine.
#[derive(Clone, Copy, PartialEq, Eq, Debug)]
pub enum FoldError {
    /// The product of the dimensions reaches the maximum leaf count.
    CapacityExceeded,
}

/// A folding counter: accumulates fold counts over one or more engine
/// runs in a wrapping 64-bit total.
pub struct StampFolder {
    pub count: i64,
}

/// Whether some entry of the dimension list is zero.
fn contains_zero(p: &[i32]) -> (r: bool)
    ensures
        r == has_zero(ints(p@)),
{
    let mut i: usize = 0;
    while i < p.len()
        invariant
            i <= p@.len(),
            forall|j: int| 0 <= j < i ==> ints(p@)[j] != 0,
        decreases p@.len() - i,
    {
        if p[i] == 0 {
            proof {
                assert(ints(p@)[i as int] == 0);
            }
            return true;
        }
        i = i + 1;
    }
    false
}

/// The product of the dimension list, which is known to fit the engine.
fn leaf_product(p: &[i32]) -> (r: usize)
    requires
        p@.len() < MAX_LEAVES,
        all_positive(ints(p@)),
        leaf_total(ints(p@)) < MAX_LEAVES as int,
    ensures
        r as int == leaf_total(ints(p@)),
        1 <= r < MAX_LEAVES,
{
    let ghost pp = ints(p@);
    let mut acc: usize = 1;
    let mut i: usize = 0;
    while i < p.len()
        invariant
            i <= p@.len(),
            acc as int == stride(pp, i as int),
            1 <= acc,
        decreases p@.len() - i,
    {
        proof {
            lemma_stride_pos(pp, i as int + 1);
            lemma_stride_le_total(pp, i as int + 1, pp.len() as int);
            assert(stride(pp, i as int + 1) == stride(pp, i as int) * pp[i as int]);
        }
        acc = acc * (p[i] as usize);
        i = i + 1;
    }
    proof {
        lemma_stride_pos(pp, pp.len() as int);
    }
    acc
}

/// The product of the dimension list, or `None` where it reaches the
/// engine's capacity.
fn checked_leaf_product(p: &[i32]) -> (r: Option<usize>)
    requires
        p@.len() < MAX_LEAVES,
        all_positive(ints(p@)),
    ensures
        match r {
            Some(v) => v as int == leaf_total(ints(p@)) && leaf_total(ints(p@)) < MAX_LEAVES as int,
            None => leaf_total(ints(p@)) >= MAX_LEAVES as int,
        },
{
    let ghost pp = ints(p@);
    let mut acc: u64 = 1;
    let mut i: usize = 0;
    while i < p.len()
        invariant
            i <= p@.len(),
            acc as int == stride(pp, i as int),
            1 <= acc < MAX_LEAVES as u64,
        decreases p@.len() - i,
    {
        proof {
            lemma_stride_pos(pp, i as int + 1);
            assert(stride(pp, i as int + 1) == stride(pp, i as int) * pp[i as int]);
            let av = acc as int;
            let pv = pp[i as int];
            assert(av * pv < 0x1_0000_0000_0000) by (nonlinear_arith)
                requires
                    av >= 1,
                    av < 64,
                    pv >= 1,
                    pv < 0x8000_0000,
            ;
        }
        acc = acc * (p[i] as u64);
        if acc >= MAX_LEAVES as u64 {
            proof {
                lemma_stride_le_total(pp, i as int + 1, pp.len() as int);
            }
            return None;
        }
        i = i + 1;
    }
    Some(acc as usize)
}

impl StampFolder {
    /// A fresh counter.
    pub fn new() -> (r: StampFolder)
        ensures
            r.count == 0,
    {
        StampFolder { count: 0 }
    }

    /// Run the backtracking search once over the grid `p` and add, modulo
    /// 64 bits, the model count `fold_total` to the counter.  `flag`
    /// enables the mirror-symmetry-breaking orientation guard; `res` and
    /// `mod_val` restrict the candidates at chain length `mod_val` to the
    /// residue class `res`, the hook used for partitioning.
    pub fn foldings(&mut self, p: &[i32], flag: bool, res: i32, mod_val: i32)
        requires
            p@.len() < MAX_LEAVES,
            all_positive(ints(p@)),
            leaf_total(ints(p@)) < MAX_LEAVES as int,
            mod_val >= 0,
        ensures
            final(self).count as int == wrap64(
                old(self).count + fold_total(ints(p@), flag, res as int, mod_val as int),
            ),
    {
        let ghost pp = ints(p@);
        let n: usize = leaf_product(p);
        let dim: usize = p.len();
        let tables = PrecomputedArrays::build(p, n, dim);
        let mut pv: Vec<i32> = Vec::new();
        let mut i: usize = 0;
        while i < p.len()
            invariant
                i <= p@.len(),
                pv@ == p@.subrange(0, i as int),
            decreases p@.len() - i,
    {
            let v: i32 = p[i];
            pv.push(v);
            proof {
                assert(pv@ =~= p@.subrange(0, i as int + 1));
            }
            i = i + 1;
        }
        proof {
            assert(pv@ =~= p@);
        }
        let mut eng = SearchEngine {
            p: pv,
            n,
            dim,
            flag,
            res,
            mod_val,
            tables,
            a: zero_i32_vec(n + 1),
            b: zero_i32_vec(n + 1),
            marks: zero_i32_vec(n + 1),
            total: 0i64,
        };
        proof {
            assert(ints(eng.a@) =~= zero_row(n as int + 1));
            assert(ints(eng.b@) =~= zero_row(n as int + 1));
            assert(eng.wf());
            assert(ring_wf(ints(eng.a@), ints(eng.b@), 1));
        }
        eng.search(1);
        proof {
            assert(eng.total as int == wrap64(fold_total(pp, flag, res as int, mod_val as int)));
            lemma_wrap64_absorb(
                fold_total(pp, flag, res as int, mod_val as int),
                old(self).count as int,
            );
        }
        self.count = wadd64(self.count, eng.total);
    }

    /// The partial count of one residue class: the sum of the engine runs
    /// with residues `part, part + total_parts, ...` below the leaf count.
    pub(crate) fn residue_count(p: &[i32], part: usize, total_parts: usize) -> (r: i64)
        requires
            p@.len() < MAX_LEAVES,
            all_positive(ints(p@)),
            leaf_total(ints(p@)) < MAX_LEAVES as int,
            1 <= total_parts <= 0x7fff_ffff,
        ensures
            r as int == wrap64(
                residue_sum(ints(p@), leaf_total(ints(p@)), part as int, total_parts as int),
            ),
    {
        let ghost pp = ints(p@);
        let ghost nn = leaf_total(pp);
        let n: usize = leaf_product(p);
        let mut folder = StampFolder::new();
        let mut i: usize = part;
        proof {
            lemma_wrap64_identity(0);
        }
        while i < n
            invariant
                part <= i,
                folder.count as int == wrap64(
                    residue_sum(pp, nn, part as int, total_parts as int) - residue_sum(
                        pp,
                        nn,
                        i as int,
                        total_parts as int,
                    ),
                ),
            decreases clip0(n as int - i as int),
        {
            folder.foldings(p, true, i as i32, total_parts as i32);
            proof {
                let f = fold_total(pp, true, i as int, total_parts as int);
                assert(residue_sum(pp, nn, i as int, total_parts as int) == f + residue_sum(
                    pp,
                    nn,
                    i as int + total_parts as int,
                    total_parts as int,
                ));
                lemma_wrap64_absorb(
                    residue_sum(pp, nn, part as int, total_parts as int) - residue_sum(
                        pp,
                        nn,
                        i as int,
                        total_parts as int,
                    ),
                    f,
                );
            }
            i = i + total_parts;
        }
        proof {
            assert(residue_sum(pp, nn, i as int, total_parts as int) == 0);
        }
        folder.count
    }

    /// The total fold count of the grid: `Ok(1)` for any degenerate grid
    /// with a zero dimension, the full count under the orientation guard
    /// otherwise, and `CapacityExceeded` where the grid does not fit.
    pub fn calculate_sequence(dimensions: &[i32]) -> (r: Result<i64, FoldError>)
        requires
            dimensions@.len() < MAX_LEAVES,
            all_nonnegative(ints(dimensions@)),
        ensures
            ({
                let pp = ints(dimensions@);
                &&& has_zero(pp) ==> r == Ok::<i64, FoldError>(1i64)
                &&& !has_zero(pp) && leaf_total(pp) < MAX_LEAVES as int ==> (r matches Ok(v)
                    && v as int == wrap64(fold_total(pp, true, 0, 0)))
                &&& !has_zero(pp) && leaf_total(pp) >= MAX_LEAVES as int ==> r == Err::<
                    i64,
                    FoldError,
                >(FoldError::CapacityExceeded)
            }),
    {
        let ghost pp = ints(dimensions@);
        if contains_zero(dimensions) {
            return Ok(1i64);
        }
        proof {
            assert forall|j: int| 0 <= j < pp.len() implies #[trigger] pp[j] >= 1 by {
                if pp[j] == 0 {
                    assert(has_zero(pp));
                }
            }
        }
        let n_opt = checked_leaf_product(dimensions);
        match n_opt {
            None => Err(FoldError::CapacityExceeded),
            Some(_) => {
                let mut folder = StampFolder::new();
                folder.foldings(dimensions, true, 0, 0);
                Ok(folder.count)
            },
        }
    }

    /// The partial count of partition `part` out of `total_parts`:
    /// `Ok(1)` for a degenerate grid on partition zero and `Ok(0)` on the
    /// others, otherwise the wrapped sum of the runs of the partition's
    /// residue class, and `CapacityExceeded` where the grid does not fit.
    pub fn calculate_sequence_part(dimensions: &[i32], part: usize, total_parts: usize) -> (r:
        Result<i64, FoldError>)
        requires
            dimensions@.len() < MAX_LEAVES,
            all_nonnegative(ints(dimensions@)),
            1 <= total_parts <= 0x7fff_ffff,
        ensures
            ({
                let pp = ints(dimensions@);
                &&& has_zero(pp) ==> r == Ok::<i64, FoldError>(
                    if part == 0 {
                        1i64
                    } else {
                        0i64
                    },
                )
                &&& !has_zero(pp) && leaf_total(pp) < MAX_LEAVES as int ==> (r matches Ok(v)
                    && v as int == wrap64(
                    residue_sum(pp, leaf_total(pp), part as int, total_parts as int),
                ))
                &&& !has_zero(pp) && leaf_total(pp) >= MAX_LEAVES as int ==> r == Err::<
                    i64,
                    FoldError,
                >(FoldError::CapacityExceeded)
            }),
    {
        let ghost pp = ints(dimensions@);
        if contains_zero(dimensions) {
            if part == 0 {
                return Ok(1i64);
            } else {
                return Ok(0i64);
            }
        }
        proof {
            assert forall|j: int| 0 <= j < pp.len() implies #[trigger] pp[j] >= 1 by {
                if pp[j] == 0 {
                    assert(has_zero(pp));
                }
            }
        }
        let n_opt = checked_leaf_product(dimensions);
        match n_opt {
            None => Err(FoldError::CapacityExceeded),
            Some(_) => Ok(Self::residue_count(dimensions, part, total_parts)),
        }
    }

    /// The total fold count computed by summing all partition counts,
    /// evaluated in parallel; trivially small grids are counted directly.
    pub fn calculate_sequence_parallel(dimensions: &[i32], num_threads: usize) -> (r: Result<
        i64,
        FoldError,
    >)
        requires
            dimensions@.len() < MAX_LEAVES,
            all_nonnegative(ints(dimensions@)),
            1 <= num_threads <= 0x7fff_ffff,
        ensures
            ({
                let pp = ints(dimensions@);
                &&& has_zero(pp) ==> r == Ok::<i64, FoldError>(1i64)
                &&& !has_zero(pp) && leaf_total(pp) >= MAX_LEAVES as int ==> r == Err::<
                    i64,
                    FoldError,
                >(FoldError::CapacityExceeded)
                &&& !has_zero(pp) && leaf_total(pp) < 4 ==> (r matches Ok(v) && v as int == wrap64(
                    fold_total(pp, true, 0, 0),
                ))
                &&& !has_zero(pp) && 4 <= leaf_total(pp) < MAX_LEAVES as int ==> (r matches Ok(v)
                    && v as int == wrap64(partition_sum(pp, leaf_total(pp), num_threads as int, 0)))
            }),
    {
        let ghost pp = ints(dimensions@);
        if contains_zero(dimensions) {
            return Self::calculate_sequence(dimensions);
        }
        proof {
            assert forall|j: int| 0 <= j < pp.len() implies #[trigger] pp[j] >= 1 by {
                if pp[j] == 0 {
                    assert(has_zero(pp));
                }
            }
        }
        let n_opt = checked_leaf_product(dimensions);
        let n: usize = match n_opt {
            None => {
                return Err(FoldError::CapacityExceeded);
            },
            Some(v) => v,
        };
        if n < 4 {
            return Self::calculate_sequence(dimensions);
        }
        let ghost nn = leaf_total(pp);
        let ghost k = num_threads as int;
        let parts: Vec<i64> = residue_counts_parallel(dimensions, num_threads);
        let mut acc: i64 = 0;
        let mut j: usize = 0;
        proof {
            lemma_wrap64_identity(0);
        }
        while j < parts.len()
            invariant
                parts@.len() == num_threads,
                forall|j2: int|
                    0 <= j2 < num_threads ==> #[trigger] parts@[j2] as int == wrap64(
                        residue_sum(pp, nn, j2, k),
                    ),
                j <= parts@.len(),
                acc as int == wrap64(
                    partition_sum(pp, nn, k, 0) - partition_sum(pp, nn, k, j as int),
                ),
            decreases parts@.len() - j,
        {
            let pj: i64 = parts[j];
            proof {
                let rsj = residue_sum(pp, nn, j as int, k);
                assert(partition_sum(pp, nn, k, j as int) == rsj + partition_sum(
                    pp,
                    nn,
                    k,
                    j as int + 1,
                ));
                lemma_wrap64_absorb(rsj, acc as int);
                lemma_wrap64_absorb(
                    partition_sum(pp, nn, k, 0) - partition_sum(pp, nn, k, j as int),
                    rsj,
                );
            }
            acc = wadd64(acc, pj);
            j = j + 1;
        }
        proof {
            assert(partition_sum(pp, nn, k, j as int) == 0);
        }
        Ok(acc)
    }
}

/// Relies on rayon's `IndexedParallelIterator::collect_into_vec`: mapping
/// the partition indices `0..k` in parallel and collecting puts the
/// result of the verified `residue_count` for partition `j` at slot `j`.
#[verifier::external_body]
fn residue_counts_parallel(dims: &[i32], k: usize) -> (r: Vec<i64>)
    requires
        dims@.len() < MAX_LEAVES,
        all_positive(ints(dims@)),
        leaf_total(ints(dims@)) < MAX_LEAVES as int,
        1 <= k <= 0x7fff_ffff,
    ensures
        r@.len() == k,
        forall|j: int|
            0 <= j < k ==> #[trigger] r@[j] as int == wrap64(
                residue_sum(ints(dims@), leaf_total(ints(dims@)), j, k as int),
            ),
{
    let mut out: Vec<i64> = Vec::new();
    (0..k)
        .into_par_iter()
        .map(|part| StampFolder::residue_count(dims, part, k))
        .collect_into_vec(&mut out);
    out
}

} // verus!
