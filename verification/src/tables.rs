//! The precomputed tables: axis strides, per-axis leaf coordinates, and the
//! fold-reflection transition table, together with the arithmetic facts
//! about the model formulas that the search engine relies on.
use vstd::prelude::*;

use crate::model::{
    all_positive, axis_walk, coord, gaps_axes, ints, leaf_total, lemma_record_visit_inv, reflect,
    scratch_inv, stride, table_entry, zero_row, GapScratch, MAX_LEAVES,
};

verus! {

use vstd::arithmetic::div_mod::{
    lemma_div_denominator, lemma_fundamental_div_mod, lemma_mod_multiples_vanish,
};

/// Strides of a positive dimension list are at least one.
pub proof fn lemma_stride_pos(p: Seq<int>, i: int)
    requires
        all_positive(p),
        i <= p.len(),
    ensures
        stride(p, i) >= 1,
    decreases i,
{
    if i > 0 {
        lemma_stride_pos(p, i - 1);
        assert(stride(p, i - 1) * p[i - 1] >= 1) by (nonlinear_arith)
            requires
                stride(p, i - 1) >= 1,
                p[i - 1] >= 1,
        ;
    }
}

/// Each stride divides into the total: it is at most the leaf count.
pub proof fn lemma_stride_le_total(p: Seq<int>, i: int, j: int)
    requires
        all_positive(p),
        0 <= i <= j <= p.len(),
    ensures
        stride(p, i) <= stride(p, j),
    decreases j - i,
{
    if i < j {
        lemma_stride_le_total(p, i, j - 1);
        lemma_stride_pos(p, j - 1);
        assert(stride(p, j - 1) <= stride(p, j - 1) * p[j - 1]) by (nonlinear_arith)
            requires
                stride(p, j - 1) >= 1,
                p[j - 1] >= 1,
        ;
    }
}

/// Each axis size is at most the total leaf count.
pub proof fn lemma_axis_le_total(p: Seq<int>, i: int)
    requires
        all_positive(p),
        1 <= i <= p.len(),
    ensures
        1 <= p[i - 1] <= leaf_total(p),
{
    lemma_stride_pos(p, i - 1);
    assert(p[i - 1] <= stride(p, i - 1) * p[i - 1]) by (nonlinear_arith)
        requires
            stride(p, i - 1) >= 1,
            p[i - 1] >= 1,
    ;
    lemma_stride_le_total(p, i, p.len() as int);
}

/// The coordinate formula is the `i`-th mixed-radix digit plus one: it
/// lies in `1..=p[i-1]`, and a coordinate above one forces `m` past the
/// stride of its axis.
pub proof fn lemma_coord_bounds(p: Seq<int>, i: int, m: int)
    requires
        all_positive(p),
        1 <= i <= p.len(),
        1 <= m,
    ensures
        coord(p, i, m) == ((m - 1) / stride(p, i - 1)) % p[i - 1] + 1,
        1 <= coord(p, i, m) <= p[i - 1],
        coord(p, i, m) >= 2 ==> m - stride(p, i - 1) >= 1,
{
    let s = stride(p, i - 1);
    let pi = p[i - 1];
    lemma_stride_pos(p, i - 1);
    let q = (m - 1) / s;
    lemma_div_denominator(m - 1, s, pi);
    assert((m - 1) / stride(p, i) == q / pi);
    lemma_fundamental_div_mod(q, pi);
    assert(coord(p, i, m) == q % pi + 1);
    if coord(p, i, m) >= 2 {
        assert(q % pi >= 1);
        assert(q >= 1);
        lemma_fundamental_div_mod(m - 1, s);
        assert(m - 1 == s * q + (m - 1) % s);
        assert(s * 1 <= s * q) by (nonlinear_arith)
            requires
                s >= 1,
                q >= 1,
        ;
    }
}

/// The reflection of a leaf `1 <= m <= l` along any axis stays a leaf of
/// the current chain: `1 <= reflect <= l`.
pub proof fn lemma_reflect_range(p: Seq<int>, i: int, l: int, m: int)
    requires
        all_positive(p),
        1 <= i <= p.len(),
        1 <= m <= l,
    ensures
        1 <= reflect(p, i, l, m) <= l,
{
    lemma_coord_bounds(p, i, m);
    lemma_coord_bounds(p, i, l);
    lemma_stride_pos(p, i - 1);
}

/// Any transition-table entry is in `0..=l`.
pub proof fn lemma_table_entry_range(p: Seq<int>, i: int, l: int, m: int)
    requires
        all_positive(p),
        1 <= i <= p.len(),
        1 <= l,
    ensures
        0 <= table_entry(p, i, l, m) <= l,
{
    if 1 <= m <= l {
        lemma_reflect_range(p, i, l, m);
    }
}

/// Evenness of a sum and of the corresponding difference agree.
pub proof fn lemma_parity_sum_diff(x: int, y: int)
    ensures
        ((x + y) % 2 == 0) == ((x - y) % 2 == 0),
{
    lemma_mod_multiples_vanish(y, x - y, 2);
    assert(2 * y + (x - y) == x + y);
}


/// Values the axis walk can stand at are the chain positions `0..=l`.
pub open spec fn walk_pos(m: int, l: int) -> bool {
    0 <= m <= l
}

/// The successor array is within the leaf range.
pub open spec fn succ_in_range(b: Seq<int>, n: int) -> bool {
    b.len() == n + 1 && (forall|x: int| 0 <= x <= n ==> 0 <= #[trigger] b[x] <= n)
}

/// An axis walk from a chain position preserves the scratch invariant.
pub proof fn lemma_walk_inv(
    p: Seq<int>,
    b: Seq<int>,
    i: int,
    l: int,
    m: int,
    fuel: nat,
    res: int,
    mod_val: int,
    st: GapScratch,
    n: int,
)
    requires
        all_positive(p),
        1 <= i <= p.len(),
        1 <= l <= n,
        succ_in_range(b, n),
        walk_pos(m, l),
        scratch_inv(st, n, l),
    ensures
        scratch_inv(axis_walk(p, b, i, l, m, fuel, res, mod_val, st), n, l),
    decreases fuel,
{
    if m == l || fuel == 0 {
    } else {
        lemma_record_visit_inv(st, n, l, m, res, mod_val);
        let st1 = crate::model::record_visit(st, l, m, res, mod_val);
        lemma_table_entry_range(p, i, l, b[m]);
        lemma_walk_inv(p, b, i, l, table_entry(p, i, l, b[m]), (fuel - 1) as nat, res, mod_val, st1, n);
    }
}

/// Processing the axes preserves the scratch invariant, and counts at
/// most one trivial axis per axis.
pub proof fn lemma_axes_inv(
    p: Seq<int>,
    n: int,
    b: Seq<int>,
    l: int,
    i: int,
    res: int,
    mod_val: int,
)
    requires
        all_positive(p),
        0 <= i <= p.len(),
        1 <= l <= n,
        succ_in_range(b, n),
    ensures
        scratch_inv(gaps_axes(p, n, b, l, i, res, mod_val).0, n, l),
        0 <= gaps_axes(p, n, b, l, i, res, mod_val).1 <= i,
    decreases i,
{
    if i <= 0 {
        let st0 = gaps_axes(p, n, b, l, i, res, mod_val).0;
        assert(st0.counts == zero_row(n + 1));
        assert(forall|v: int| 0 <= v <= n ==> #[trigger] st0.counts[v] == 0);
    } else {
        lemma_axes_inv(p, n, b, l, i - 1, res, mod_val);
        let st = gaps_axes(p, n, b, l, i - 1, res, mod_val).0;
        if table_entry(p, i, l, l) == l {
        } else {
            lemma_table_entry_range(p, i, l, l);
            lemma_walk_inv(
                p,
                b,
                i,
                l,
                table_entry(p, i, l, l),
                crate::model::walk_fuel(n),
                res,
                mod_val,
                st,
                n,
            );
        }
    }
}

/// If every axis up to `i` was trivial, the scratch state is still the
/// initial one.
pub proof fn lemma_axes_trivial(
    p: Seq<int>,
    n: int,
    b: Seq<int>,
    l: int,
    i: int,
    res: int,
    mod_val: int,
)
    requires
        all_positive(p),
        0 <= i <= p.len(),
        1 <= l <= n,
        succ_in_range(b, n),
        gaps_axes(p, n, b, l, i, res, mod_val).1 == i,
    ensures
        gaps_axes(p, n, b, l, i, res, mod_val).0 == gaps_axes(p, n, b, l, 0, res, mod_val).0,
    decreases i,
{
    if i > 0 {
        lemma_axes_inv(p, n, b, l, i - 1, res, mod_val);
        let prev = gaps_axes(p, n, b, l, i - 1, res, mod_val);
        if table_entry(p, i, l, l) == l {
            lemma_axes_trivial(p, n, b, l, i - 1, res, mod_val);
        } else {
            assert(gaps_axes(p, n, b, l, i, res, mod_val).1 == prev.1);
            assert(false);
        }
    }
}

/// The precomputed tables of one query: `big_p[i]` is the stride of axis
/// `i`; `c[i][m]` the coordinate of leaf `m` along axis `i`; `d[i][l][m]`
/// the transition-table entry for axis `i`, chain length `l`, leaf `m`.
pub struct PrecomputedArrays {
    pub(crate) big_p: Vec<i32>,
    pub(crate) c: Vec<Vec<i32>>,
    pub(crate) d: Vec<Vec<Vec<i32>>>,
}

impl PrecomputedArrays {
    /// The tables hold exactly the model values for dimension list `p`
    /// with `n` leaves and `dim` axes.
    pub(crate) open spec fn wf(&self, p: Seq<int>, n: int, dim: int) -> bool {
        &&& self.big_p@.len() == dim + 1
        &&& (forall|i: int|
            0 <= i <= dim ==> #[trigger] self.big_p@[i] as int == stride(p, i))
        &&& self.c@.len() == dim + 1
        &&& (forall|i: int| 0 <= i <= dim ==> #[trigger] self.c@[i]@.len() == n + 1)
        &&& (forall|i: int, m: int|
            1 <= i <= dim && 1 <= m <= n ==> #[trigger] self.c@[i]@[m] as int == coord(p, i, m))
        &&& self.d@.len() == dim + 1
        &&& (forall|i: int| 0 <= i <= dim ==> #[trigger] self.d@[i]@.len() == n + 1)
        &&& (forall|i: int, l: int|
            0 <= i <= dim && 0 <= l <= n ==> #[trigger] self.d@[i]@[l]@.len() == n + 1)
        &&& (forall|i: int, l: int, m: int|
            1 <= i <= dim && 1 <= l <= n && 0 <= m <= n ==> #[trigger] self.d@[i]@[l]@[m] as int
                == table_entry(p, i, l, m))
    }

    /// Read one transition-table entry.
    pub(crate) fn entry(&self, p: Ghost<Seq<int>>, n: usize, dim: usize, i: usize, l: usize, m: usize) -> (r: i32)
        requires
            self.wf(p@, n as int, dim as int),
            1 <= i <= dim,
            1 <= l <= n,
            m <= n,
        ensures
            r as int == table_entry(p@, i as int, l as int, m as int),
    {
        self.d[i][l][m]
    }

    /// Build the tables for the dimension list `p` with `n` leaves.
    pub(crate) fn build(p: &[i32], n: usize, dim: usize) -> (r: Self)
        requires
            dim == p@.len(),
            dim < MAX_LEAVES,
            all_positive(ints(p@)),
            n as int == leaf_total(ints(p@)),
            1 <= n < MAX_LEAVES,
        ensures
            r.wf(ints(p@), n as int, dim as int),
    {
        let ghost pp = ints(p@);
        let mut big_p: Vec<i32> = Vec::new();
        big_p.push(1i32);
        let mut i: usize = 1;
        while i <= dim
            invariant
                dim == p@.len(),
                dim < MAX_LEAVES,
                all_positive(pp),
                pp == ints(p@),
                n as int == leaf_total(pp),
                1 <= n < MAX_LEAVES,
                1 <= i <= dim + 1,
                big_p@.len() == i,
                forall|j: int| 0 <= j < i ==> #[trigger] big_p@[j] as int == stride(pp, j),
            decreases dim + 1 - i,
        {
            proof {
                lemma_stride_pos(pp, i as int);
                lemma_stride_le_total(pp, i as int, dim as int);
                assert(pp[i - 1] == p@[i - 1] as int);
            }
            let v: i32 = big_p[i - 1] * p[i - 1];
            big_p.push(v);
            i = i + 1;
        }

        let mut c: Vec<Vec<i32>> = Vec::new();
        let zrow = zero_i32_vec(n + 1);
        c.push(zrow);
        let mut i: usize = 1;
        while i <= dim
            invariant
                dim == p@.len(),
                dim < MAX_LEAVES,
                all_positive(pp),
                pp == ints(p@),
                n as int == leaf_total(pp),
                1 <= n < MAX_LEAVES,
                big_p@.len() == dim + 1,
                forall|j: int| 0 <= j <= dim ==> #[trigger] big_p@[j] as int == stride(pp, j),
                1 <= i <= dim + 1,
                c@.len() == i,
                forall|j: int| 0 <= j < i ==> #[trigger] c@[j]@.len() == n + 1,
                forall|j: int, m: int|
                    1 <= j < i && 1 <= m <= n ==> #[trigger] c@[j]@[m] as int == coord(pp, j, m),
            decreases dim + 1 - i,
        {
            let mut row: Vec<i32> = Vec::new();
            row.push(0i32);
            let mut m: usize = 1;
            while m <= n
                invariant
                    dim == p@.len(),
                    dim < MAX_LEAVES,
                    all_positive(pp),
                    pp == ints(p@),
                    n as int == leaf_total(pp),
                    1 <= n < MAX_LEAVES,
                    big_p@.len() == dim + 1,
                    forall|j: int| 0 <= j <= dim ==> #[trigger] big_p@[j] as int == stride(pp, j),
                    1 <= i <= dim,
                    1 <= m <= n + 1,
                    row@.len() == m,
                    forall|m2: int|
                        1 <= m2 < m ==> #[trigger] row@[m2] as int == coord(pp, i as int, m2),
                decreases n + 1 - m,
            {
                proof {
                    lemma_stride_pos(pp, i as int - 1);
                    lemma_stride_pos(pp, i as int);
                    lemma_stride_le_total(pp, i as int - 1, dim as int);
                    lemma_stride_le_total(pp, i as int, dim as int);
                    lemma_coord_bounds(pp, i as int, m as int);
                    lemma_axis_le_total(pp, i as int);
                    assert(pp[i - 1] == p@[i - 1] as int);
                }
                let mi: i32 = m as i32;
                let v: i32 = (mi - 1) / big_p[i - 1] - ((mi - 1) / big_p[i]) * p[i - 1] + 1;
                row.push(v);
                m = m + 1;
            }
            c.push(row);
            i = i + 1;
        }

        let mut d: Vec<Vec<Vec<i32>>> = Vec::new();
        let mut i: usize = 0;
        while i <= dim
            invariant
                dim == p@.len(),
                dim < MAX_LEAVES,
                all_positive(pp),
                pp == ints(p@),
                n as int == leaf_total(pp),
                1 <= n < MAX_LEAVES,
                big_p@.len() == dim + 1,
                forall|j: int| 0 <= j <= dim ==> #[trigger] big_p@[j] as int == stride(pp, j),
                c@.len() == dim + 1,
                forall|j: int| 0 <= j <= dim ==> #[trigger] c@[j]@.len() == n + 1,
                forall|j: int, m: int|
                    1 <= j <= dim && 1 <= m <= n ==> #[trigger] c@[j]@[m] as int == coord(
                        pp,
                        j,
                        m,
                    ),
                i <= dim + 1,
                d@.len() == i,
                forall|j: int| 0 <= j < i ==> #[trigger] d@[j]@.len() == n + 1,
                forall|j: int, l: int|
                    0 <= j < i && 0 <= l <= n ==> #[trigger] d@[j]@[l]@.len() == n + 1,
                forall|j: int, l: int, m: int|
                    1 <= j < i && 1 <= l <= n && 0 <= m <= n ==> #[trigger] d@[j]@[l]@[m] as int
                        == table_entry(pp, j, l, m),
            decreases dim + 1 - i,
        {
            let mut plane: Vec<Vec<i32>> = Vec::new();
            let zr = zero_i32_vec(n + 1);
            plane.push(zr);
            let mut l: usize = 1;
            while l <= n
                invariant
                    dim == p@.len(),
                    dim < MAX_LEAVES,
                    all_positive(pp),
                    pp == ints(p@),
                    n as int == leaf_total(pp),
                    1 <= n < MAX_LEAVES,
                    big_p@.len() == dim + 1,
                    forall|j: int| 0 <= j <= dim ==> #[trigger] big_p@[j] as int == stride(pp, j),
                    c@.len() == dim + 1,
                    forall|j: int| 0 <= j <= dim ==> #[trigger] c@[j]@.len() == n + 1,
                    forall|j: int, m: int|
                        1 <= j <= dim && 1 <= m <= n ==> #[trigger] c@[j]@[m] as int == coord(
                            pp,
                            j,
                            m,
                        ),
                    i <= dim,
                    1 <= l <= n + 1,
                    plane@.len() == l,
                    forall|l2: int| 0 <= l2 < l ==> #[trigger] plane@[l2]@.len() == n + 1,
                    forall|l2: int, m: int|
                        1 <= l2 < l && 0 <= m <= n && 1 <= i ==> #[trigger] plane@[l2]@[m] as int
                            == table_entry(pp, i as int, l2, m),
                    forall|l2: int, m: int|
                        1 <= l2 < l && 0 <= m <= n && i == 0 ==> #[trigger] plane@[l2]@[m] == 0i32,
                decreases n + 1 - l,
            {
                let mut row: Vec<i32> = Vec::new();
                if i == 0 {
                    let zr2 = zero_i32_vec(n + 1);
                    row = zr2;
                } else {
                    let mut m: usize = 0;
                    row.push(0i32);
                    m = 1;
                    while m <= n
                        invariant
                            dim == p@.len(),
                            dim < MAX_LEAVES,
                            all_positive(pp),
                            pp == ints(p@),
                            n as int == leaf_total(pp),
                            1 <= n < MAX_LEAVES,
                            big_p@.len() == dim + 1,
                            forall|j: int|
                                0 <= j <= dim ==> #[trigger] big_p@[j] as int == stride(pp, j),
                            c@.len() == dim + 1,
                            forall|j: int| 0 <= j <= dim ==> #[trigger] c@[j]@.len() == n + 1,
                            forall|j: int, m2: int|
                                1 <= j <= dim && 1 <= m2 <= n ==> #[trigger] c@[j]@[m2] as int
                                    == coord(pp, j, m2),
                            1 <= i <= dim,
                            1 <= l <= n,
                            1 <= m <= n + 1,
                            row@.len() == m,
                            row@[0] == 0i32,
                            forall|m2: int|
                                1 <= m2 < m ==> #[trigger] row@[m2] as int == table_entry(
                                    pp,
                                    i as int,
                                    l as int,
                                    m2,
                                ),
                        decreases n + 1 - m,
                    {
                        let v: i32 = if m > l {
                            0i32
                        } else {
                            proof {
                                lemma_coord_bounds(pp, i as int, m as int);
                                lemma_coord_bounds(pp, i as int, l as int);
                                lemma_stride_pos(pp, i as int - 1);
                                lemma_stride_le_total(pp, i as int - 1, dim as int);
                                lemma_axis_le_total(pp, i as int);
                                lemma_parity_sum_diff(
                                    coord(pp, i as int, l as int),
                                    coord(pp, i as int, m as int),
                                );
                                assert(pp[i - 1] == p@[i - 1] as int);
                            }
                            let cl: i32 = c[i][l];
                            let cm: i32 = c[i][m];
                            let s: i32 = big_p[i - 1];
                            let mi: i32 = m as i32;
                            if (cl + cm) % 2 == 0 {
                                if cm == 1 {
                                    mi
                                } else {
                                    mi - s
                                }
                            } else if cm == p[i - 1] || mi + s > l as i32 {
                                mi
                            } else {
                                mi + s
                            }
                        };
                        row.push(v);
                        m = m + 1;
                    }
                }
                plane.push(row);
                l = l + 1;
            }
            d.push(plane);
            i = i + 1;
        }

        PrecomputedArrays { big_p, c, d }
    }
}

impl PrecomputedArrays {
    /// No table has been built yet.
    pub closed spec fn is_empty(&self) -> bool {
        self.big_p@.len() == 0 && self.c@.len() == 0 && self.d@.len() == 0
    }
}

impl Default for PrecomputedArrays {
    /// Empty tables, as a fresh query starts with before they are built.
    fn default() -> (r: Self)
        ensures
            r.is_empty(),
    {
        PrecomputedArrays { big_p: Vec::new(), c: Vec::new(), d: Vec::new() }
    }
}

/// A vector of `len` zeros.
pub fn zero_i32_vec(len: usize) -> (r: Vec<i32>)
    ensures
        r@.len() == len,
        forall|j: int| 0 <= j < len ==> #[trigger] r@[j] == 0i32,
        ints(r@) == zero_row(len as int),
{
    let mut r: Vec<i32> = Vec::new();
    let mut j: usize = 0;
    while j < len
        invariant
            j <= len,
            r@.len() == j,
            forall|k: int| 0 <= k < j ==> #[trigger] r@[k] == 0i32,
        decreases len - j,
    {
        r.push(0i32);
        j = j + 1;
    }
    proof {
        assert(ints(r@) =~= zero_row(len as int));
    }
    r
}

} // verus!
