//! The backtracking search engine: the circular-list fold state, the gap
//! computation, and the recursive depth-first search, each verified to
//! compute exactly the model values.
use vstd::prelude::*;

use crate::accum::{lemma_ints_update, lemma_wrap64_identity, lemma_wrap64_absorb, wadd64};
use crate::model::{
    admitted, all_positive, axis_walk, child_sum, gap_candidates, gaps_axes, ints, keep_full,
    leaf_total, lemma_splice_ring, record_visit, ring_wf, search_total, splice_in, upto,
    walk_fuel, wrap64, zero_row, GapScratch, MAX_LEAVES,
};
use crate::tables::{
    lemma_axes_inv, lemma_axes_trivial, lemma_table_entry_range, succ_in_range, PrecomputedArrays,
};

verus! {

/// All search state of one engine run.
pub(crate) struct SearchEngine {
    pub(crate) p: Vec<i32>,
    pub(crate) n: usize,
    pub(crate) dim: usize,
    pub(crate) flag: bool,
    pub(crate) res: i32,
    pub(crate) mod_val: i32,
    pub(crate) tables: PrecomputedArrays,
    pub(crate) a: Vec<i32>,
    pub(crate) b: Vec<i32>,
    pub(crate) marks: Vec<i32>,
    pub(crate) total: i64,
}

impl SearchEngine {
    /// Well-formedness apart from the mark array being clean: correct
    /// tables and linked-list arrays within range.
    pub(crate) open spec fn wf_core(self) -> bool {
        &&& self.dim == self.p@.len()
        &&& self.dim < MAX_LEAVES
        &&& all_positive(ints(self.p@))
        &&& self.n as int == leaf_total(ints(self.p@))
        &&& 1 <= self.n < MAX_LEAVES
        &&& self.tables.wf(ints(self.p@), self.n as int, self.dim as int)
        &&& self.a@.len() == self.n + 1
        &&& self.b@.len() == self.n + 1
        &&& (forall|j: int| 0 <= j <= self.n ==> 0 <= #[trigger] self.a@[j] <= self.n as i32)
        &&& (forall|j: int| 0 <= j <= self.n ==> 0 <= #[trigger] self.b@[j] <= self.n as i32)
        &&& self.marks@.len() == self.n + 1
        &&& self.mod_val >= 0
    }

    /// Well-formedness between search steps: additionally, every mark is
    /// zero.
    pub(crate) open spec fn wf(self) -> bool {
        &&& self.wf_core()
        &&& (forall|j: int| 0 <= j <= self.n ==> #[trigger] self.marks@[j] == 0i32)
    }

    /// The fields that never change during a run.
    pub(crate) open spec fn frame(self, other: Self) -> bool {
        &&& self.p == other.p
        &&& self.n == other.n
        &&& self.dim == other.dim
        &&& self.flag == other.flag
        &&& self.res == other.res
        &&& self.mod_val == other.mod_val
        &&& self.tables == other.tables
    }

    /// Splice leaf `l` into the circular list directly after leaf `g`.
    fn splice(&mut self, l: usize, g: usize)
        requires
            old(self).wf(),
            1 <= l <= old(self).n,
            g < l,
        ensures
            final(self).wf(),
            final(self).frame(*old(self)),
            final(self).marks == old(self).marks,
            final(self).total == old(self).total,
            final(self).a@ == old(self).a@.update(l as int, g as i32).update(
                old(self).b@[g as int] as int,
                l as i32,
            ),
            final(self).b@ == old(self).b@.update(l as int, old(self).b@[g as int]).update(
                g as int,
                l as i32,
            ),
            ints(final(self).a@) == splice_in(
                ints(old(self).a@),
                ints(old(self).b@),
                l as int,
                g as int,
            ).0,
            ints(final(self).b@) == splice_in(
                ints(old(self).a@),
                ints(old(self).b@),
                l as int,
                g as int,
            ).1,
    {
        let ghost a0 = ints(old(self).a@);
        let ghost b0 = ints(old(self).b@);
        let bg: i32 = self.b[g];
        self.a[l] = g as i32;
        self.b[l] = bg;
        self.b[g] = l as i32;
        self.a[bg as usize] = l as i32;
        proof {
            lemma_ints_update(old(self).a@, l as int, g as i32);
            lemma_ints_update(old(self).a@.update(l as int, g as i32), bg as int, l as i32);
            lemma_ints_update(old(self).b@, l as int, bg);
            lemma_ints_update(old(self).b@.update(l as int, bg), g as int, l as i32);
            assert(ints(self.a@) == splice_in(a0, b0, l as int, g as int).0);
            assert(ints(self.b@) == splice_in(a0, b0, l as int, g as int).1);
        }
    }

    /// Relink the neighbours of leaf `l` around it and restore the two
    /// slots of `l` itself to the given saved values.
    fn unsplice(&mut self, l: usize, sa: i32, sb: i32)
        requires
            old(self).wf(),
            1 <= l <= old(self).n,
            0 <= old(self).a@[l as int] < l as i32,
            0 <= old(self).b@[l as int] < l as i32,
            0 <= sa <= old(self).n as i32,
            0 <= sb <= old(self).n as i32,
        ensures
            final(self).wf(),
            final(self).frame(*old(self)),
            final(self).marks == old(self).marks,
            final(self).total == old(self).total,
            final(self).a@ == old(self).a@.update(old(self).b@[l as int] as int, old(self).a@[l as int])
                .update(l as int, sa),
            final(self).b@ == old(self).b@.update(old(self).a@[l as int] as int, old(self).b@[l as int])
                .update(l as int, sb),
    {
        let al: i32 = self.a[l];
        let bl: i32 = self.b[l];
        self.b[al as usize] = bl;
        self.a[bl as usize] = al;
        self.a[l] = sa;
        self.b[l] = sb;
        proof {
            assert(self.a@ =~= old(self).a@.update(old(self).b@[l as int] as int, old(self).a@[l as int])
                .update(l as int, sa));
            assert(self.b@ =~= old(self).b@.update(old(self).a@[l as int] as int, old(self).b@[l as int])
                .update(l as int, sb));
        }
    }

    /// Unchanged parts during a gap computation: everything but the marks.
    pub(crate) open spec fn gap_frame(self, orig: Self) -> bool {
        &&& self.wf_core()
        &&& self.frame(orig)
        &&& self.a == orig.a
        &&& self.b == orig.b
        &&& self.total == orig.total
    }

    /// Compute the candidate insertion points for extending the current
    /// partial fold to length `l`, exactly as the model's
    /// `gap_candidates` describes: walk every axis, fall back to all
    /// positions when every axis is trivial, and keep the positions
    /// visited on every non-trivial axis.  The mark array is used as the
    /// deduplication counter and left clean again.
    #[verifier::rlimit(60)]
    fn compute_gaps(&mut self, l: usize) -> (out: Vec<i32>)
        requires
            old(self).wf(),
            1 <= l <= old(self).n,
        ensures
            final(self).wf(),
            final(self).gap_frame(*old(self)),
            final(self).marks@ == old(self).marks@,
            ints(out@) == gap_candidates(
                ints(old(self).p@),
                old(self).n as int,
                old(self).dim as int,
                ints(old(self).b@),
                l as int,
                old(self).res as int,
                old(self).mod_val as int,
            ),
            forall|k: int| 0 <= k < out@.len() ==> 0 <= #[trigger] out@[k] < l as i32,
    {
        let ghost orig = *old(self);
        let ghost pp = ints(old(self).p@);
        let ghost bb = ints(old(self).b@);
        let ghost nn = old(self).n as int;
        let ghost di = old(self).dim as int;
        let ghost rs = old(self).res as int;
        let ghost mv = old(self).mod_val as int;
        let n = self.n;
        let dim = self.dim;
        proof {
            assert(succ_in_range(bb, nn));
            assert(ints(self.marks@) =~= zero_row(nn + 1));
        }

        let mut gaps: Vec<i32> = Vec::new();
        let mut dd: usize = 0;
        let mut i: usize = 1;
        proof {
            assert(ints(gaps@) =~= Seq::<int>::empty());
        }
        while i <= dim
            invariant
                self.gap_frame(orig),
                1 <= i <= dim + 1,
                dd < i,
                ({
                    let axr = gaps_axes(pp, nn, bb, l as int, i as int - 1, rs, mv);
                    &&& ints(gaps@) == axr.0.gaps
                    &&& ints(self.marks@) == axr.0.counts
                    &&& dd as int == axr.1
                }),
                forall|k: int| 0 <= k < gaps@.len() ==> 0 <= #[trigger] gaps@[k] < l as i32,
                forall|v: int|
                    0 <= v <= nn ==> 0 <= #[trigger] self.marks@[v] as int <= (i - 1) * (nn + 2),
            decreases dim + 1 - i,
        {
            let ghost axprev = gaps_axes(pp, nn, bb, l as int, i as int - 1, rs, mv).0;
            let dll: i32 = self.tables.entry(Ghost(pp), n, dim, i, l, l);
            proof {
                lemma_table_entry_range(pp, i as int, l as int, l as int);
            }
            if dll == l as i32 {
                dd = dd + 1;
                proof {
                    assert((i - 1) * (nn + 2) <= i as int * (nn + 2)) by (nonlinear_arith)
                        requires
                            nn >= 0,
                            i >= 1,
                    ;
                }
            } else {
                let mut m: i32 = dll;
                let mut fuel: usize = n + 2;
                let ghost base = ints(self.marks@);
                while m != l as i32 && fuel > 0
                    invariant
                        self.gap_frame(orig),
                        0 <= m <= l as i32,
                        fuel <= n + 2,
                        ({
                            let cur = GapScratch { gaps: ints(gaps@), counts: ints(self.marks@) };
                            axis_walk(pp, bb, i as int, l as int, m as int, fuel as nat, rs, mv, cur)
                                == axis_walk(
                                pp,
                                bb,
                                i as int,
                                l as int,
                                dll as int,
                                walk_fuel(nn),
                                rs,
                                mv,
                                GapScratch { gaps: axprev.gaps, counts: axprev.counts },
                            )
                        }),
                        forall|k: int| 0 <= k < gaps@.len() ==> 0 <= #[trigger] gaps@[k] < l as i32,
                        forall|v: int|
                            0 <= v <= nn ==> base[v] <= #[trigger] self.marks@[v] as int <= base[v]
                                + (n + 2 - fuel),
                        forall|v: int| 0 <= v <= nn ==> 0 <= #[trigger] base[v] <= (i - 1) * (nn + 2),
                    decreases fuel,
                {
                    let ghost stpre = GapScratch { gaps: ints(gaps@), counts: ints(self.marks@) };
                    let ghost gaps_pre = gaps@;
                    let ghost marks_pre = self.marks@;
                    let pass: bool = self.mod_val == 0 || (l as i32) != self.mod_val || m
                        % self.mod_val == self.res;
                    proof {
                        assert(pass == admitted(l as int, m as int, rs, mv));
                    }
                    if pass {
                        let mu: usize = m as usize;
                        if self.marks[mu] == 0 {
                            gaps.push(m);
                        }
                        let cur: i32 = self.marks[mu];
                        proof {
                            assert(cur as int <= (i - 1) * (nn + 2) + (n + 2 - fuel));
                            assert((i - 1) * (nn + 2) <= 62 * 65) by (nonlinear_arith)
                                requires
                                    1 <= i <= 63,
                                    0 <= nn <= 63,
                            ;
                        }
                        self.marks[mu] = cur + 1;
                        proof {
                            if stpre.counts[m as int] == 0 {
                                crate::accum::lemma_ints_push(gaps_pre, m);
                            }
                            lemma_ints_update(marks_pre, m as int, (cur + 1) as i32);
                        }
                    }
                    let ghost stpost = record_visit(stpre, l as int, m as int, rs, mv);
                    proof {
                        assert(ints(gaps@) == stpost.gaps);
                        assert(ints(self.marks@) == stpost.counts);
                    }
                    let bm: i32 = self.b[m as usize];
                    let mnext: i32 = self.tables.entry(Ghost(pp), n, dim, i, l, bm as usize);
                    proof {
                        lemma_table_entry_range(pp, i as int, l as int, bm as int);
                        assert(axis_walk(pp, bb, i as int, l as int, m as int, fuel as nat, rs, mv, stpre)
                            == axis_walk(
                            pp,
                            bb,
                            i as int,
                            l as int,
                            mnext as int,
                            (fuel - 1) as nat,
                            rs,
                            mv,
                            stpost,
                        ));
                    }
                    m = mnext;
                    fuel = fuel - 1;
                }
                proof {
                    let cur = GapScratch { gaps: ints(gaps@), counts: ints(self.marks@) };
                    assert(axis_walk(pp, bb, i as int, l as int, m as int, fuel as nat, rs, mv, cur)
                        == cur);
                    assert((i - 1) * (nn + 2) + (nn + 2) == i as int * (nn + 2)) by (nonlinear_arith);
                }
            }
            i = i + 1;
        }

        let ghost axfin = gaps_axes(pp, nn, bb, l as int, di, rs, mv);
        proof {
            lemma_axes_inv(pp, nn, bb, l as int, di, rs, mv);
        }
        let ghost gaps2 = if dd == dim {
            axfin.0.gaps + upto(l as int)
        } else {
            axfin.0.gaps
        };

        if dd == dim {
            proof {
                lemma_axes_trivial(pp, nn, bb, l as int, di, rs, mv);
                assert(axfin.0.gaps =~= Seq::<int>::empty());
                assert(forall|v: int| 0 <= v <= nn ==> #[trigger] axfin.0.counts[v] == 0);
            }
            let mut mm: usize = 0;
            proof {
                assert(ints(gaps@) =~= axfin.0.gaps + upto(0));
            }
            while mm < l
                invariant
                    self.gap_frame(orig),
                    mm <= l,
                    ints(self.marks@) == axfin.0.counts,
                    ints(gaps@) == axfin.0.gaps + upto(mm as int),
                    forall|k: int| 0 <= k < gaps@.len() ==> 0 <= #[trigger] gaps@[k] < l as i32,
                decreases l - mm,
            {
                let ghost gaps_pre = gaps@;
                gaps.push(mm as i32);
                proof {
                    crate::accum::lemma_ints_push(gaps_pre, mm as i32);
                    assert(ints(gaps@) =~= axfin.0.gaps + upto(mm as int + 1));
                }
                mm = mm + 1;
            }
        }

        proof {
            assert(ints(gaps@) == gaps2);
            // Facts needed for the compaction pass.
            assert(gaps2.no_duplicates() && (forall|k: int|
                0 <= k < gaps2.len() ==> 0 <= #[trigger] gaps2[k] < l as i32) && (forall|v: int|
                0 <= v <= nn && !gaps2.contains(v) ==> #[trigger] axfin.0.counts[v] == 0)) by {
                if dd == dim {
                    assert(forall|k: int| 0 <= k < gaps2.len() ==> #[trigger] gaps2[k] == k);
                    assert forall|k: int, k2: int|
                        0 <= k < k2 < gaps2.len() implies gaps2[k] != gaps2[k2] by {}
                    crate::model::lemma_distinct_by_index(gaps2);
                } else {
                    assert forall|v: int|
                        0 <= v <= nn && !gaps2.contains(v) implies #[trigger] axfin.0.counts[v]
                        == 0 by {
                        if axfin.0.counts[v] > 0 {
                            assert(gaps2.contains(v));
                        }
                    }
                }
            }
        }

        let need: i32 = (dim - dd) as i32;
        let mut out: Vec<i32> = Vec::new();
        let mut j: usize = 0;
        proof {
            assert(ints(out@) =~= keep_full(gaps2, axfin.0.counts, need as int, 0));
            assert(gaps2.subrange(0, 0) =~= Seq::<int>::empty());
        }
        while j < gaps.len()
            invariant
                self.gap_frame(orig),
                j <= gaps@.len(),
                ints(gaps@) == gaps2,
                ints(out@) == keep_full(gaps2, axfin.0.counts, need as int, j as int),
                forall|v: int|
                    0 <= v <= nn ==> #[trigger] self.marks@[v] as int == if gaps2.subrange(
                        0,
                        j as int,
                    ).contains(v) {
                        0
                    } else {
                        axfin.0.counts[v]
                    },
                forall|k: int| 0 <= k < out@.len() ==> 0 <= #[trigger] out@[k] < l as i32,
            decreases gaps@.len() - j,
        {
            let ghost marks_head = self.marks@;
            let v: i32 = gaps[j];
            let vu: usize = v as usize;
            proof {
                assert(gaps2[j as int] == v as int);
                assert(!gaps2.subrange(0, j as int).contains(v as int)) by {
                    if gaps2.subrange(0, j as int).contains(v as int) {
                        let k = choose|k: int|
                            0 <= k < j && #[trigger] gaps2.subrange(0, j as int)[k] == v as int;
                        assert(gaps2[k] == gaps2[j as int]);
                    }
                }
                assert(self.marks@[v as int] as int == axfin.0.counts[v as int]);
            }
            let ghost out_pre = out@;
            if self.marks[vu] == need {
                out.push(v);
                proof {
                    crate::accum::lemma_ints_push(out_pre, v);
                }
            }
            self.marks[vu] = 0;
            proof {
                assert(self.marks@ == marks_head.update(v as int, 0i32));
                assert(gaps2.subrange(0, j as int + 1) =~= gaps2.subrange(0, j as int).push(
                    gaps2[j as int],
                ));
                assert(gaps2.subrange(0, j as int + 1)[j as int] == v as int);
                assert forall|w: int| 0 <= w <= nn implies #[trigger] self.marks@[w] as int
                    == if gaps2.subrange(0, j as int + 1).contains(w) {
                    0int
                } else {
                    axfin.0.counts[w]
                } by {
                    if gaps2.subrange(0, j as int + 1).contains(w) {
                        if w != v as int {
                            assert(gaps2.subrange(0, j as int).contains(w)) by {
                                let k = choose|k: int|
                                    0 <= k < j + 1 && #[trigger] gaps2.subrange(0, j as int + 1)[k] == w;
                                assert(k < j);
                                assert(gaps2.subrange(0, j as int)[k] == w);
                            }
                            assert(marks_head[w] as int == 0);
                        }
                    } else {
                        assert(!gaps2.subrange(0, j as int).contains(w)) by {
                            if gaps2.subrange(0, j as int).contains(w) {
                                let k = choose|k: int|
                                    0 <= k < j && #[trigger] gaps2.subrange(0, j as int)[k] == w;
                                assert(gaps2.subrange(0, j as int + 1)[k] == w);
                            }
                        }
                        assert(w != v as int);
                        assert(marks_head[w] as int == axfin.0.counts[w]);
                    }
                }
            }
            j = j + 1;
        }
        proof {
            assert(gaps2.subrange(0, gaps2.len() as int) =~= gaps2);
            assert forall|w: int| 0 <= w <= nn implies #[trigger] self.marks@[w] == 0i32 by {
                if gaps2.contains(w) {
                } else {
                    assert(axfin.0.counts[w] == 0);
                }
            }
            assert(self.marks@ =~= old(self).marks@);
            assert(ints(out@) == gap_candidates(pp, nn, di, bb, l as int, rs, mv));
        }
        out
    }

    /// The backtracking search from chain length `l`: adds to the running
    /// total, modulo 64 bits, exactly the model count `search_total` of
    /// the current state, and restores the fold state behind itself.
    pub(crate) fn search(&mut self, l: usize)
        requires
            old(self).wf(),
            1 <= l <= old(self).n + 1,
            ring_wf(ints(old(self).a@), ints(old(self).b@), l as int),
        ensures
            final(self).wf(),
            final(self).frame(*old(self)),
            final(self).a@ == old(self).a@,
            final(self).b@ == old(self).b@,
            final(self).marks@ == old(self).marks@,
            final(self).total as int == wrap64(
                old(self).total + search_total(
                    ints(old(self).p@),
                    old(self).n as int,
                    old(self).dim as int,
                    old(self).flag,
                    old(self).res as int,
                    old(self).mod_val as int,
                    ints(old(self).a@),
                    ints(old(self).b@),
                    l as int,
                ),
            ),
        decreases old(self).n + 1 - l,
    {
        let ghost orig = *old(self);
        let ghost pp = ints(orig.p@);
        let ghost aa = ints(orig.a@);
        let ghost bb = ints(orig.b@);
        let ghost nn = orig.n as int;
        let ghost di = orig.dim as int;
        let ghost rs = orig.res as int;
        let ghost mv = orig.mod_val as int;
        let ghost model_total = search_total(pp, nn, di, orig.flag, rs, mv, aa, bb, l as int);

        if self.flag && l > 1 && self.b[0] != 1 {
            proof {
                assert(bb[0] == orig.b@[0] as int);
                assert(model_total == 0);
                lemma_wrap64_identity(self.total as int);
            }
            return;
        }
        if l > self.n {
            let count_step: i64 = self.n as i64;
            self.total = wadd64(self.total, count_step);
            proof {
                assert(model_total == nn);
            }
            return;
        }
        let gs: Vec<i32> = self.compute_gaps(l);
        let ghost gseq = ints(gs@);
        proof {
            assert(model_total == child_sum(pp, nn, di, orig.flag, rs, mv, aa, bb, l as int, gseq, 0));
            lemma_wrap64_identity(orig.total as int);
        }
        let mut j: usize = 0;
        while j < gs.len()
            invariant
                self.wf(),
                self.frame(orig),
                self.a@ == orig.a@,
                self.b@ == orig.b@,
                self.marks@ == orig.marks@,
                j <= gs@.len(),
                self.total as int == wrap64(
                    orig.total + (child_sum(pp, nn, di, orig.flag, rs, mv, aa, bb, l as int, gseq, 0)
                        - child_sum(
                        pp,
                        nn,
                        di,
                        orig.flag,
                        rs,
                        mv,
                        aa,
                        bb,
                        l as int,
                        gseq,
                        j as int,
                    )),
                ),
            decreases gs@.len() - j,
        {
            let g: i32 = gs[j];
            let gu: usize = g as usize;
            let sa: i32 = self.a[l];
            let sb: i32 = self.b[l];
            proof {
                assert(0 <= gseq[j as int] < l as int);
                assert(bb[g as int] < l as int);
                assert(aa[bb[g as int]] == g as int);
            }
            let ghost bgi = orig.b@[g as int];
            self.splice(l, gu);
            proof {
                lemma_splice_ring(aa, bb, l as int, g as int);
            }
            let ghost tb = self.total as int;
            let ghost spliced = splice_in(aa, bb, l as int, g as int);
            self.search(l + 1);
            proof {
                assert(0 <= self.a@[l as int] < l as i32);
                assert(0 <= self.b@[l as int] < l as i32);
            }
            self.unsplice(l, sa, sb);
            proof {
                // The fold state is restored: the slot of `bgi` gets back
                // its old value `g` by the ring invariant, and the slots
                // of `l` are restored from the saved values.
                assert(orig.a@[bgi as int] as int == g as int);
                assert(orig.b@[g as int] == bgi);
                assert(self.a@ =~= orig.a@);
                assert(self.b@ =~= orig.b@);
                // One child subtree accounted for.
                let s_j = child_sum(pp, nn, di, orig.flag, rs, mv, aa, bb, l as int, gseq, j as int);
                let s_j1 = child_sum(
                    pp,
                    nn,
                    di,
                    orig.flag,
                    rs,
                    mv,
                    aa,
                    bb,
                    l as int,
                    gseq,
                    j as int + 1,
                );
                let c_j = search_total(
                    pp,
                    nn,
                    di,
                    orig.flag,
                    rs,
                    mv,
                    spliced.0,
                    spliced.1,
                    l as int + 1,
                );
                assert(s_j == c_j + s_j1);
                let s_0 = child_sum(pp, nn, di, orig.flag, rs, mv, aa, bb, l as int, gseq, 0);
                lemma_wrap64_absorb(orig.total + (s_0 - s_j), c_j);
            }
            j = j + 1;
        }
        proof {
            assert(child_sum(pp, nn, di, orig.flag, rs, mv, aa, bb, l as int, gseq, gs@.len() as int)
                == 0);
        }
    }
}

} // verus!
