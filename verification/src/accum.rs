//! The wrapping 64-bit accumulator: the engine's running total is an
//! `i64` that wraps on overflow, so every exec-level count equals the
//! mathematical model value reduced by `wrap64`.
use vstd::prelude::*;

use crate::model::{ints, wrap64};

verus! {

use vstd::arithmetic::div_mod::{lemma_mod_add_multiples_vanish, lemma_mod_sub_multiples_vanish, lemma_small_mod, lemma_fundamental_div_mod};

/// The modulus of the accumulator.
pub open spec fn two_to_64() -> int {
    0x1_0000_0000_0000_0000
}

/// `wrap64` is the identity on values already in `i64` range.
pub proof fn lemma_wrap64_identity(x: int)
    requires
        i64::MIN <= x <= i64::MAX,
    ensures
        wrap64(x) == x,
{
    if x >= 0 {
        lemma_small_mod(x as nat, two_to_64() as nat);
    } else {
        lemma_mod_add_multiples_vanish(x, two_to_64());
        lemma_small_mod((x + two_to_64()) as nat, two_to_64() as nat);
    }
}

/// Wrapping absorbs an inner wrap: accumulating a wrapped partial sum
/// and then more gives the wrap of the whole sum.
pub proof fn lemma_wrap64_absorb(x: int, y: int)
    ensures
        wrap64(wrap64(x) + y) == wrap64(x + y),
{
    let m = two_to_64();
    lemma_fundamental_div_mod(x, m);
    let q = x / m;
    // wrap64(x) differs from x by a multiple of m
    if x % m > i64::MAX {
        assert(wrap64(x) == x - m * q - m);
        assert(wrap64(x) + y == (x + y) + m * (-q - 1));
        lemma_mod_mul_vanish(x + y, -q - 1, m);
    } else {
        assert(wrap64(x) == x - m * q);
        assert(wrap64(x) + y == (x + y) + m * (-q));
        lemma_mod_mul_vanish(x + y, -q, m);
    }
}

/// Adding any multiple of the modulus does not change the remainder.
pub proof fn lemma_mod_mul_vanish(x: int, c: int, m: int)
    requires
        m > 0,
    ensures
        (x + m * c) % m == x % m,
    decreases
        if c < 0 {
            -c
        } else {
            c
        },
{
    if c > 0 {
        lemma_mod_mul_vanish(x, c - 1, m);
        lemma_mod_add_multiples_vanish(x + m * (c - 1), m);
        assert(m * c == m * (c - 1) + m) by (nonlinear_arith);
    } else if c < 0 {
        lemma_mod_mul_vanish(x, c + 1, m);
        lemma_mod_sub_multiples_vanish(x + m * (c + 1), m);
        assert(m * c == m * (c + 1) - m) by (nonlinear_arith);
    } else {
        assert(m * 0 == 0) by (nonlinear_arith);
    }
}

/// Add into the wrapping accumulator.
pub fn wadd64(x: i64, y: i64) -> (r: i64)
    ensures
        r as int == wrap64(x as int + y as int),
{
    proof {
        let s = x as int + y as int;
        let m = two_to_64();
        if s > i64::MAX {
            lemma_small_mod(s as nat, m as nat);
        } else if s < i64::MIN {
            lemma_mod_add_multiples_vanish(s, m);
            lemma_small_mod((s + m) as nat, m as nat);
        } else {
            lemma_wrap64_identity(s);
        }
    }
    x.wrapping_add(y)
}

/// Updating one slot of a machine-integer sequence updates the same slot
/// of its mathematical view.
pub proof fn lemma_ints_update(s: Seq<i32>, k: int, v: i32)
    requires
        0 <= k < s.len(),
    ensures
        ints(s.update(k, v)) == ints(s).update(k, v as int),
{
    assert(ints(s.update(k, v)) =~= ints(s).update(k, v as int));
}

/// Pushing onto a machine-integer sequence pushes onto its view.
pub proof fn lemma_ints_push(s: Seq<i32>, v: i32)
    ensures
        ints(s.push(v)) == ints(s).push(v as int),
{
    assert(ints(s.push(v)) =~= ints(s).push(v as int));
}

} // verus!
