//! Dot products and sums over ordered sequences of fixed-point values.
//!
//! Additions on the signed magnitudes are exact, so both operations are
//! pinned down by recursive spec functions over the element values.

use crate::fp::{fits, fp_mul_val, iabs, lemma_mul_num_le, mul_num, FPDecimal, SCALE};
use crate::u256::b256;
use vstd::prelude::*;

verus! {

/// Largest element magnitude the dot product accepts.
pub const ELEM_BOUND: u128 = 1_329_227_995_784_915_872_903_807_060_280_344_576;

/// Largest vector length the dot product and sum accept.
pub const LEN_BOUND: usize = 4_294_967_295;

/// Magnitude bound on a single product of two bounded elements.
pub open spec fn prod_cap() -> nat {
    2_000_000_000_000_000_000_000_000_000_000_000_000_000_000_000_000_000_000nat
}

/// Magnitude bound on a single summand accepted by `sum`.
pub open spec fn sum_elem_cap() -> nat {
    100_000_000_000_000_000_000_000_000_000_000_000_000_000_000_000_000_000_000_000_000_000nat
}

/// A well-formed value whose magnitude is small enough for products.
pub open spec fn bounded_elem(f: FPDecimal) -> bool {
    f.wf() && f.num.as_nat() <= ELEM_BOUND as nat
}

/// A well-formed value whose magnitude is small enough for sums.
pub open spec fn bounded_summand(f: FPDecimal) -> bool {
    f.wf() && f.num.as_nat() <= sum_elem_cap()
}

/// The exact value of the dot product of the first `n` elements.
pub open spec fn dot_val(u: Seq<FPDecimal>, v: Seq<FPDecimal>, n: int) -> int
    decreases n,
{
    if n <= 0 {
        0
    } else {
        dot_val(u, v, n - 1) + fp_mul_val(u[n - 1].as_int(), v[n - 1].as_int())
    }
}

/// The exact value of the sum of the first `n` elements.
pub open spec fn sum_val(u: Seq<FPDecimal>, n: int) -> int
    decreases n,
{
    if n <= 0 {
        0
    } else {
        sum_val(u, n - 1) + u[n - 1].as_int()
    }
}

/// Bounded elements give a bounded product magnitude.
pub proof fn lemma_prod_cap(x: FPDecimal, y: FPDecimal)
    requires
        bounded_elem(x),
        bounded_elem(y),
    ensures
        mul_num(iabs(x.as_int()), iabs(y.as_int())) < b256(),
        mul_num(iabs(x.as_int()), iabs(y.as_int())) <= prod_cap(),
{
    let a = iabs(x.as_int());
    let b = iabs(y.as_int());
    assert(a == x.num.as_nat() && b == y.num.as_nat());
    vstd::arithmetic::mul::lemma_mul_upper_bound(
        a as int,
        ELEM_BOUND as int,
        b as int,
        ELEM_BOUND as int,
    );
    assert((ELEM_BOUND as nat) * (ELEM_BOUND as nat) <= (SCALE as nat) * prod_cap())
        by (nonlinear_arith)
        requires
            ELEM_BOUND == 1_329_227_995_784_915_872_903_807_060_280_344_576u128,
            SCALE == 1_000_000_000_000_000_000u128,
            prod_cap()
                == 2_000_000_000_000_000_000_000_000_000_000_000_000_000_000_000_000_000_000nat,
    ;
    lemma_mul_num_le(a, b, prod_cap());
    assert(prod_cap() < b256());
}

/// The running dot product of bounded elements stays bounded.
pub proof fn lemma_dot_val_bound(u: Seq<FPDecimal>, v: Seq<FPDecimal>, n: int)
    requires
        0 <= n <= u.len(),
        u.len() == v.len(),
        forall|i: int| 0 <= i < u.len() ==> bounded_elem(#[trigger] u[i]) && bounded_elem(v[i]),
    ensures
        iabs(dot_val(u, v, n)) <= n * prod_cap(),
    decreases n,
{
    if n > 0 {
        lemma_dot_val_bound(u, v, n - 1);
        lemma_prod_cap(u[n - 1], v[n - 1]);
    }
}

/// The running sum of bounded summands stays bounded.
pub proof fn lemma_sum_val_bound(u: Seq<FPDecimal>, n: int)
    requires
        0 <= n <= u.len(),
        forall|i: int| 0 <= i < u.len() ==> bounded_summand(#[trigger] u[i]),
    ensures
        iabs(sum_val(u, n)) <= n * sum_elem_cap(),
    decreases n,
{
    if n > 0 {
        lemma_sum_val_bound(u, n - 1);
    }
}

/// Sum of the element-wise products of two equal-length vectors, accumulated
/// left to right.
pub fn dot(u: &Vec<FPDecimal>, v: &Vec<FPDecimal>) -> (r: FPDecimal)
    requires
        u.len() == v.len(),
        u.len() <= LEN_BOUND,
        forall|i: int| 0 <= i < u.len() ==> bounded_elem(#[trigger] u@[i]) && bounded_elem(v@[i]),
    ensures
        r.wf(),
        r.as_int() == dot_val(u@, v@, u.len() as int),
        iabs(r.as_int()) <= (u.len() as int) * prod_cap(),
{
    let mut acc = FPDecimal::zero();
    let mut i: usize = 0;
    while i < u.len()
        invariant
            i <= u.len(),
            u.len() == v.len(),
            u.len() <= LEN_BOUND,
            forall|j: int| 0 <= j < u.len() ==> bounded_elem(#[trigger] u@[j]) && bounded_elem(
                v@[j],
            ),
            acc.wf(),
            acc.as_int() == dot_val(u@, v@, i as int),
            iabs(acc.as_int()) <= (i as int) * prod_cap(),
        decreases u.len() - i,
    {
        proof {
            lemma_prod_cap(u@[i as int], v@[i as int]);
        }
        let p = u[i].mul(v[i]);
        proof {
            assert(iabs(p.as_int()) <= prod_cap());
            assert(fits(acc.as_int() + p.as_int())) by {
                assert((i as int) * prod_cap() + prod_cap() == (i as int + 1) * prod_cap())
                    by (nonlinear_arith);
                assert((i as int + 1) * prod_cap() <= (LEN_BOUND as int) * prod_cap())
                    by (nonlinear_arith)
                    requires
                        i as int + 1 <= LEN_BOUND as int,
                        prod_cap() >= 0,
                ;
                assert((LEN_BOUND as int) * prod_cap() < b256());
            }
        }
        acc = acc.add(p);
        i += 1;
    }
    acc
}

/// Left-to-right accumulation of a vector of values.
pub fn sum(u: &Vec<FPDecimal>) -> (r: FPDecimal)
    requires
        u.len() <= LEN_BOUND,
        forall|i: int| 0 <= i < u.len() ==> bounded_summand(#[trigger] u@[i]),
    ensures
        r.wf(),
        r.as_int() == sum_val(u@, u.len() as int),
        iabs(r.as_int()) <= (u.len() as int) * sum_elem_cap(),
{
    let mut acc = FPDecimal::zero();
    let mut i: usize = 0;
    while i < u.len()
        invariant
            i <= u.len(),
            u.len() <= LEN_BOUND,
            forall|j: int| 0 <= j < u.len() ==> bounded_summand(#[trigger] u@[j]),
            acc.wf(),
            acc.as_int() == sum_val(u@, i as int),
            iabs(acc.as_int()) <= (i as int) * sum_elem_cap(),
        decreases u.len() - i,
    {
        proof {
            assert(fits(acc.as_int() + u@[i as int].as_int())) by {
                assert((i as int) * sum_elem_cap() + sum_elem_cap() == (i as int + 1)
                    * sum_elem_cap()) by (nonlinear_arith);
                assert((i as int + 1) * sum_elem_cap() <= (LEN_BOUND as int) * sum_elem_cap())
                    by (nonlinear_arith)
                    requires
                        i as int + 1 <= LEN_BOUND as int,
                        sum_elem_cap() >= 0,
                ;
                assert((LEN_BOUND as int) * sum_elem_cap() < b256());
            }
        }
        let x = u[i];
        acc = acc.add(x);
        i += 1;
    }
    acc
}

} // verus!
