//! The exponential primitive behind the penalty curve's hyperbolic functions.
//!
//! `_exp` is deterministic and total over the domain the penalty curve
//! exercises: the whole-unit part of the argument selects a tabulated power,
//! and the fractional part is summed as a truncated series. Negative
//! arguments go through the reciprocal. The contract pins the result to
//! `exp_num`, the spec-level mirror of this construction; the tabulated
//! digits themselves are an implementation choice that the mirror fixes.

use crate::fp::{
    lemma_mul_num_fits, lemma_mul_num_le, lemma_mul_num_zero, mul_num, FPDecimal, MUL_PRECISION,
    SCALE, SCALE_SQ,
};
use crate::u256::{b128, b256, U256};
use vstd::prelude::*;

verus! {

/// The largest magnitude `_exp` accepts: eleven whole units.
pub const EXP_ARG_CAP: u128 = 11_000_000_000_000_000_000;

/// A magnitude bound on every value `_exp` returns.
pub const EXP_NUM_BOUND: u128 = 2_000_000_000_000_000_000_000_000;

/// The tabulated whole-unit power for a given exponent; exponents past
/// eleven take the last entry, which the argument cap keeps unreachable.
pub open spec fn exp_whole_num(n: nat) -> nat {
    if n == 0 {
        1_000_000_000_000_000_000nat
    } else if n == 1 {
        2_718_281_828_459_045_235nat
    } else if n == 2 {
        7_389_056_098_930_650_227nat
    } else if n == 3 {
        20_085_536_923_187_667_741nat
    } else if n == 4 {
        54_598_150_033_144_239_078nat
    } else if n == 5 {
        148_413_159_102_576_603_421nat
    } else if n == 6 {
        403_428_793_492_735_122_608nat
    } else if n == 7 {
        1_096_633_158_428_458_599_264nat
    } else if n == 8 {
        2_980_957_987_041_728_274_744nat
    } else if n == 9 {
        8_103_083_927_575_384_007_710nat
    } else if n == 10 {
        22_026_465_794_806_716_516_958nat
    } else {
        59_874_141_715_197_818_455_326nat
    }
}

/// The `k`-th term of the truncated series for the exponential of the
/// fractional magnitude `f`: the previous term times `f`, divided by `k`,
/// in the fixed-point arithmetic itself.
pub open spec fn exp_series_term(f: nat, k: nat) -> nat
    decreases k,
{
    if k == 0 {
        SCALE as nat
    } else {
        mul_num(
            mul_num(exp_series_term(f, (k - 1) as nat), f),
            (SCALE_SQ as nat) / (k * (SCALE as nat)),
        )
    }
}

/// The truncated series for the exponential of a fractional magnitude,
/// summed through its first `k` terms after the leading one.
pub open spec fn exp_series_sum(f: nat, k: nat) -> nat
    decreases k,
{
    if k == 0 {
        SCALE as nat
    } else {
        exp_series_sum(f, (k - 1) as nat) + exp_series_term(f, k)
    }
}

/// The exponential magnitude of a non-negative argument magnitude: the
/// tabulated whole-unit power times the twenty-term series of the fraction.
pub open spec fn exp_mag(m: nat) -> nat {
    mul_num(exp_whole_num(m / (SCALE as nat)), exp_series_sum(m % (SCALE as nat), 20))
}

/// The exponential magnitude of a signed argument: the reciprocal is taken
/// for a negative sign.
pub open spec fn exp_num(m: nat, sign: i8) -> nat {
    if sign == 1 {
        exp_mag(m)
    } else {
        (SCALE_SQ as nat) / exp_mag(m)
    }
}

/// Tabulated powers of the natural base, scaled by `SCALE`, for whole-unit
/// exponents zero through eleven.
fn exp_whole(n: u128) -> (r: FPDecimal)
    requires
        n <= 11,
    ensures
        r.wf(),
        r.sign == 1,
        (SCALE as nat) <= r.num.as_nat(),
        r.num.as_nat() <= 60_000_000_000_000_000_000_000nat,
        r.num.as_nat() == exp_whole_num(n as nat),
        n == 0 ==> r.num.as_nat() == SCALE as nat,
{
    let num: u128 = if n == 0 {
        1_000_000_000_000_000_000
    } else if n == 1 {
        2_718_281_828_459_045_235
    } else if n == 2 {
        7_389_056_098_930_650_227
    } else if n == 3 {
        20_085_536_923_187_667_741
    } else if n == 4 {
        54_598_150_033_144_239_078
    } else if n == 5 {
        148_413_159_102_576_603_421
    } else if n == 6 {
        403_428_793_492_735_122_608
    } else if n == 7 {
        1_096_633_158_428_458_599_264
    } else if n == 8 {
        2_980_957_987_041_728_274_744
    } else if n == 9 {
        8_103_083_927_575_384_007_710
    } else if n == 10 {
        22_026_465_794_806_716_516_958
    } else {
        59_874_141_715_197_818_455_326
    };
    FPDecimal { num: U256::from_u128(num), sign: 1 }
}

/// The series for the exponential of a fractional magnitude, truncated after
/// twenty terms: each term is the previous one times the fraction, divided by
/// the term index.
fn exp_frac(f2: u128) -> (r: FPDecimal)
    requires
        f2 < SCALE,
    ensures
        r.wf(),
        r.sign == 1,
        (SCALE as nat) <= r.num.as_nat(),
        r.num.as_nat() <= 21 * (SCALE as nat),
        r.num.as_nat() == exp_series_sum(f2 as nat, 20),
        f2 == 0 ==> r.num.as_nat() == SCALE as nat,
{
    let fr = FPDecimal::from_u128(f2);
    let mut term = FPDecimal::one();
    let mut acc = FPDecimal::one();
    let mut k: u128 = 1;
    while k <= 20
        invariant
            1 <= k <= 21,
            f2 < SCALE,
            fr.wf(),
            fr.sign == 1,
            fr.num.as_nat() == f2 as nat,
            term.wf(),
            term.sign == 1,
            term.num.as_nat() <= SCALE as nat,
            term.num.as_nat() == exp_series_term(f2 as nat, (k - 1) as nat),
            acc.wf(),
            acc.sign == 1,
            (SCALE as nat) <= acc.num.as_nat(),
            acc.num.as_nat() <= (k as nat) * (SCALE as nat),
            acc.num.as_nat() == exp_series_sum(f2 as nat, (k - 1) as nat),
            f2 == 0 ==> acc.num.as_nat() == SCALE as nat,
            f2 == 0 && k > 1 ==> term.num.as_nat() == 0,
        decreases 21 - k,
    {
        let kfp = FPDecimal::from_u128(k * SCALE);
        proof {
            let e = SCALE as nat;
            vstd::arithmetic::mul::lemma_mul_upper_bound(
                term.num.as_nat() as int,
                e as int,
                f2 as int,
                e as int,
            );
            assert((SCALE as nat) * (SCALE as nat) < (SCALE as nat) * b256()) by (nonlinear_arith)
                requires
                    b256() > SCALE as nat,
                    (SCALE as nat) >= 1,
            ;
            lemma_mul_num_fits(term.num.as_nat(), f2 as nat);
            lemma_mul_num_le(term.num.as_nat(), f2 as nat, SCALE as nat);
            if f2 == 0 {
                lemma_mul_num_zero(term.num.as_nat());
            }
        }
        let t1 = term.mul(fr);
        proof {
            assert(t1.sign == 1 && t1.num.as_nat() <= SCALE as nat);
            // dividing by the term index keeps the magnitude bounded by one
            let e = SCALE as nat;
            let q = (SCALE_SQ as nat) / (kfp.num.as_nat());
            vstd::arithmetic::div_mod::lemma_div_is_ordered_by_denominator(
                SCALE_SQ as int,
                e as int,
                kfp.num.as_nat() as int,
            );
            assert(q <= e);
            vstd::arithmetic::mul::lemma_mul_upper_bound(
                t1.num.as_nat() as int,
                e as int,
                q as int,
                e as int,
            );
            assert((SCALE as nat) * (SCALE as nat) < (SCALE as nat) * b256()) by (nonlinear_arith)
                requires
                    b256() > SCALE as nat,
                    (SCALE as nat) >= 1,
            ;
            lemma_mul_num_fits(t1.num.as_nat(), q);
            lemma_mul_num_le(t1.num.as_nat(), q, SCALE as nat);
            if f2 == 0 {
                lemma_mul_num_zero(q);
            }
        }
        term = t1.div(kfp);
        proof {
            assert(term.sign == 1 && term.num.as_nat() <= SCALE as nat);
            assert(exp_series_term(f2 as nat, k as nat) == mul_num(
                mul_num(exp_series_term(f2 as nat, (k - 1) as nat), f2 as nat),
                (SCALE_SQ as nat) / ((k as nat) * (SCALE as nat)),
            ));
            assert(kfp.num.as_nat() == (k as nat) * (SCALE as nat));
            assert(term.num.as_nat() == exp_series_term(f2 as nat, k as nat));
            assert(exp_series_sum(f2 as nat, k as nat) == exp_series_sum(f2 as nat, (k - 1) as nat)
                + exp_series_term(f2 as nat, k as nat));
            assert(acc.as_int() + term.as_int() <= (k as nat + 1) * (SCALE as nat))
                by (nonlinear_arith)
                requires
                    acc.as_int() <= (k as nat) * (SCALE as nat),
                    term.as_int() <= SCALE as nat,
            ;
            acc.num.lemma_as_nat_bound();
        }
        acc = acc.add(term);
        k += 1;
    }
    acc
}

impl FPDecimal {
    /// The exponential of a signed value, from the tabulated whole-unit part
    /// and the truncated series for the fraction; a negative argument takes
    /// the reciprocal of the positive result.
    pub fn _exp(x: FPDecimal) -> (r: FPDecimal)
        requires
            x.wf(),
            x.num.as_nat() <= EXP_ARG_CAP as nat,
        ensures
            r.wf(),
            r.sign == 1,
            1 <= r.num.as_nat(),
            r.num.as_nat() <= EXP_NUM_BOUND as nat,
            x.sign == 1 ==> (SCALE as nat) <= r.num.as_nat(),
            x.sign == 0 ==> r.num.as_nat() <= SCALE as nat,
            x.num.as_nat() == 0 ==> r.num.as_nat() == SCALE as nat,
            r.num.as_nat() == exp_num(x.num.as_nat(), x.sign),
    {
        proof {
            assert(x.num.hi == 0) by (nonlinear_arith)
                requires
                    x.num.as_nat() == x.num.lo as nat + x.num.hi as nat * b128(),
                    x.num.as_nat() <= EXP_ARG_CAP as nat,
                    EXP_ARG_CAP < b128(),
                    b128() == 0x1_0000_0000_0000_0000_0000_0000_0000_0000nat,
            ;
        }
        let mag = x.num.lo;
        let n = mag / SCALE;
        let f2 = mag % SCALE;
        proof {
            assert(n <= 11) by (nonlinear_arith)
                requires
                    n == mag / SCALE,
                    mag <= EXP_ARG_CAP,
                    EXP_ARG_CAP == 11_000_000_000_000_000_000u128,
                    SCALE == 1_000_000_000_000_000_000u128,
            ;
        }
        let ip = exp_whole(n);
        let fr = exp_frac(f2);
        proof {
            let a = ip.num.as_nat();
            let b = fr.num.as_nat();
            let e = SCALE as nat;
            vstd::arithmetic::mul::lemma_mul_upper_bound(
                a as int,
                60_000_000_000_000_000_000_000,
                b as int,
                21 * (e as int),
            );
            assert(60_000_000_000_000_000_000_000 * (21 * (e as int)) <= (e as int) * (
            EXP_NUM_BOUND as int));
            assert((e as nat) * (EXP_NUM_BOUND as nat) < (SCALE as nat) * b256())
                by (nonlinear_arith)
                requires
                    e == SCALE as nat,
                    EXP_NUM_BOUND < b256(),
                    (SCALE as nat) >= 1,
                    e >= 1,
            ;
            lemma_mul_num_fits(a, b);
            lemma_mul_num_le(a, b, EXP_NUM_BOUND as nat);
            // the product of two values at least one is at least one
            vstd::arithmetic::div_mod::lemma_div_is_ordered(e as int, a as int, e as int);
            vstd::arithmetic::div_mod::lemma_div_is_ordered(e as int, b as int, e as int);
            assert(e / e == 1) by (nonlinear_arith)
                requires
                    e == 1_000_000_000_000_000_000nat,
            ;
            assert(mul_num(a, b) >= e) by (nonlinear_arith)
                requires
                    mul_num(a, b) == (a / e) * (b / e) * e + (a % e) * (b / e) + (a / e) * (b % e)
                        + ((a % e) / (MUL_PRECISION as nat)) * ((b % e) / (MUL_PRECISION as nat)),
                    a / e >= 1,
                    b / e >= 1,
                    a % e >= 0,
                    b % e >= 0,
                    e >= 1,
            ;
            if x.num.as_nat() == 0 {
                assert(n == 0 && f2 == 0);
                assert(a == e && b == e);
                assert(e / e == 1 && e % e == 0) by (nonlinear_arith)
                    requires
                        e == 1_000_000_000_000_000_000nat,
                ;
                vstd::arithmetic::div_mod::lemma_div_of0(MUL_PRECISION as int);
                assert(mul_num(a, b) == 1 * 1 * e + 0nat * 1 + 1 * 0nat + (0nat / (
                MUL_PRECISION as nat)) * (0nat / (MUL_PRECISION as nat)));
                assert(mul_num(a, b) == e);
            }
        }
        let p = ip.mul(fr);
        proof {
            assert(p.as_int() == mul_num(ip.num.as_nat(), fr.num.as_nat()));
            assert(p.sign == 1 && p.num.as_nat() == mul_num(ip.num.as_nat(), fr.num.as_nat()));
            assert(n as nat == x.num.as_nat() / (SCALE as nat));
            assert(f2 as nat == x.num.as_nat() % (SCALE as nat));
            assert(p.num.as_nat() == exp_mag(x.num.as_nat()));
        }
        if x.sign == 1 {
            p
        } else {
            proof {
                vstd::arithmetic::div_mod::lemma_fundamental_div_mod(
                    SCALE_SQ as int,
                    p.num.as_nat() as int,
                );
                vstd::arithmetic::div_mod::lemma_mod_division_less_than_divisor(
                    SCALE_SQ as int,
                    p.num.as_nat() as int,
                );
            }
            let r = FPDecimal::reciprocal(p);
            proof {
                let pn = p.num.as_nat();
                let q = (SCALE_SQ as nat) / pn;
                vstd::arithmetic::div_mod::lemma_div_is_ordered_by_denominator(
                    SCALE_SQ as int,
                    SCALE as int,
                    pn as int,
                );
                assert(q <= SCALE as nat);
                assert(q >= 1) by (nonlinear_arith)
                    requires
                        q == (SCALE_SQ as nat) / pn,
                        pn <= EXP_NUM_BOUND as nat,
                        pn >= 1,
                        pn * ((SCALE_SQ as nat) / pn) + (SCALE_SQ as nat) % pn == SCALE_SQ as nat,
                        (SCALE_SQ as nat) % pn < pn,
                        SCALE_SQ == 1_000_000_000_000_000_000_000_000_000_000_000_000u128,
                        EXP_NUM_BOUND == 2_000_000_000_000_000_000_000_000u128,
                ;
            }
            r
        }
    }
}

/// With a zero fraction, every series term after the leading one vanishes
/// and the series is exactly one.
pub proof fn lemma_exp_series_zero(k: nat)
    ensures
        exp_series_sum(0, k) == SCALE as nat,
        k >= 1 ==> exp_series_term(0, k) == 0,
    decreases k,
{
    if k >= 1 {
        lemma_exp_series_zero((k - 1) as nat);
        lemma_mul_num_zero(exp_series_term(0, (k - 1) as nat));
        lemma_mul_num_zero((SCALE_SQ as nat) / (k * (SCALE as nat)));
    }
}

/// The exponential of a zero magnitude is exactly one.
pub proof fn lemma_exp_mag_zero()
    ensures
        exp_mag(0) == SCALE as nat,
{
    vstd::arithmetic::div_mod::lemma_div_of0(SCALE as int);
    vstd::arithmetic::div_mod::lemma_small_mod(0, SCALE as nat);
    lemma_exp_series_zero(20);
    crate::fp::lemma_mul_num_one(SCALE as nat);
}

/// The tabulated whole-unit powers increase with the exponent.
pub proof fn lemma_exp_whole_monotone(n1: nat, n2: nat)
    requires
        n1 <= n2,
    ensures
        exp_whole_num(n1) <= exp_whole_num(n2),
{
}

/// A larger fraction never gives a smaller series term.
pub proof fn lemma_exp_series_term_monotone(f1: nat, f2: nat, k: nat)
    requires
        f1 <= f2,
    ensures
        exp_series_term(f1, k) <= exp_series_term(f2, k),
    decreases k,
{
    if k > 0 {
        lemma_exp_series_term_monotone(f1, f2, (k - 1) as nat);
        let t1 = exp_series_term(f1, (k - 1) as nat);
        let t2 = exp_series_term(f2, (k - 1) as nat);
        let q = (SCALE_SQ as nat) / (k * (SCALE as nat));
        crate::fp::lemma_mul_num_monotone(t1, t2, f1);
        crate::fp::lemma_mul_num_comm(t2, f1);
        crate::fp::lemma_mul_num_monotone(f1, f2, t2);
        crate::fp::lemma_mul_num_comm(f2, t2);
        crate::fp::lemma_mul_num_monotone(mul_num(t1, f1), mul_num(t2, f2), q);
    }
}

/// A larger fraction never gives a smaller series sum.
pub proof fn lemma_exp_series_sum_monotone(f1: nat, f2: nat, k: nat)
    requires
        f1 <= f2,
    ensures
        exp_series_sum(f1, k) <= exp_series_sum(f2, k),
    decreases k,
{
    if k > 0 {
        lemma_exp_series_sum_monotone(f1, f2, (k - 1) as nat);
        lemma_exp_series_term_monotone(f1, f2, k);
    }
}

/// Within one whole-unit band the exponential magnitude is monotone: a
/// larger argument never gives a smaller result. Across band boundaries the
/// tabulated whole-unit factors themselves are monotone.
pub proof fn lemma_exp_mag_monotone_in_band(m1: nat, m2: nat)
    requires
        m1 <= m2,
        m1 / (SCALE as nat) == m2 / (SCALE as nat),
    ensures
        exp_mag(m1) <= exp_mag(m2),
{
    let e = SCALE as nat;
    vstd::arithmetic::div_mod::lemma_fundamental_div_mod(m1 as int, e as int);
    vstd::arithmetic::div_mod::lemma_fundamental_div_mod(m2 as int, e as int);
    assert(m1 % e <= m2 % e);
    lemma_exp_series_sum_monotone(m1 % e, m2 % e, 20);
    let t = exp_whole_num(m1 / e);
    crate::fp::lemma_mul_num_comm(t, exp_series_sum(m1 % e, 20));
    crate::fp::lemma_mul_num_monotone(
        exp_series_sum(m1 % e, 20),
        exp_series_sum(m2 % e, 20),
        t,
    );
    crate::fp::lemma_mul_num_comm(exp_series_sum(m2 % e, 20), t);
}

} // verus!
