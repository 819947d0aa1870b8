//! Hyperbolic functions derived from the exponential primitive: the sine and
//! cosine as half the difference and half the sum of `exp(x)` and `exp(-x)`,
//! and the tangent as their quotient.

use crate::exp::{exp_num, EXP_ARG_CAP, EXP_NUM_BOUND};
use crate::fp::{
    fp_div_val, fp_of_val, fp_recip_val, iabs, lemma_fp_mul_val_neg, lemma_mul_num_le,
    lemma_mul_num_monotone, lemma_mul_num_zero, mul_num, FPDecimal, MUL_PRECISION, SCALE,
    SCALE_SQ,
};
use crate::u256::b256;
use vstd::prelude::*;

verus! {

/// Half a unit: the magnitude of the reciprocal of two.
pub const HALF_SCALE: u128 = 500_000_000_000_000_000;

/// The sign a value's negation carries: flipped, except that a zero
/// magnitude keeps the non-negative sign.
pub open spec fn neg_sign(x: FPDecimal) -> i8 {
    if x.num.as_nat() == 0 {
        1
    } else if x.sign == 1 {
        0
    } else {
        1
    }
}

/// The exponential magnitude of a value.
pub open spec fn exp_of(x: FPDecimal) -> nat {
    exp_num(x.num.as_nat(), x.sign)
}

/// The exponential magnitude of a value's negation.
pub open spec fn exp_neg_of(x: FPDecimal) -> nat {
    exp_num(x.num.as_nat(), neg_sign(x))
}

/// The hyperbolic sine as computed: half the difference of the two
/// exponentials, in the fixed-point arithmetic itself.
pub open spec fn sinh_val(x: FPDecimal) -> int {
    fp_div_val(exp_of(x) as int - exp_neg_of(x) as int, 2 * (SCALE as int))
}

/// The hyperbolic cosine as computed: half the sum of the two exponentials.
pub open spec fn cosh_val(x: FPDecimal) -> int {
    fp_div_val(exp_of(x) as int + exp_neg_of(x) as int, 2 * (SCALE as int))
}

/// The hyperbolic tangent as computed: the quotient of the sine and cosine
/// built from one shared pair of exponentials.
pub open spec fn tanh_val(x: FPDecimal) -> int {
    fp_div_val(sinh_val(x), cosh_val(x))
}

/// Facts about dividing a bounded magnitude by two that the hyperbolic
/// functions share: the result of `_div(v, two)` has magnitude
/// `mul_num(|v|, HALF_SCALE)`, which is at most half of `|v|` rounded up,
/// and is zero when `v` is zero.
proof fn lemma_half_div(a: nat)
    requires
        a <= 2 * (EXP_NUM_BOUND as nat),
    ensures
        (SCALE_SQ as nat) / ((2 * SCALE) as nat) == HALF_SCALE as nat,
        mul_num(a, HALF_SCALE as nat) < b256(),
        mul_num(a, HALF_SCALE as nat) <= EXP_NUM_BOUND as nat,
        a == 0 ==> mul_num(a, HALF_SCALE as nat) == 0,
        a >= SCALE as nat ==> mul_num(a, HALF_SCALE as nat) >= HALF_SCALE as nat,
{
    assert((SCALE_SQ as nat) / ((2 * SCALE) as nat) == HALF_SCALE as nat) by (nonlinear_arith)
        requires
            SCALE_SQ == 1_000_000_000_000_000_000_000_000_000_000_000_000u128,
            SCALE == 1_000_000_000_000_000_000u128,
            HALF_SCALE == 500_000_000_000_000_000u128,
    ;
    vstd::arithmetic::mul::lemma_mul_upper_bound(
        a as int,
        2 * (EXP_NUM_BOUND as int),
        HALF_SCALE as int,
        HALF_SCALE as int,
    );
    lemma_mul_num_le(a, HALF_SCALE as nat, EXP_NUM_BOUND as nat);
    assert(mul_num(a, HALF_SCALE as nat) < b256()) by {
        assert((EXP_NUM_BOUND as nat) < b256());
    }
    if a == 0 {
        lemma_mul_num_zero(HALF_SCALE as nat);
    }
    if a >= SCALE as nat {
        let e = SCALE as nat;
        let m = MUL_PRECISION as nat;
        vstd::arithmetic::div_mod::lemma_div_is_ordered(e as int, a as int, e as int);
        assert(e / e == 1 && (HALF_SCALE as nat) / e == 0 && (HALF_SCALE as nat) % e
            == HALF_SCALE as nat) by (nonlinear_arith)
            requires
                e == 1_000_000_000_000_000_000nat,
                HALF_SCALE == 500_000_000_000_000_000u128,
        ;
        assert(mul_num(a, HALF_SCALE as nat) >= HALF_SCALE as nat) by (nonlinear_arith)
            requires
                mul_num(a, HALF_SCALE as nat) == (a / e) * ((HALF_SCALE as nat) / e) * e + (a % e)
                    * ((HALF_SCALE as nat) / e) + (a / e) * ((HALF_SCALE as nat) % e) + ((a % e)
                    / m) * (((HALF_SCALE as nat) % e) / m),
                (HALF_SCALE as nat) / e == 0,
                (HALF_SCALE as nat) % e == HALF_SCALE as nat,
                a / e >= 1,
                a % e >= 0,
                ((a % e) / m) * (((HALF_SCALE as nat) % e) / m) >= 0,
                e >= 1,
        ;
    }
}

impl FPDecimal {
    /// Half the difference of the exponentials of the value and its negation.
    pub fn _sinh(x: FPDecimal) -> (r: FPDecimal)
        requires
            x.wf(),
            x.num.as_nat() <= EXP_ARG_CAP as nat,
        ensures
            r.wf(),
            r.num.as_nat() <= EXP_NUM_BOUND as nat,
            r.as_int() == sinh_val(x),
            x.sign == 1 ==> r.sign == 1,
            x.num.as_nat() == 0 ==> r.num.as_nat() == 0,
    {
        let neg_x = x.negate();
        proof {
            assert(neg_x.num.as_nat() == x.num.as_nat());
            assert(neg_x.sign == neg_sign(x));
        }
        let ep = FPDecimal::_exp(x);
        let en = FPDecimal::_exp(neg_x);
        let numerator = FPDecimal::_sub(ep, en);
        let two = FPDecimal::from_u128(2 * SCALE);
        proof {
            lemma_half_div(numerator.num.as_nat());
            assert(iabs(numerator.as_int()) == numerator.num.as_nat());
            assert(numerator.as_int() == exp_of(x) as int - exp_neg_of(x) as int);
        }
        FPDecimal::_div(numerator, two)
    }

    /// Method form of `_sinh`.
    pub fn sinh(&self) -> (r: FPDecimal)
        requires
            self.wf(),
            self.num.as_nat() <= EXP_ARG_CAP as nat,
        ensures
            r.wf(),
            r.num.as_nat() <= EXP_NUM_BOUND as nat,
            r.as_int() == sinh_val(*self),
            self.sign == 1 ==> r.sign == 1,
            self.num.as_nat() == 0 ==> r.num.as_nat() == 0,
    {
        FPDecimal::_sinh(*self)
    }

    /// Half the sum of the exponentials of the value and its negation.
    pub fn _cosh(x: FPDecimal) -> (r: FPDecimal)
        requires
            x.wf(),
            x.num.as_nat() <= EXP_ARG_CAP as nat,
        ensures
            r.wf(),
            r.sign == 1,
            (HALF_SCALE as nat) <= r.num.as_nat(),
            r.num.as_nat() <= EXP_NUM_BOUND as nat,
            r.as_int() == cosh_val(x),
    {
        let neg_x = x.negate();
        proof {
            assert(neg_x.num.as_nat() == x.num.as_nat());
            assert(neg_x.sign == neg_sign(x));
        }
        let ep = FPDecimal::_exp(x);
        let en = FPDecimal::_exp(neg_x);
        let numerator = FPDecimal::_add(ep, en);
        let two = FPDecimal::from_u128(2 * SCALE);
        proof {
            // one of the two exponentials is of a non-negative value
            assert(ep.num.as_nat() + en.num.as_nat() >= SCALE as nat);
            assert(numerator.sign == 1 && numerator.num.as_nat() >= SCALE as nat);
            lemma_half_div(numerator.num.as_nat());
            assert(iabs(numerator.as_int()) == numerator.num.as_nat());
            assert(numerator.as_int() == exp_of(x) as int + exp_neg_of(x) as int);
        }
        let r = FPDecimal::_div(numerator, two);
        proof {
            assert(r.as_int() >= HALF_SCALE as nat);
        }
        r
    }

    /// Method form of `_cosh`.
    pub fn cosh(&self) -> (r: FPDecimal)
        requires
            self.wf(),
            self.num.as_nat() <= EXP_ARG_CAP as nat,
        ensures
            r.wf(),
            r.sign == 1,
            (HALF_SCALE as nat) <= r.num.as_nat(),
            r.num.as_nat() <= EXP_NUM_BOUND as nat,
            r.as_int() == cosh_val(*self),
    {
        FPDecimal::_cosh(*self)
    }

    /// The quotient of the hyperbolic sine and cosine, built from one shared
    /// pair of exponentials so that its magnitude never exceeds one.
    pub fn _tanh(x: FPDecimal) -> (r: FPDecimal)
        requires
            x.wf(),
            x.num.as_nat() <= EXP_ARG_CAP as nat,
        ensures
            r.wf(),
            r.num.as_nat() <= SCALE as nat,
            r.as_int() == tanh_val(x),
            x.sign == 1 ==> r.sign == 1,
            x.num.as_nat() == 0 ==> r.num.as_nat() == 0,
    {
        let neg_x = x.negate();
        proof {
            assert(neg_x.num.as_nat() == x.num.as_nat());
            assert(neg_x.sign == neg_sign(x));
        }
        let ep = FPDecimal::_exp(x);
        let en = FPDecimal::_exp(neg_x);
        let diff = FPDecimal::_sub(ep, en);
        let total = FPDecimal::_add(ep, en);
        let two = FPDecimal::from_u128(2 * SCALE);
        proof {
            assert(ep.num.as_nat() + en.num.as_nat() >= SCALE as nat);
            assert(total.sign == 1 && total.num.as_nat() >= SCALE as nat);
            assert(diff.num.as_nat() <= total.num.as_nat());
            lemma_half_div(diff.num.as_nat());
            lemma_half_div(total.num.as_nat());
            assert(iabs(diff.as_int()) == diff.num.as_nat());
            assert(iabs(total.as_int()) == total.num.as_nat());
        }
        let s = FPDecimal::_div(diff, two);
        let c = FPDecimal::_div(total, two);
        proof {
            assert(diff.as_int() == exp_of(x) as int - exp_neg_of(x) as int);
            assert(total.as_int() == exp_of(x) as int + exp_neg_of(x) as int);
            assert(s.as_int() == sinh_val(x));
            assert(c.as_int() == cosh_val(x));
            lemma_mul_num_monotone(diff.num.as_nat(), total.num.as_nat(), HALF_SCALE as nat);
            assert(s.num.as_nat() <= c.num.as_nat());
            assert(c.num.as_nat() >= HALF_SCALE as nat);
            let q = (SCALE_SQ as nat) / c.num.as_nat();
            vstd::arithmetic::div_mod::lemma_div_is_ordered_by_denominator(
                SCALE_SQ as int,
                HALF_SCALE as int,
                c.num.as_nat() as int,
            );
            assert(q <= (SCALE_SQ as nat) / (HALF_SCALE as nat));
            assert((SCALE_SQ as nat) / (HALF_SCALE as nat) == 2 * (SCALE as nat))
                by (nonlinear_arith)
                requires
                    SCALE_SQ == 1_000_000_000_000_000_000_000_000_000_000_000_000u128,
                    SCALE == 1_000_000_000_000_000_000u128,
                    HALF_SCALE == 500_000_000_000_000_000u128,
            ;
            vstd::arithmetic::mul::lemma_mul_upper_bound(
                s.num.as_nat() as int,
                EXP_NUM_BOUND as int,
                q as int,
                2 * (SCALE as int),
            );
            assert((EXP_NUM_BOUND as nat) * (2 * (SCALE as nat)) < (SCALE as nat) * b256())
                by (nonlinear_arith)
                requires
                    EXP_NUM_BOUND == 2_000_000_000_000_000_000_000_000u128,
                    SCALE == 1_000_000_000_000_000_000u128,
                    b256()
                        == 0x1_0000_0000_0000_0000_0000_0000_0000_0000_0000_0000_0000_0000_0000_0000_0000_0000nat,
            ;
            crate::fp::lemma_mul_num_fits(s.num.as_nat(), q);
            // the quotient of a smaller by a larger magnitude stays below one
            lemma_mul_num_monotone(s.num.as_nat(), c.num.as_nat(), q);
            vstd::arithmetic::div_mod::lemma_fundamental_div_mod(
                SCALE_SQ as int,
                c.num.as_nat() as int,
            );
            vstd::arithmetic::mul::lemma_mul_is_commutative(c.num.as_nat() as int, q as int);
            lemma_mul_num_le(c.num.as_nat(), q, SCALE as nat);
            assert(mul_num(s.num.as_nat(), q) <= SCALE as nat);
            if s.num.as_nat() == 0 {
                lemma_mul_num_zero(q);
            }
            assert(iabs(s.as_int()) == s.num.as_nat());
            assert(iabs(fp_recip_val(c.as_int())) == q);
        }
        FPDecimal::_div(s, c)
    }

    /// Method form of `_tanh`.
    pub fn tanh(&self) -> (r: FPDecimal)
        requires
            self.wf(),
            self.num.as_nat() <= EXP_ARG_CAP as nat,
        ensures
            r.wf(),
            r.num.as_nat() <= SCALE as nat,
            r.as_int() == tanh_val(*self),
            self.sign == 1 ==> r.sign == 1,
            self.num.as_nat() == 0 ==> r.num.as_nat() == 0,
    {
        FPDecimal::_tanh(*self)
    }
}

/// Under the canonical negation of the argument, the hyperbolic sine flips
/// its sign and the hyperbolic cosine is unchanged: the construction swaps
/// the two exponentials and nothing else.
pub proof fn lemma_sinh_odd_cosh_even(x: FPDecimal)
    requires
        x.wf(),
    ensures
        sinh_val(fp_of_val(-x.as_int())) == -sinh_val(x),
        cosh_val(fp_of_val(-x.as_int())) == cosh_val(x),
{
    let nx = fp_of_val(-x.as_int());
    x.num.lemma_as_nat_bound();
    crate::u256::lemma_u256_of(iabs(-x.as_int()));
    assert(nx.num.as_nat() == x.num.as_nat());
    assert(nx.sign == neg_sign(x));
    assert(neg_sign(nx) == x.sign);
    assert(exp_of(nx) == exp_neg_of(x));
    assert(exp_neg_of(nx) == exp_of(x));
    lemma_fp_mul_val_neg(
        exp_of(x) as int - exp_neg_of(x) as int,
        fp_recip_val(2 * (SCALE as int)),
    );
}

} // verus!
