//! The algebraic laws of the fixed-point arithmetic, stated over the signed
//! magnitudes that every operation's contract is written in. Each law speaks
//! of arbitrary well-formed values; a caller connects it to a concrete call
//! through that call's exact `ensures`.

use crate::fp::{
    fp_div_val, fp_mul_val, iabs, lemma_mul_num_comm, lemma_mul_num_one, mul_num, FPDecimal,
    MUL_PRECISION, SCALE, SCALE_SQ,
};
use crate::u256::U256;
use crate::vector::{dot_val, sum_val};
use vstd::prelude::*;

verus! {

/// Adding a value to its negation yields zero, and every well-formed zero is
/// the one canonical structure, however it was produced.
pub proof fn lemma_add_negate_is_zero(x: FPDecimal, s: FPDecimal)
    requires
        x.wf(),
        s.wf(),
        s.as_int() == x.as_int() + (-x.as_int()),
    ensures
        s == (FPDecimal { num: U256 { lo: 0, hi: 0 }, sign: 1 }),
{
    s.lemma_canonical(FPDecimal { num: U256 { lo: 0, hi: 0 }, sign: 1 });
}

/// Multiplying by one returns the value unchanged, bit for bit.
pub proof fn lemma_mul_one_identity(x: FPDecimal, r: FPDecimal)
    requires
        x.wf(),
        r.wf(),
        r.as_int() == fp_mul_val(x.as_int(), SCALE as int),
    ensures
        r == x,
{
    lemma_mul_num_one(iabs(x.as_int()));
    r.lemma_canonical(x);
}

/// Dividing a nonzero value by itself yields exactly one whenever the
/// reciprocal of its magnitude is exact and both fractional parts align with
/// the reduced multiplication precision. Outside that set the quotient can
/// fall one unit short of one, because the reciprocal is rounded down.
pub proof fn lemma_div_self_is_one(x: FPDecimal, r: FPDecimal)
    requires
        x.wf(),
        x.num.as_nat() != 0,
        (SCALE_SQ as nat) % x.num.as_nat() == 0,
        x.num.as_nat() % (MUL_PRECISION as nat) == 0,
        ((SCALE_SQ as nat) / x.num.as_nat()) % (MUL_PRECISION as nat) == 0,
        r.wf(),
        r.as_int() == fp_div_val(x.as_int(), x.as_int()),
    ensures
        r.as_int() == SCALE as int,
{
    let e = SCALE as nat;
    let m = MUL_PRECISION as nat;
    let a = x.num.as_nat();
    let q = (SCALE_SQ as nat) / a;
    vstd::arithmetic::div_mod::lemma_fundamental_div_mod(SCALE_SQ as int, a as int);
    assert(a * q == SCALE_SQ as nat);
    let a1 = a / e;
    let a2 = a % e;
    let q1 = q / e;
    let q2 = q % e;
    vstd::arithmetic::div_mod::lemma_fundamental_div_mod(a as int, e as int);
    vstd::arithmetic::div_mod::lemma_fundamental_div_mod(q as int, e as int);
    vstd::arithmetic::div_mod::lemma_fundamental_div_mod(a2 as int, m as int);
    vstd::arithmetic::div_mod::lemma_fundamental_div_mod(q2 as int, m as int);
    vstd::arithmetic::div_mod::lemma_mod_multiples_vanish(
        (a / e) as int,
        (a % e) as int,
        m as int,
    );
    // the fractional parts are exact multiples of the reduced precision
    assert(a2 % m == 0) by (nonlinear_arith)
        requires
            a % m == 0,
            a == e * a1 + a2,
            e == m * (m as int),
            m * (a2 / m) + a2 % m == a2,
            a2 % m < m,
            m >= 1,
            a % m == (e * a1 + a2) % m,
            SCALE == 1_000_000_000_000_000_000u128,
            MUL_PRECISION == 1_000_000_000u128,
            e == SCALE as nat,
            m == MUL_PRECISION as nat,
            a1 >= 0,
    ;
    assert(q2 % m == 0) by (nonlinear_arith)
        requires
            q % m == 0,
            q == e * q1 + q2,
            e == m * (m as int),
            m * (q2 / m) + q2 % m == q2,
            q2 % m < m,
            m >= 1,
            SCALE == 1_000_000_000_000_000_000u128,
            MUL_PRECISION == 1_000_000_000u128,
            e == SCALE as nat,
            m == MUL_PRECISION as nat,
            q1 >= 0,
    ;
    let alpha = a2 / m;
    let gamma = q2 / m;
    assert(mul_num(a, q) == a1 * q1 * e + a2 * q1 + a1 * q2 + alpha * gamma);
    assert(mul_num(a, q) == e) by (nonlinear_arith)
        requires
            mul_num(a, q) == a1 * q1 * e + a2 * q1 + a1 * q2 + alpha * gamma,
            a == e * a1 + a2,
            q == e * q1 + q2,
            a2 == m * alpha,
            q2 == m * gamma,
            a * q == e * e,
            e == m * m,
            m >= 1,
            e >= 1,
            SCALE_SQ as nat == (SCALE as nat) * (SCALE as nat),
            e == SCALE as nat,
    ;
    assert(iabs(fp_div_val(x.as_int(), x.as_int())) == mul_num(a, q));
}

/// Addition is commutative: both orders give the same structure.
pub proof fn lemma_add_commutative(x: FPDecimal, y: FPDecimal, r1: FPDecimal, r2: FPDecimal)
    requires
        x.wf(),
        y.wf(),
        r1.wf(),
        r2.wf(),
        r1.as_int() == x.as_int() + y.as_int(),
        r2.as_int() == y.as_int() + x.as_int(),
    ensures
        r1 == r2,
{
    r1.lemma_canonical(r2);
}

/// Addition is associative: grouping does not change the result structure.
pub proof fn lemma_add_associative(
    x: FPDecimal,
    y: FPDecimal,
    z: FPDecimal,
    r1: FPDecimal,
    r2: FPDecimal,
)
    requires
        x.wf(),
        y.wf(),
        z.wf(),
        r1.wf(),
        r2.wf(),
        r1.as_int() == (x.as_int() + y.as_int()) + z.as_int(),
        r2.as_int() == x.as_int() + (y.as_int() + z.as_int()),
    ensures
        r1 == r2,
{
    r1.lemma_canonical(r2);
}

/// Multiplication is commutative: both orders give the same structure.
pub proof fn lemma_mul_commutative(x: FPDecimal, y: FPDecimal, r1: FPDecimal, r2: FPDecimal)
    requires
        x.wf(),
        y.wf(),
        r1.wf(),
        r2.wf(),
        r1.as_int() == fp_mul_val(x.as_int(), y.as_int()),
        r2.as_int() == fp_mul_val(y.as_int(), x.as_int()),
    ensures
        r1 == r2,
{
    lemma_mul_num_comm(iabs(x.as_int()), iabs(y.as_int()));
    r1.lemma_canonical(r2);
}

/// The dot product of two pairs is the sum of the two element products.
pub proof fn lemma_dot_pair(u: Seq<FPDecimal>, v: Seq<FPDecimal>)
    requires
        u.len() == 2,
        v.len() == 2,
    ensures
        dot_val(u, v, 2) == fp_mul_val(u[0].as_int(), v[0].as_int()) + fp_mul_val(
            u[1].as_int(),
            v[1].as_int(),
        ),
{
    assert(dot_val(u, v, 0) == 0);
    assert(dot_val(u, v, 1) == dot_val(u, v, 0) + fp_mul_val(u[0].as_int(), v[0].as_int()));
    assert(dot_val(u, v, 2) == dot_val(u, v, 1) + fp_mul_val(u[1].as_int(), v[1].as_int()));
}

/// The sum of a triple is the sum of its three elements.
pub proof fn lemma_sum_triple(u: Seq<FPDecimal>)
    requires
        u.len() == 3,
    ensures
        sum_val(u, 3) == u[0].as_int() + u[1].as_int() + u[2].as_int(),
{
    assert(sum_val(u, 0) == 0);
    assert(sum_val(u, 1) == sum_val(u, 0) + u[0].as_int());
    assert(sum_val(u, 2) == sum_val(u, 1) + u[1].as_int());
    assert(sum_val(u, 3) == sum_val(u, 2) + u[2].as_int());
}

} // verus!
