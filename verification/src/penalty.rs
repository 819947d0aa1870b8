//! The score and penalty computations: how far a proposed transaction moves
//! the basket's value allocation from its target, and the multiplicative
//! factor that rewards or discourages it.

use crate::exp::EXP_ARG_CAP;
use crate::fp::{
    fp_div_val, fp_mul_val, fp_of_val, fp_recip_val, iabs, lemma_fp_of_val, lemma_mul_num_fits,
    lemma_mul_num_le, lemma_mul_num_zero, mul_num, FPDecimal, SCALE, SCALE_SQ,
};
use crate::hyper::tanh_val;
use crate::u256::b256;
use crate::vector::{
    bounded_elem, bounded_summand, dot, dot_val, prod_cap, sum, sum_elem_cap, sum_val, LEN_BOUND,
};
use vstd::prelude::*;

verus! {

/// The sum of a vector of raw target weights.
pub open spec fn sum_u32(t: Seq<u32>, n: int) -> nat
    decreases n,
{
    if n <= 0 {
        0
    } else {
        sum_u32(t, n - 1) + t[n - 1] as nat
    }
}

/// Every weight is at most the sum of all weights.
pub proof fn lemma_sum_u32_element(t: Seq<u32>, n: int, i: int)
    requires
        0 <= i < n <= t.len(),
    ensures
        t[i] as nat <= sum_u32(t, n),
    decreases n,
{
    if i < n - 1 {
        lemma_sum_u32_element(t, n - 1, i);
    }
}

/// The normalized weight of one asset: its raw weight divided by the sum of
/// all raw weights, both taken as raw magnitudes.
pub open spec fn weight_val(t: Seq<u32>, i: int) -> int {
    fp_div_val(t[i] as int, sum_u32(t, t.len() as int) as int)
}

/// The per-asset deviation that a contribution causes: how far the
/// post-transaction value of the asset sits from its target share of the
/// post-transaction total, less how far it already sat before.
pub open spec fn diff_val(
    inv: Seq<FPDecimal>,
    c: Seq<FPDecimal>,
    prices: Seq<FPDecimal>,
    t: Seq<u32>,
    i: int,
) -> int {
    let n = inv.len() as int;
    let vv = dot_val(inv, prices, n);
    let cc = dot_val(c, prices, n);
    let w = weight_val(t, i);
    let a = fp_mul_val(w, vv);
    let b = fp_mul_val(w, cc);
    let vi = fp_mul_val(inv[i].as_int(), prices[i].as_int());
    let ci = fp_mul_val(c[i].as_int(), prices[i].as_int());
    iabs((a + b) - (vi + ci)) - iabs(a - vi)
}

/// The sum of the first `k` per-asset deviations.
pub open spec fn diff_sum(
    inv: Seq<FPDecimal>,
    c: Seq<FPDecimal>,
    prices: Seq<FPDecimal>,
    t: Seq<u32>,
    k: int,
) -> int
    decreases k,
{
    if k <= 0 {
        0
    } else {
        diff_sum(inv, c, prices, t, k - 1) + diff_val(inv, c, prices, t, k - 1)
    }
}

/// The score of a transaction: the total deviation it causes, normalized by
/// its own value.
pub open spec fn score_val(
    inv: Seq<FPDecimal>,
    c: Seq<FPDecimal>,
    prices: Seq<FPDecimal>,
    t: Seq<u32>,
) -> int {
    fp_div_val(diff_sum(inv, c, prices, t, inv.len() as int), dot_val(c, prices, inv.len() as int))
}

/// The preconditions shared by the score computations: matching dimensions,
/// magnitudes small enough that no step can overflow, and a non-degenerate
/// weight vector.
pub open spec fn score_inputs_ok(
    inv: Seq<FPDecimal>,
    c: Seq<FPDecimal>,
    prices: Seq<FPDecimal>,
    t: Seq<u32>,
) -> bool {
    &&& inv.len() == c.len()
    &&& inv.len() == prices.len()
    &&& inv.len() == t.len()
    &&& inv.len() <= LEN_BOUND
    &&& forall|i: int| 0 <= i < inv.len() ==> bounded_elem(#[trigger] inv[i])
    &&& forall|i: int| 0 <= i < c.len() ==> bounded_elem(#[trigger] c[i])
    &&& forall|i: int| 0 <= i < prices.len() ==> bounded_elem(#[trigger] prices[i])
    &&& sum_u32(t, t.len() as int) >= 1
}

/// Magnitude bound on one per-asset deviation.
pub open spec fn diff_cap() -> nat {
    sum_elem_cap()
}

/// A normalized weight has magnitude at most one.
pub proof fn lemma_weight_val_bound(t: Seq<u32>, i: int)
    requires
        0 <= i < t.len(),
        sum_u32(t, t.len() as int) >= 1,
    ensures
        0 <= weight_val(t, i),
        iabs(weight_val(t, i)) <= SCALE as nat,
{
    let ti = t[i] as nat;
    let ts = sum_u32(t, t.len() as int);
    let q = (SCALE_SQ as nat) / ts;
    lemma_sum_u32_element(t, t.len() as int, i);
    vstd::arithmetic::div_mod::lemma_fundamental_div_mod(SCALE_SQ as int, ts as int);
    assert(ti * q <= (SCALE as nat) * (SCALE as nat)) by (nonlinear_arith)
        requires
            ti <= ts,
            ts * q <= SCALE_SQ as nat,
            SCALE_SQ as nat == (SCALE as nat) * (SCALE as nat),
            q >= 0,
            ti >= 0,
            ts >= 1,
    ;
    crate::fp::lemma_mul_num_le(ti, q, SCALE as nat);
}

/// A product with a weight keeps the magnitude of the other factor.
proof fn lemma_wprod_bound(w: int, vv: int)
    requires
        0 <= w <= SCALE as nat,
        iabs(vv) <= (LEN_BOUND as int) * prod_cap(),
    ensures
        iabs(fp_mul_val(w, vv)) <= (LEN_BOUND as int) * prod_cap(),
        mul_num(iabs(w), iabs(vv)) < b256(),
{
    let cap = ((LEN_BOUND as int) * prod_cap()) as nat;
    vstd::arithmetic::mul::lemma_mul_upper_bound(
        iabs(w) as int,
        SCALE as int,
        iabs(vv) as int,
        cap as int,
    );
    crate::fp::lemma_mul_num_le(iabs(w), iabs(vv), cap);
    assert(cap < b256());
}

/// The per-asset deviation vector of a proposed contribution (negated for a
/// redemption) against the inventory, prices and raw target weights.
pub fn compute_diff(
    inv: &Vec<FPDecimal>,
    c: &Vec<FPDecimal>,
    prices: &Vec<FPDecimal>,
    target: &Vec<u32>,
) -> (r: Vec<FPDecimal>)
    requires
        score_inputs_ok(inv@, c@, prices@, target@),
    ensures
        r.len() == inv.len(),
        forall|i: int|
            0 <= i < r.len() ==> (#[trigger] r@[i]).wf() && r@[i].as_int() == diff_val(
                inv@,
                c@,
                prices@,
                target@,
                i,
            ) && bounded_summand(r@[i]),
{
    let n = inv.len();
    let mut tsum: u64 = 0;
    let mut i: usize = 0;
    while i < n
        invariant
            i <= n,
            n == target.len(),
            n <= LEN_BOUND,
            tsum as nat == sum_u32(target@, i as int),
            tsum as nat <= (i as nat) * 0x1_0000_0000,
        decreases n - i,
    {
        proof {
            assert((i as nat) * 0x1_0000_0000 + 0x1_0000_0000 == (i as nat + 1) * 0x1_0000_0000)
                by (nonlinear_arith);
            assert((i as nat + 1) * 0x1_0000_0000 <= (LEN_BOUND as nat + 1) * 0x1_0000_0000)
                by (nonlinear_arith)
                requires
                    i as nat + 1 <= LEN_BOUND as nat + 1,
            ;
        }
        tsum = tsum + (target[i] as u64);
        i += 1;
    }
    let tsum_fp = FPDecimal::from_u128(tsum as u128);
    let vv = dot(inv, prices);
    let cc = dot(c, prices);
    let mut r: Vec<FPDecimal> = Vec::new();
    let mut i: usize = 0;
    while i < n
        invariant
            i <= n,
            n == inv.len(),
            score_inputs_ok(inv@, c@, prices@, target@),
            tsum as nat == sum_u32(target@, n as int),
            tsum >= 1,
            tsum_fp.wf(),
            tsum_fp.as_int() == tsum as int,
            vv.wf(),
            vv.as_int() == dot_val(inv@, prices@, n as int),
            cc.wf(),
            cc.as_int() == dot_val(c@, prices@, n as int),
            iabs(vv.as_int()) <= (LEN_BOUND as int) * prod_cap(),
            iabs(cc.as_int()) <= (LEN_BOUND as int) * prod_cap(),
            r.len() == i,
            forall|j: int|
                0 <= j < i ==> (#[trigger] r@[j]).wf() && r@[j].as_int() == diff_val(
                    inv@,
                    c@,
                    prices@,
                    target@,
                    j,
                ) && bounded_summand(r@[j]),
        decreases n - i,
    {
        let ghost gi = i as int;
        let ghost ts = sum_u32(target@, n as int);
        let ghost q = (SCALE_SQ as nat) / ts;
        proof {
            lemma_sum_u32_element(target@, n as int, gi);
            vstd::arithmetic::div_mod::lemma_fundamental_div_mod(SCALE_SQ as int, ts as int);
            assert((target@[gi] as nat) * q <= (SCALE as nat) * (SCALE as nat))
                by (nonlinear_arith)
                requires
                    (target@[gi] as nat) <= ts,
                    ts * q <= SCALE_SQ as nat,
                    SCALE_SQ as nat == (SCALE as nat) * (SCALE as nat),
                    q >= 0,
                    ts >= 1,
            ;
            crate::fp::lemma_mul_num_le((target@[gi] as nat), q, SCALE as nat);
            assert((SCALE as nat) * (SCALE as nat) < (SCALE as nat) * b256()) by (nonlinear_arith)
                requires
                    (SCALE as nat) >= 1,
                    (SCALE as nat) < b256(),
            ;
            lemma_mul_num_fits((target@[gi] as nat), q);
        }
        let w = FPDecimal::from_u32(target[i]).div(tsum_fp);
        proof {
            assert(w.as_int() == weight_val(target@, gi));
            lemma_weight_val_bound(target@, gi);
            lemma_wprod_bound(w.as_int(), vv.as_int());
            lemma_wprod_bound(w.as_int(), cc.as_int());
            assert(iabs(w.as_int()) == w.num.as_nat());
        }
        let a = w.mul(vv);
        let b = w.mul(cc);
        proof {
            crate::vector::lemma_prod_cap(inv@[gi], prices@[gi]);
            crate::vector::lemma_prod_cap(c@[gi], prices@[gi]);
        }
        let vi = inv[i].mul(prices[i]);
        let ci = c[i].mul(prices[i]);
        proof {
            let lp = (LEN_BOUND as int) * prod_cap();
            assert(lp + lp + prod_cap() + prod_cap() < b256());
        }
        let after = a.add(b);
        let before = vi.add(ci);
        let err = after.sub(before);
        let base = a.sub(vi);
        let d = err.abs().sub(base.abs());
        proof {
            assert(d.as_int() == diff_val(inv@, c@, prices@, target@, gi));
            assert(iabs(d.as_int()) <= diff_cap());
        }
        r.push(d);
        i += 1;
    }
    r
}

/// The signed score of a transaction: the summed deviation it causes,
/// divided by the value of the transaction itself.
pub fn compute_score(
    inv: &Vec<FPDecimal>,
    c: &Vec<FPDecimal>,
    prices: &Vec<FPDecimal>,
    target: &Vec<u32>,
) -> (r: FPDecimal)
    requires
        score_inputs_ok(inv@, c@, prices@, target@),
        (SCALE as nat) <= iabs(dot_val(c@, prices@, inv@.len() as int)),
    ensures
        r.wf(),
        r.as_int() == score_val(inv@, c@, prices@, target@),
{
    let n = inv.len();
    let d = compute_diff(inv, c, prices, target);
    let s = sum(&d);
    let cp = dot(c, prices);
    proof {
        lemma_sum_eq_diff_sum(inv@, c@, prices@, target@, d@, n as int);
        lemma_score_div_fits(s.as_int(), cp.as_int(), n as int);
        assert(iabs(cp.as_int()) == cp.num.as_nat());
        assert(cp.num.as_nat() != 0);
    }
    s.div(cp)
}

/// The summed deviation vector matches the spec-level running sum.
pub proof fn lemma_sum_eq_diff_sum(
    inv: Seq<FPDecimal>,
    c: Seq<FPDecimal>,
    prices: Seq<FPDecimal>,
    t: Seq<u32>,
    d: Seq<FPDecimal>,
    k: int,
)
    requires
        0 <= k <= d.len(),
        forall|i: int|
            0 <= i < d.len() ==> (#[trigger] d[i]).as_int() == diff_val(inv, c, prices, t, i),
    ensures
        sum_val(d, k) == diff_sum(inv, c, prices, t, k),
    decreases k,
{
    if k > 0 {
        lemma_sum_eq_diff_sum(inv, c, prices, t, d, k - 1);
    }
}

/// Dividing a bounded summed deviation by a transaction value of at least one
/// whole unit cannot overflow.
pub proof fn lemma_score_div_fits(s: int, cp: int, n: int)
    requires
        iabs(s) <= n * sum_elem_cap(),
        0 <= n <= LEN_BOUND,
        (SCALE as nat) <= iabs(cp),
    ensures
        mul_num(iabs(s), iabs(fp_recip_val(cp))) < b256(),
{
    let q = (SCALE_SQ as nat) / iabs(cp);
    vstd::arithmetic::div_mod::lemma_div_is_ordered_by_denominator(
        SCALE_SQ as int,
        SCALE as int,
        iabs(cp) as int,
    );
    assert(q <= (SCALE_SQ as nat) / (SCALE as nat));
    assert((SCALE_SQ as nat) / (SCALE as nat) == SCALE as nat) by (nonlinear_arith)
        requires
            SCALE_SQ == 1_000_000_000_000_000_000_000_000_000_000_000_000u128,
            SCALE == 1_000_000_000_000_000_000u128,
    ;
    assert(n * sum_elem_cap() <= (LEN_BOUND as int) * sum_elem_cap()) by (nonlinear_arith)
        requires
            n <= LEN_BOUND as int,
            sum_elem_cap() >= 0,
    ;
    vstd::arithmetic::mul::lemma_mul_upper_bound(
        iabs(s) as int,
        (LEN_BOUND as int) * sum_elem_cap(),
        q as int,
        SCALE as int,
    );
    assert(((LEN_BOUND as int) * sum_elem_cap()) * (SCALE as int) < (SCALE as int) * b256());
    lemma_mul_num_fits(iabs(s), q);
    assert(iabs(fp_recip_val(cp)) == q);
}

/// A contribution that is exactly value-proportional to the target weights
/// at the given prices causes no deviation at all: its score is exactly zero.
pub proof fn lemma_score_neutral(
    inv: Seq<FPDecimal>,
    c: Seq<FPDecimal>,
    prices: Seq<FPDecimal>,
    t: Seq<u32>,
)
    requires
        score_inputs_ok(inv, c, prices, t),
        forall|i: int|
            0 <= i < inv.len() ==> fp_mul_val((#[trigger] c[i]).as_int(), prices[i].as_int())
                == fp_mul_val(weight_val(t, i), dot_val(c, prices, inv.len() as int)),
    ensures
        score_val(inv, c, prices, t) == 0,
{
    let n = inv.len() as int;
    assert forall|i: int| 0 <= i < n implies diff_val(inv, c, prices, t, i) == 0 by {
        let w = weight_val(t, i);
        let vv = dot_val(inv, prices, n);
        let cc = dot_val(c, prices, n);
        let a = fp_mul_val(w, vv);
        let b = fp_mul_val(w, cc);
        let vi = fp_mul_val(inv[i].as_int(), prices[i].as_int());
        let ci = fp_mul_val(c[i].as_int(), prices[i].as_int());
        assert(ci == b);
        assert((a + b) - (vi + ci) == a - vi);
    }
    lemma_diff_sum_zero(inv, c, prices, t, n);
    lemma_mul_num_zero(iabs(fp_recip_val(dot_val(c, prices, n))));
}

/// The saturated ratio fed to the curve: the score magnitude divided by the
/// scale parameter, capped at ten whole units.
pub open spec fn saturated_val(mag: nat, s: nat) -> nat {
    if s <= mag / 10 {
        10 * (SCALE as nat)
    } else {
        mul_num(mag, (SCALE_SQ as nat) / s)
    }
}

/// The penalty factor as computed: one, less the positive-side amplitude
/// times the tangent of the saturated positive score, or plus the
/// negative-side amplitude times the tangent of the saturated score
/// magnitude.
pub open spec fn penalty_val(score: int, ap: int, sp: int, an: int, sn: int) -> int {
    if score >= 0 {
        SCALE as int - fp_mul_val(
            ap,
            tanh_val(fp_of_val(saturated_val(iabs(score), iabs(sp)) as int)),
        )
    } else {
        SCALE as int + fp_mul_val(
            an,
            tanh_val(fp_of_val(saturated_val(iabs(score), iabs(sn)) as int)),
        )
    }
}

/// At the neutral score the curve's value is exactly one, for every scale
/// parameter the preconditions admit: the saturated ratio of a zero score
/// is zero, the tangent of zero is zero, and nothing is added or taken.
pub proof fn lemma_penalty_val_neutral(ap: int, sp: int, an: int, sn: int)
    requires
        sp != 0,
    ensures
        penalty_val(0, ap, sp, an, sn) == SCALE as int,
{
    let e = SCALE as nat;
    vstd::arithmetic::div_mod::lemma_div_of0(10);
    assert(saturated_val(0, iabs(sp)) == mul_num(0, (SCALE_SQ as nat) / iabs(sp)));
    lemma_mul_num_zero((SCALE_SQ as nat) / iabs(sp));
    lemma_fp_of_val(0);
    let z = fp_of_val(0);
    crate::u256::lemma_u256_of(0);
    assert(z.num.as_nat() == 0 && z.sign == 1);
    crate::exp::lemma_exp_mag_zero();
    assert(crate::hyper::exp_of(z) == e);
    assert(crate::hyper::neg_sign(z) == 1);
    assert(crate::hyper::exp_neg_of(z) == e);
    // the sine of zero is zero and the cosine is one, in the arithmetic
    lemma_mul_num_zero(iabs(fp_recip_val(2 * (SCALE as int))));
    assert(crate::hyper::sinh_val(z) == 0);
    let half = (SCALE_SQ as nat) / ((2 * e) as nat);
    assert(half == 500_000_000_000_000_000nat) by (nonlinear_arith)
        requires
            half == (SCALE_SQ as nat) / ((2 * (SCALE as nat)) as nat),
            SCALE_SQ == 1_000_000_000_000_000_000_000_000_000_000_000_000u128,
            SCALE == 1_000_000_000_000_000_000u128,
    ;
    assert(mul_num(2 * e, half) == e) by (nonlinear_arith)
        requires
            mul_num(2 * e, half) == ((2 * e) / e) * (half / e) * e + ((2 * e) % e) * (half / e) + (
            (2 * e) / e) * (half % e) + (((2 * e) % e) / (crate::fp::MUL_PRECISION as nat)) * ((
            half % e) / (crate::fp::MUL_PRECISION as nat)),
            half == 500_000_000_000_000_000nat,
            e == 1_000_000_000_000_000_000nat,
            crate::fp::MUL_PRECISION == 1_000_000_000u128,
    ;
    assert(crate::hyper::cosh_val(z) == e);
    // the tangent of zero is zero, so both amplitudes multiply to nothing
    lemma_mul_num_zero(iabs(fp_recip_val(e as int)));
    assert(tanh_val(z) == 0);
    lemma_mul_num_zero(iabs(ap));
    assert(fp_mul_val(ap, 0) == 0);
}

/// Shape parameters the penalty curve accepts: non-negative magnitudes, the
/// amplitudes at most one so the factor can never turn negative, and the
/// scales non-zero because the score is divided by them.
pub open spec fn penalty_params_ok(
    a_pos: FPDecimal,
    s_pos: FPDecimal,
    a_neg: FPDecimal,
    s_neg: FPDecimal,
) -> bool {
    &&& a_pos.wf() && a_pos.sign == 1 && a_pos.num.as_nat() <= SCALE as nat
    &&& a_neg.wf() && a_neg.sign == 1 && a_neg.num.as_nat() <= SCALE as nat
    &&& s_pos.wf() && s_pos.sign == 1 && s_pos.num.as_nat() >= 1
    &&& s_neg.wf() && s_neg.sign == 1 && s_neg.num.as_nat() >= 1
}

/// The score divided by a scale parameter, saturated at ten whole units so
/// that the curve is total over every score: beyond ten scale units the
/// hyperbolic tangent is indistinguishable from its limit anyway.
fn saturated_ratio(mag: FPDecimal, s: FPDecimal) -> (r: FPDecimal)
    requires
        mag.wf(),
        mag.sign == 1,
        s.wf(),
        s.sign == 1,
        s.num.as_nat() >= 1,
    ensures
        r.wf(),
        r.sign == 1,
        r.num.as_nat() <= EXP_ARG_CAP as nat,
        r == fp_of_val(saturated_val(mag.num.as_nat(), s.num.as_nat()) as int),
        mag.num.as_nat() == 0 ==> r.num.as_nat() == 0,
{
    let (q10, _r10) = mag.num.div_rem(10);
    let ghost mn = mag.num.as_nat();
    let ghost sn = s.num.as_nat();
    if s.num.le(&q10) {
        let r = FPDecimal::from_u128(10 * SCALE);
        proof {
            lemma_fp_of_val(saturated_val(mn, sn) as int);
            r.lemma_canonical(fp_of_val(saturated_val(mn, sn) as int));
        }
        r
    } else {
        proof {
            vstd::arithmetic::div_mod::lemma_fundamental_div_mod(mn as int, 10);
            assert(mn < 10 * sn);
            let q = (SCALE_SQ as nat) / sn;
            vstd::arithmetic::div_mod::lemma_fundamental_div_mod(SCALE_SQ as int, sn as int);
            assert(mn * q <= 10 * (SCALE_SQ as nat)) by (nonlinear_arith)
                requires
                    mn < 10 * sn,
                    sn * q <= SCALE_SQ as nat,
                    q >= 0,
                    sn >= 1,
            ;
            assert(10 * (SCALE_SQ as nat) == (SCALE as nat) * ((10 * SCALE) as nat))
                by (nonlinear_arith)
                requires
                    SCALE_SQ as nat == (SCALE as nat) * (SCALE as nat),
                    SCALE == 1_000_000_000_000_000_000u128,
            ;
            crate::fp::lemma_mul_num_le(mn, q, (10 * SCALE) as nat);
            assert(((10 * SCALE) as nat) < b256());
            if mn == 0 {
                lemma_mul_num_zero(q);
            }
            assert(iabs(mag.as_int()) == mn);
            assert(iabs(fp_recip_val(s.as_int())) == q);
        }
        let r = mag.div(s);
        proof {
            assert(r.as_int() == saturated_val(mn, sn) as int);
            lemma_fp_of_val(saturated_val(mn, sn) as int);
            r.lemma_canonical(fp_of_val(saturated_val(mn, sn) as int));
        }
        r
    }
}

/// The multiplicative penalty factor for a score: one at a neutral score,
/// shrinking towards `1 - a_pos` as a positive score grows against the scale
/// `s_pos`, and growing towards `1 + a_neg` as a negative score deepens
/// against `s_neg`, through the hyperbolic tangent of the scaled score.
pub fn compute_penalty(
    score: FPDecimal,
    a_pos: FPDecimal,
    s_pos: FPDecimal,
    a_neg: FPDecimal,
    s_neg: FPDecimal,
) -> (r: FPDecimal)
    requires
        score.wf(),
        penalty_params_ok(a_pos, s_pos, a_neg, s_neg),
    ensures
        r.wf(),
        r.sign == 1,
        r.num.as_nat() <= 2 * (SCALE as nat),
        r.as_int() == penalty_val(
            score.as_int(),
            a_pos.as_int(),
            s_pos.as_int(),
            a_neg.as_int(),
            s_neg.as_int(),
        ),
        score.as_int() >= 0 ==> r.num.as_nat() <= SCALE as nat,
        score.as_int() < 0 ==> (SCALE as nat) <= r.num.as_nat(),
        score.as_int() == 0 ==> r.num.as_nat() == SCALE as nat,
{
    let magnitude = score.abs();
    if score.sign == 1 {
        let arg = saturated_ratio(magnitude, s_pos);
        let t = FPDecimal::_tanh(arg);
        proof {
            assert(magnitude.num.as_nat() == iabs(score.as_int()));
            assert(s_pos.num.as_nat() == iabs(s_pos.as_int()));
            assert(t.as_int() == tanh_val(
                fp_of_val(saturated_val(iabs(score.as_int()), iabs(s_pos.as_int())) as int),
            ));
            lemma_amplitude_product(a_pos.num.as_nat(), t.num.as_nat());
            assert(iabs(a_pos.as_int()) == a_pos.num.as_nat());
            assert(iabs(t.as_int()) == t.num.as_nat());
            if score.as_int() == 0 {
                lemma_mul_num_zero(a_pos.num.as_nat());
            }
        }
        let p = a_pos.mul(t);
        proof {
            assert(p.as_int() >= 0 && p.as_int() <= SCALE as nat);
            assert(score.as_int() == 0 ==> p.as_int() == 0);
        }
        FPDecimal::one().sub(p)
    } else {
        let arg = saturated_ratio(magnitude, s_neg);
        let t = FPDecimal::_tanh(arg);
        proof {
            assert(magnitude.num.as_nat() == iabs(score.as_int()));
            assert(s_neg.num.as_nat() == iabs(s_neg.as_int()));
            assert(t.as_int() == tanh_val(
                fp_of_val(saturated_val(iabs(score.as_int()), iabs(s_neg.as_int())) as int),
            ));
            lemma_amplitude_product(a_neg.num.as_nat(), t.num.as_nat());
            assert(iabs(a_neg.as_int()) == a_neg.num.as_nat());
            assert(iabs(t.as_int()) == t.num.as_nat());
        }
        let p = a_neg.mul(t);
        proof {
            assert(p.as_int() >= 0 && p.as_int() <= SCALE as nat);
        }
        FPDecimal::one().add(p)
    }
}

/// An amplitude of at most one keeps its product with a tangent value of at
/// most one below one.
proof fn lemma_amplitude_product(a: nat, t: nat)
    requires
        a <= SCALE as nat,
        t <= SCALE as nat,
    ensures
        mul_num(a, t) <= SCALE as nat,
        mul_num(a, t) < b256(),
{
    vstd::arithmetic::mul::lemma_mul_upper_bound(a as int, SCALE as int, t as int, SCALE as int);
    crate::fp::lemma_mul_num_le(a, t, SCALE as nat);
    assert((SCALE as nat) < b256());
}

/// A deviation vector of zeros sums to zero.
proof fn lemma_diff_sum_zero(
    inv: Seq<FPDecimal>,
    c: Seq<FPDecimal>,
    prices: Seq<FPDecimal>,
    t: Seq<u32>,
    k: int,
)
    requires
        forall|i: int| 0 <= i < k ==> diff_val(inv, c, prices, t, i) == 0,
    ensures
        diff_sum(inv, c, prices, t, k) == 0,
    decreases k,
{
    if k > 0 {
        lemma_diff_sum_zero(inv, c, prices, t, k - 1);
    }
}

} // verus!
