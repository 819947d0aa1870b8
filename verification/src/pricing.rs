//! The pricing entry points: issuing basket tokens for a contribution, and
//! redeeming them pro-rata or against a proposed weight vector.

use crate::error::Error;
use crate::fp::{
    fp_div_val, fp_mul_val, fp_of_val, fp_recip_val, iabs, lemma_fp_of_val, lemma_mul_num_comm,
    lemma_mul_num_monotone, lemma_mul_num_one, mul_num, FPDecimal, SCALE, SCALE_SQ,
};
use crate::penalty::{
    compute_diff, compute_penalty, compute_score, penalty_params_ok, penalty_val, score_val,
    sum_u32,
};
use crate::u256::{b128, b256, mul_u128, u256_of, U256};
use crate::util::{fpdec_to_int, int_to_fpdec};
use crate::vector::{bounded_elem, dot, dot_val, ELEM_BOUND, LEN_BOUND};
use vstd::prelude::*;

verus! {

/// Largest raw integer amount the pricing entry points accept, for holdings,
/// contributions and token supply alike.
pub const AMOUNT_BOUND: u128 = 1_000_000_000_000_000_000;

/// The fixed-point value of a raw integer amount.
pub open spec fn fp_scaled(a: u128) -> FPDecimal {
    FPDecimal { num: u256_of(a as nat * SCALE as nat), sign: 1 }
}

/// A sequence of raw integer amounts as fixed-point values.
pub open spec fn amounts_fp(s: Seq<u128>) -> Seq<FPDecimal> {
    Seq::new(s.len(), |i: int| fp_scaled(s[i]))
}

/// The scaled value of a raw amount is what its fixed-point form represents.
pub proof fn lemma_fp_scaled(a: u128)
    requires
        a <= AMOUNT_BOUND,
    ensures
        fp_scaled(a).wf(),
        fp_scaled(a).sign == 1,
        fp_scaled(a).as_int() == a as int * SCALE as int,
        fp_scaled(a).num.as_nat() == a as nat * SCALE as nat,
        bounded_elem(fp_scaled(a)),
{
    vstd::arithmetic::mul::lemma_mul_upper_bound(
        a as int,
        AMOUNT_BOUND as int,
        SCALE as int,
        SCALE as int,
    );
    crate::u256::lemma_u256_of(a as nat * SCALE as nat);
    assert(a as nat * SCALE as nat <= ELEM_BOUND as nat);
}

/// A dot product of non-negative values is non-negative.
pub proof fn lemma_dot_val_nonneg(u: Seq<FPDecimal>, v: Seq<FPDecimal>, n: int)
    requires
        n <= u.len(),
        u.len() == v.len(),
        forall|i: int| 0 <= i < u.len() ==> (#[trigger] u[i]).as_int() >= 0,
        forall|i: int| 0 <= i < v.len() ==> (#[trigger] v[i]).as_int() >= 0,
    ensures
        dot_val(u, v, n) >= 0,
    decreases n,
{
    if n > 0 {
        lemma_dot_val_nonneg(u, v, n - 1);
    }
}

/// The mint subtotal when the penalty factor is exactly one: the contribution
/// value divided by the inventory value, times the current token supply.
pub open spec fn mint_unpenalized_subtotal(cval: int, vval: int, supply: u128) -> nat {
    mul_num(
        mul_num(iabs(cval), (SCALE_SQ as nat) / iabs(vval)),
        supply as nat * (SCALE as nat),
    )
}

/// The exact mint subtotal: the penalty factor of the contribution's score,
/// times the contribution value, divided by the inventory value, times the
/// supply, each step in the fixed-point arithmetic itself.
pub open spec fn mint_subtotal(
    inv: Seq<u128>,
    c: Seq<u128>,
    prices: Seq<FPDecimal>,
    target: Seq<u32>,
    supply: u128,
    a_pos: FPDecimal,
    s_pos: FPDecimal,
    a_neg: FPDecimal,
    s_neg: FPDecimal,
) -> nat {
    let n = inv.len() as int;
    let cval = dot_val(amounts_fp(c), prices, n);
    let vval = dot_val(amounts_fp(inv), prices, n);
    let pen = penalty_val(
        score_val(amounts_fp(inv), amounts_fp(c), prices, target),
        a_pos.as_int(),
        s_pos.as_int(),
        a_neg.as_int(),
        s_neg.as_int(),
    );
    mul_num(
        mul_num(mul_num(iabs(pen), iabs(cval)), (SCALE_SQ as nat) / iabs(vval)),
        supply as nat * (SCALE as nat),
    )
}

/// A neutral score prices exactly as the unpenalized computation: the
/// curve's factor is one, and multiplying by one is exact.
pub proof fn lemma_mint_subtotal_neutral(
    inv: Seq<u128>,
    c: Seq<u128>,
    prices: Seq<FPDecimal>,
    target: Seq<u32>,
    supply: u128,
    a_pos: FPDecimal,
    s_pos: FPDecimal,
    a_neg: FPDecimal,
    s_neg: FPDecimal,
)
    requires
        score_val(amounts_fp(inv), amounts_fp(c), prices, target) == 0,
        penalty_params_ok(a_pos, s_pos, a_neg, s_neg),
    ensures
        mint_subtotal(inv, c, prices, target, supply, a_pos, s_pos, a_neg, s_neg)
            == mint_unpenalized_subtotal(
            dot_val(amounts_fp(c), prices, inv.len() as int),
            dot_val(amounts_fp(inv), prices, inv.len() as int),
            supply,
        ),
{
    crate::penalty::lemma_penalty_val_neutral(
        a_pos.as_int(),
        s_pos.as_int(),
        a_neg.as_int(),
        s_neg.as_int(),
    );
    let cval = dot_val(amounts_fp(c), prices, inv.len() as int);
    lemma_mul_num_comm(SCALE as nat, iabs(cval));
    lemma_mul_num_one(iabs(cval));
}

/// The mint product chain stays representable even at the largest penalty
/// factor the curve can produce.
pub open spec fn mint_chain_ok(cval: int, vval: int, supply: u128) -> bool {
    let t1b = mul_num(2 * (SCALE as nat), iabs(cval));
    let t2b = mul_num(t1b, (SCALE_SQ as nat) / iabs(vval));
    let t3b = mul_num(t2b, supply as nat * (SCALE as nat));
    &&& t1b < b256()
    &&& t2b < b256()
    &&& t3b < b256()
    &&& t3b / (SCALE as nat) < b128()
}

/// The number of new basket tokens a staged contribution buys: the
/// contribution's share of the basket's value, scaled by the supply and by
/// the penalty factor of its score, truncated to whole tokens with the
/// fraction kept by the basket. Rejected only when the result falls below
/// the caller's stated minimum.
#[verifier::rlimit(30)]
pub fn compute_mint(
    inv_amounts: &Vec<u128>,
    asset_amounts: &Vec<u128>,
    prices: &Vec<FPDecimal>,
    target: &Vec<u32>,
    supply: u128,
    min_tokens: &Option<u128>,
    a_pos: FPDecimal,
    s_pos: FPDecimal,
    a_neg: FPDecimal,
    s_neg: FPDecimal,
) -> (res: Result<(u128, FPDecimal), Error>)
    requires
        inv_amounts.len() == asset_amounts.len(),
        inv_amounts.len() == prices.len(),
        inv_amounts.len() == target.len(),
        inv_amounts.len() <= LEN_BOUND,
        forall|i: int| 0 <= i < inv_amounts.len() ==> #[trigger] inv_amounts@[i] <= AMOUNT_BOUND,
        forall|i: int| 0 <= i < asset_amounts.len() ==> #[trigger] asset_amounts@[i]
            <= AMOUNT_BOUND,
        forall|i: int|
            0 <= i < prices.len() ==> bounded_elem(#[trigger] prices@[i]) && prices@[i].sign == 1,
        sum_u32(target@, target.len() as int) >= 1,
        supply <= AMOUNT_BOUND,
        (SCALE as nat) <= iabs(
            dot_val(amounts_fp(asset_amounts@), prices@, inv_amounts.len() as int),
        ),
        (SCALE as nat) <= iabs(dot_val(amounts_fp(inv_amounts@), prices@, inv_amounts.len() as int)),
        mint_chain_ok(
            dot_val(amounts_fp(asset_amounts@), prices@, inv_amounts.len() as int),
            dot_val(amounts_fp(inv_amounts@), prices@, inv_amounts.len() as int),
            supply,
        ),
        penalty_params_ok(a_pos, s_pos, a_neg, s_neg),
    ensures
        match res {
            Ok((total, roundoff)) => {
                &&& roundoff.wf()
                &&& roundoff.sign == 1
                &&& roundoff.num.as_nat() < SCALE as nat
                &&& total as nat == mint_subtotal(
                    inv_amounts@,
                    asset_amounts@,
                    prices@,
                    target@,
                    supply,
                    a_pos,
                    s_pos,
                    a_neg,
                    s_neg,
                ) / (SCALE as nat)
                &&& roundoff.num.as_nat() == mint_subtotal(
                    inv_amounts@,
                    asset_amounts@,
                    prices@,
                    target@,
                    supply,
                    a_pos,
                    s_pos,
                    a_neg,
                    s_neg,
                ) % (SCALE as nat)
                &&& (min_tokens matches Some(m) ==> total >= *m)
                &&& (score_val(amounts_fp(inv_amounts@), amounts_fp(asset_amounts@), prices@,
                target@) >= 0 ==> total as nat <= mint_unpenalized_subtotal(
                    dot_val(amounts_fp(asset_amounts@), prices@, inv_amounts.len() as int),
                    dot_val(amounts_fp(inv_amounts@), prices@, inv_amounts.len() as int),
                    supply,
                ) / (SCALE as nat))
            },
            Err(e) => {
                &&& (e matches Error::BelowMinTokens { computed, minimum } && computed < minimum)
                &&& min_tokens == Some(
                    match e {
                        Error::BelowMinTokens { minimum, .. } => minimum,
                        _ => 0,
                    },
                )
            },
        },
        res is Err <==> (min_tokens matches Some(m) && mint_subtotal(
            inv_amounts@,
            asset_amounts@,
            prices@,
            target@,
            supply,
            a_pos,
            s_pos,
            a_neg,
            s_neg,
        ) / (SCALE as nat) < *m),
{
    let n = inv_amounts.len();
    let mut inv_fp: Vec<FPDecimal> = Vec::new();
    let mut i: usize = 0;
    while i < n
        invariant
            i <= n,
            n == inv_amounts.len(),
            forall|j: int| 0 <= j < n ==> #[trigger] inv_amounts@[j] <= AMOUNT_BOUND,
            inv_fp.len() == i,
            forall|j: int| 0 <= j < i ==> #[trigger] inv_fp@[j] == fp_scaled(inv_amounts@[j]),
        decreases n - i,
    {
        let v = int_to_fpdec(inv_amounts[i]);
        proof {
            lemma_fp_scaled(inv_amounts@[i as int]);
            v.lemma_canonical(fp_scaled(inv_amounts@[i as int]));
        }
        inv_fp.push(v);
        i += 1;
    }
    let mut c_fp: Vec<FPDecimal> = Vec::new();
    let mut i: usize = 0;
    while i < n
        invariant
            i <= n,
            n == asset_amounts.len(),
            forall|j: int| 0 <= j < n ==> #[trigger] asset_amounts@[j] <= AMOUNT_BOUND,
            c_fp.len() == i,
            forall|j: int| 0 <= j < i ==> #[trigger] c_fp@[j] == fp_scaled(asset_amounts@[j]),
        decreases n - i,
    {
        let v = int_to_fpdec(asset_amounts[i]);
        proof {
            lemma_fp_scaled(asset_amounts@[i as int]);
            v.lemma_canonical(fp_scaled(asset_amounts@[i as int]));
        }
        c_fp.push(v);
        i += 1;
    }
    proof {
        assert(inv_fp@ =~= amounts_fp(inv_amounts@));
        assert(c_fp@ =~= amounts_fp(asset_amounts@));
        assert forall|j: int| 0 <= j < n implies bounded_elem(#[trigger] inv_fp@[j])
            && bounded_elem(c_fp@[j]) && inv_fp@[j].as_int() >= 0 && c_fp@[j].as_int() >= 0 by {
            lemma_fp_scaled(inv_amounts@[j]);
            lemma_fp_scaled(asset_amounts@[j]);
            vstd::arithmetic::mul::lemma_mul_nonnegative(
                inv_amounts@[j] as int,
                SCALE as int,
            );
            vstd::arithmetic::mul::lemma_mul_nonnegative(
                asset_amounts@[j] as int,
                SCALE as int,
            );
        }
        assert forall|j: int| 0 <= j < n implies (#[trigger] prices@[j]).as_int() >= 0 by {}
        lemma_dot_val_nonneg(c_fp@, prices@, n as int);
        lemma_dot_val_nonneg(inv_fp@, prices@, n as int);
    }
    let score = compute_score(&inv_fp, &c_fp, prices, target);
    let penalty = compute_penalty(score, a_pos, s_pos, a_neg, s_neg);
    let cp = dot(&c_fp, prices);
    let vfp = dot(&inv_fp, prices);
    let supply_fp = int_to_fpdec(supply);
    let ghost cn = cp.num.as_nat();
    let ghost vn = vfp.num.as_nat();
    let ghost qv = (SCALE_SQ as nat) / vn;
    let ghost se = supply as nat * (SCALE as nat);
    let ghost t1b = mul_num(2 * (SCALE as nat), cn);
    let ghost t2b = mul_num(t1b, qv);
    let ghost t3b = mul_num(t2b, se);
    proof {
        assert(cp.sign == 1 && iabs(cp.as_int()) == cn);
        assert(vfp.sign == 1 && iabs(vfp.as_int()) == vn);
        assert(iabs(fp_recip_val(vfp.as_int())) == qv);
        lemma_mul_num_monotone(penalty.num.as_nat(), 2 * (SCALE as nat), cn);
        assert(iabs(penalty.as_int()) == penalty.num.as_nat());
    }
    let t1 = penalty.mul(cp);
    proof {
        assert(t1.as_int() >= 0 && t1.num.as_nat() == mul_num(penalty.num.as_nat(), cn));
        lemma_mul_num_monotone(t1.num.as_nat(), t1b, qv);
        assert(iabs(t1.as_int()) == t1.num.as_nat());
        assert(vn != 0);
    }
    let t2 = t1.div(vfp);
    proof {
        assert(t2.as_int() >= 0 && t2.num.as_nat() == mul_num(t1.num.as_nat(), qv));
        lemma_mul_num_monotone(t2.num.as_nat(), t2b, se);
        assert(iabs(t2.as_int()) == t2.num.as_nat());
        assert(iabs(supply_fp.as_int()) == se);
    }
    let t3 = t2.mul(supply_fp);
    proof {
        assert(t3.as_int() >= 0 && t3.num.as_nat() == mul_num(t2.num.as_nat(), se));
        assert(t3.sign == 1);
        // the computed subtotal is exactly the spec-level chain
        assert(penalty.as_int() == penalty_val(
            score_val(amounts_fp(inv_amounts@), amounts_fp(asset_amounts@), prices@, target@),
            a_pos.as_int(),
            s_pos.as_int(),
            a_neg.as_int(),
            s_neg.as_int(),
        ));
        assert(penalty.num.as_nat() == iabs(penalty.as_int()));
        assert(t3.num.as_nat() == mint_subtotal(
            inv_amounts@,
            asset_amounts@,
            prices@,
            target@,
            supply,
            a_pos,
            s_pos,
            a_neg,
            s_neg,
        ));
        vstd::arithmetic::div_mod::lemma_div_is_ordered(
            t3.num.as_nat() as int,
            t3b as int,
            SCALE as int,
        );
    }
    let (total, roundoff) = fpdec_to_int(t3);
    proof {
        if score.as_int() >= 0 {
            // with the penalty capped at one, each link of the chain is
            // bounded by its unpenalized counterpart
            lemma_mul_num_monotone(penalty.num.as_nat(), SCALE as nat, cn);
            lemma_mul_num_comm(SCALE as nat, cn);
            lemma_mul_num_one(cn);
            lemma_mul_num_monotone(t1.num.as_nat(), cn, qv);
            lemma_mul_num_monotone(t2.num.as_nat(), mul_num(cn, qv), se);
            vstd::arithmetic::div_mod::lemma_div_is_ordered(
                t3.num.as_nat() as int,
                mint_unpenalized_subtotal(cp.as_int(), vfp.as_int(), supply) as int,
                SCALE as int,
            );
        }
    }
    if let Some(m) = min_tokens {
        if total < *m {
            return Err(Error::BelowMinTokens { computed: total, minimum: *m });
        }
    }
    Ok((total, roundoff))
}

/// A strictly pro-rata redemption: each asset is paid out as the burned
/// share of the supply applied to its holding, rounded down, with the exact
/// fractional remainder reported per asset. The penalty curve is bypassed
/// entirely by design.
pub fn compute_burn_prorata(inv_amounts: &Vec<u128>, burn_amount: u128, supply: u128) -> (res: (
    Vec<u128>,
    Vec<FPDecimal>,
))
    requires
        supply >= 1,
        burn_amount <= supply,
    ensures
        res.0.len() == inv_amounts.len(),
        res.1.len() == inv_amounts.len(),
        forall|i: int|
            0 <= i < inv_amounts.len() ==> #[trigger] res.0@[i] as nat == (burn_amount as nat
                * inv_amounts@[i] as nat) / supply as nat,
        forall|i: int|
            0 <= i < inv_amounts.len() ==> (#[trigger] res.1@[i]).wf() && res.1@[i].sign == 1
                && res.1@[i].num.as_nat() < SCALE as nat && res.1@[i].num.as_nat() == ((
            burn_amount as nat * inv_amounts@[i] as nat) % supply as nat) * (SCALE as nat)
                / supply as nat,
{
    let n = inv_amounts.len();
    let mut totals: Vec<u128> = Vec::new();
    let mut roundoffs: Vec<FPDecimal> = Vec::new();
    let mut i: usize = 0;
    while i < n
        invariant
            i <= n,
            n == inv_amounts.len(),
            supply >= 1,
            burn_amount <= supply,
            totals.len() == i,
            roundoffs.len() == i,
            forall|j: int|
                0 <= j < i ==> #[trigger] totals@[j] as nat == (burn_amount as nat
                    * inv_amounts@[j] as nat) / supply as nat,
            forall|j: int|
                0 <= j < i ==> (#[trigger] roundoffs@[j]).wf() && roundoffs@[j].sign == 1
                    && roundoffs@[j].num.as_nat() < SCALE as nat && roundoffs@[j].num.as_nat() == ((
                burn_amount as nat * inv_amounts@[j] as nat) % supply as nat) * (SCALE as nat)
                    / supply as nat,
        decreases n - i,
    {
        let ghost bi = burn_amount as nat * inv_amounts@[i as int] as nat;
        let p = mul_u128(burn_amount, inv_amounts[i]);
        let (q, rem) = p.div_rem(supply);
        proof {
            vstd::arithmetic::div_mod::lemma_fundamental_div_mod(bi as int, supply as int);
            assert(q.as_nat() < b128()) by (nonlinear_arith)
                requires
                    q.as_nat() == bi / supply as nat,
                    supply * (bi / supply as nat) + bi % supply as nat == bi,
                    bi % supply as nat >= 0,
                    bi == burn_amount as nat * inv_amounts@[i as int] as nat,
                    burn_amount <= supply,
                    supply >= 1,
                    inv_amounts@[i as int] < b128(),
                    burn_amount < b128(),
                    b128() == 0x1_0000_0000_0000_0000_0000_0000_0000_0000nat,
            ;
            assert(q.hi == 0) by (nonlinear_arith)
                requires
                    q.as_nat() == q.lo as nat + q.hi as nat * b128(),
                    q.as_nat() < b128(),
            ;
        }
        totals.push(q.lo);
        // the fractional remainder, scaled back into a fixed-point value
        let p2 = mul_u128(rem, SCALE);
        let (q2, _rem2) = p2.div_rem(supply);
        proof {
            let rn = rem as nat;
            vstd::arithmetic::div_mod::lemma_fundamental_div_mod(
                (rem as nat * (SCALE as nat)) as int,
                supply as int,
            );
            assert(q2.as_nat() < SCALE as nat) by (nonlinear_arith)
                requires
                    q2.as_nat() == (rn * (SCALE as nat)) / supply as nat,
                    supply * ((rn * (SCALE as nat)) / supply as nat) + (rn * (SCALE as nat))
                        % supply as nat == rn * (SCALE as nat),
                    (rn * (SCALE as nat)) % supply as nat >= 0,
                    rn < supply,
                    supply >= 1,
                    SCALE >= 1,
            ;
            assert(q2.hi == 0) by (nonlinear_arith)
                requires
                    q2.as_nat() == q2.lo as nat + q2.hi as nat * b128(),
                    q2.as_nat() < SCALE as nat,
                    (SCALE as nat) < b128(),
                    b128() == 0x1_0000_0000_0000_0000_0000_0000_0000_0000nat,
            ;
        }
        roundoffs.push(FPDecimal { num: U256::from_u128(q2.lo), sign: 1 });
        i += 1;
    }
    (totals, roundoffs)
}

/// The normalized weight vector of a proposed redemption mix, as fixed-point
/// values.
pub open spec fn weights_fp(w: Seq<u32>) -> Seq<FPDecimal> {
    Seq::new(w.len(), |i: int| fp_of_val(crate::penalty::weight_val(w, i)))
}

/// The raw per-asset redemption value of a weighted burn before the penalty
/// factor: the burned share of the supply, scaled by the price-weighted
/// conversion factor, applied to the normalized weight of the asset.
pub open spec fn burn_b_val(
    inv: Seq<u128>,
    w: Seq<u32>,
    prices: Seq<FPDecimal>,
    burn_amount: u128,
    supply: u128,
    i: int,
) -> int {
    let md = fp_div_val(
        burn_amount as int * SCALE as int,
        supply as int * SCALE as int,
    );
    let prod = fp_div_val(
        dot_val(amounts_fp(inv), prices, inv.len() as int),
        dot_val(weights_fp(w), prices, w.len() as int),
    );
    fp_mul_val(fp_mul_val(md, prod), crate::penalty::weight_val(w, i))
}

/// The redemption values of a weighted burn, as fixed-point values.
pub open spec fn burn_b_fp(
    inv: Seq<u128>,
    w: Seq<u32>,
    prices: Seq<FPDecimal>,
    burn_amount: u128,
    supply: u128,
) -> Seq<FPDecimal> {
    Seq::new(inv.len(), |i: int| fp_of_val(burn_b_val(inv, w, prices, burn_amount, supply, i)))
}

/// The score of a weighted burn: the summed deviation of the negated
/// redemption values, normalized by the redemption's own value.
pub open spec fn burn_score_val(
    inv: Seq<u128>,
    w: Seq<u32>,
    prices: Seq<FPDecimal>,
    target: Seq<u32>,
    burn_amount: u128,
    supply: u128,
) -> int {
    let n = inv.len() as int;
    let negb = Seq::new(
        inv.len(),
        |i: int| fp_of_val(-burn_b_val(inv, w, prices, burn_amount, supply, i)),
    );
    fp_div_val(
        crate::penalty::diff_sum(amounts_fp(inv), negb, prices, target, n),
        dot_val(burn_b_fp(inv, w, prices, burn_amount, supply), prices, n),
    )
}

/// The exact subtotal one asset of a weighted burn redeems before
/// truncation: its raw redemption value scaled by the penalty factor of the
/// burn's score.
pub open spec fn burn_subtotal(
    inv: Seq<u128>,
    w: Seq<u32>,
    prices: Seq<FPDecimal>,
    target: Seq<u32>,
    burn_amount: u128,
    supply: u128,
    a_pos: FPDecimal,
    s_pos: FPDecimal,
    a_neg: FPDecimal,
    s_neg: FPDecimal,
    i: int,
) -> nat {
    mul_num(
        iabs(
            penalty_val(
                burn_score_val(inv, w, prices, target, burn_amount, supply),
                a_pos.as_int(),
                s_pos.as_int(),
                a_neg.as_int(),
                s_neg.as_int(),
            ),
        ),
        iabs(burn_b_val(inv, w, prices, burn_amount, supply, i)),
    )
}

/// Raw integer amounts as a vector of fixed-point values.
fn scale_amounts(amounts: &Vec<u128>) -> (r: Vec<FPDecimal>)
    requires
        forall|i: int| 0 <= i < amounts.len() ==> #[trigger] amounts@[i] <= AMOUNT_BOUND,
    ensures
        r@ == amounts_fp(amounts@),
{
    let n = amounts.len();
    let mut r: Vec<FPDecimal> = Vec::new();
    let mut i: usize = 0;
    while i < n
        invariant
            i <= n,
            n == amounts.len(),
            forall|j: int| 0 <= j < n ==> #[trigger] amounts@[j] <= AMOUNT_BOUND,
            r.len() == i,
            forall|j: int| 0 <= j < i ==> #[trigger] r@[j] == fp_scaled(amounts@[j]),
        decreases n - i,
    {
        let v = int_to_fpdec(amounts[i]);
        proof {
            lemma_fp_scaled(amounts@[i as int]);
            v.lemma_canonical(fp_scaled(amounts@[i as int]));
        }
        r.push(v);
        i += 1;
    }
    proof {
        assert(r@ =~= amounts_fp(amounts@));
    }
    r
}

/// The sum of a vector of raw weights.
fn weights_total(w: &Vec<u32>) -> (r: u64)
    requires
        w.len() <= LEN_BOUND,
    ensures
        r as nat == sum_u32(w@, w.len() as int),
{
    let n = w.len();
    let mut wsum: u64 = 0;
    let mut i: usize = 0;
    while i < n
        invariant
            i <= n,
            n == w.len(),
            n <= LEN_BOUND,
            wsum as nat == sum_u32(w@, i as int),
            wsum as nat <= (i as nat) * 0x1_0000_0000,
        decreases n - i,
    {
        proof {
            assert((i as nat) * 0x1_0000_0000 + 0x1_0000_0000 == (i as nat + 1) * 0x1_0000_0000)
                by (nonlinear_arith);
            assert((i as nat + 1) * 0x1_0000_0000 <= (LEN_BOUND as nat + 1) * 0x1_0000_0000)
                by (nonlinear_arith)
                requires
                    i as nat + 1 <= LEN_BOUND as nat + 1,
            ;
        }
        wsum = wsum + (w[i] as u64);
        i += 1;
    }
    wsum
}

/// A vector of raw weights divided by their sum.
fn normalize_weights(w: &Vec<u32>, wsum: u64) -> (r: Vec<FPDecimal>)
    requires
        w.len() <= LEN_BOUND,
        wsum as nat == sum_u32(w@, w.len() as int),
        wsum >= 1,
    ensures
        r@ == weights_fp(w@),
        forall|j: int|
            0 <= j < w.len() ==> (#[trigger] r@[j]).wf() && r@[j].as_int() == crate::penalty::weight_val(
                w@,
                j,
            ) && r@[j].as_int() >= 0 && r@[j].num.as_nat() <= SCALE as nat,
{
    let n = w.len();
    let ghost gw = w@;
    let ghost ws = sum_u32(gw, n as int);
    let wsum_fp = FPDecimal::from_u128(wsum as u128);
    let mut rvec: Vec<FPDecimal> = Vec::new();
    let mut i: usize = 0;
    while i < n
        invariant
            i <= n,
            n == w.len(),
            n <= LEN_BOUND,
            gw == w@,
            ws == sum_u32(gw, n as int),
            ws >= 1,
            wsum as nat == ws,
            wsum_fp.wf(),
            wsum_fp.as_int() == ws,
            rvec.len() == i,
            forall|j: int|
                0 <= j < i ==> #[trigger] rvec@[j] == fp_of_val(crate::penalty::weight_val(gw, j)),
        decreases n - i,
    {
        let ghost gi = i as int;
        let ghost q = (SCALE_SQ as nat) / ws;
        proof {
            crate::penalty::lemma_sum_u32_element(gw, n as int, gi);
            vstd::arithmetic::div_mod::lemma_fundamental_div_mod(SCALE_SQ as int, ws as int);
            assert((gw[gi] as nat) * q <= (SCALE as nat) * (SCALE as nat)) by (nonlinear_arith)
                requires
                    (gw[gi] as nat) <= ws,
                    ws * q <= SCALE_SQ as nat,
                    SCALE_SQ as nat == (SCALE as nat) * (SCALE as nat),
                    q >= 0,
                    ws >= 1,
            ;
            crate::fp::lemma_mul_num_le((gw[gi] as nat), q, SCALE as nat);
            assert((SCALE as nat) * (SCALE as nat) < (SCALE as nat) * b256()) by (nonlinear_arith)
                requires
                    (SCALE as nat) >= 1,
                    (SCALE as nat) < b256(),
            ;
            crate::fp::lemma_mul_num_fits((gw[gi] as nat), q);
        }
        let r = FPDecimal::from_u32(w[i]).div(wsum_fp);
        proof {
            assert(r.as_int() == crate::penalty::weight_val(gw, gi));
            lemma_fp_of_val(r.as_int());
            r.lemma_canonical(fp_of_val(crate::penalty::weight_val(gw, gi)));
        }
        rvec.push(r);
        i += 1;
    }
    proof {
        assert(rvec@ =~= weights_fp(gw));
        assert forall|j: int| 0 <= j < n implies (#[trigger] rvec@[j]).wf() && rvec@[j].as_int()
            == crate::penalty::weight_val(gw, j) && rvec@[j].as_int() >= 0
            && rvec@[j].num.as_nat() <= SCALE as nat by {
            crate::penalty::lemma_weight_val_bound(gw, j);
            lemma_fp_of_val(crate::penalty::weight_val(gw, j));
        }
    }
    rvec
}

/// Each normalized weight scaled by a common non-negative factor, with the
/// negated copy alongside.
fn scaled_redemptions(mp: FPDecimal, rvec: &Vec<FPDecimal>) -> (res: (
    Vec<FPDecimal>,
    Vec<FPDecimal>,
))
    requires
        mp.wf(),
        mp.as_int() >= 0,
        mp.num.as_nat() <= ELEM_BOUND as nat,
        forall|j: int|
            0 <= j < rvec.len() ==> (#[trigger] rvec@[j]).wf() && rvec@[j].as_int() >= 0
                && rvec@[j].num.as_nat() <= SCALE as nat,
    ensures
        res.0.len() == rvec.len(),
        res.1.len() == rvec.len(),
        forall|j: int|
            0 <= j < rvec.len() ==> #[trigger] res.0@[j] == fp_of_val(
                fp_mul_val(mp.as_int(), rvec@[j].as_int()),
            ),
        forall|j: int|
            0 <= j < rvec.len() ==> #[trigger] res.1@[j] == fp_of_val(
                -fp_mul_val(mp.as_int(), rvec@[j].as_int()),
            ),
        forall|j: int|
            0 <= j < rvec.len() ==> (#[trigger] res.0@[j]).wf() && res.0@[j].as_int() >= 0
                && res.0@[j].num.as_nat() <= ELEM_BOUND as nat && res.1@[j].wf()
                && res.1@[j].num.as_nat() <= ELEM_BOUND as nat,
{
    let n = rvec.len();
    let mut bvec: Vec<FPDecimal> = Vec::new();
    let mut nbvec: Vec<FPDecimal> = Vec::new();
    let mut i: usize = 0;
    while i < n
        invariant
            i <= n,
            n == rvec.len(),
            mp.wf(),
            mp.as_int() >= 0,
            mp.num.as_nat() <= ELEM_BOUND as nat,
            forall|j: int|
                0 <= j < n ==> (#[trigger] rvec@[j]).wf() && rvec@[j].as_int() >= 0
                    && rvec@[j].num.as_nat() <= SCALE as nat,
            bvec.len() == i,
            nbvec.len() == i,
            forall|j: int|
                0 <= j < i ==> #[trigger] bvec@[j] == fp_of_val(
                    fp_mul_val(mp.as_int(), rvec@[j].as_int()),
                ),
            forall|j: int|
                0 <= j < i ==> #[trigger] nbvec@[j] == fp_of_val(
                    -fp_mul_val(mp.as_int(), rvec@[j].as_int()),
                ),
            forall|j: int|
                0 <= j < i ==> (#[trigger] bvec@[j]).wf() && bvec@[j].as_int() >= 0
                    && bvec@[j].num.as_nat() <= ELEM_BOUND as nat && nbvec@[j].wf()
                    && nbvec@[j].num.as_nat() <= ELEM_BOUND as nat,
        decreases n - i,
    {
        let ghost gi = i as int;
        proof {
            vstd::arithmetic::mul::lemma_mul_upper_bound(
                mp.num.as_nat() as int,
                ELEM_BOUND as int,
                rvec@[gi].num.as_nat() as int,
                SCALE as int,
            );
            assert((ELEM_BOUND as nat) * (SCALE as nat) == (SCALE as nat) * (ELEM_BOUND as nat))
                by (nonlinear_arith);
            crate::fp::lemma_mul_num_le(
                mp.num.as_nat(),
                rvec@[gi].num.as_nat(),
                ELEM_BOUND as nat,
            );
            assert((ELEM_BOUND as nat) < b256());
            assert(iabs(mp.as_int()) == mp.num.as_nat());
            assert(iabs(rvec@[gi].as_int()) == rvec@[gi].num.as_nat());
        }
        let b = mp.mul(rvec[i]);
        let nb = b.negate();
        proof {
            let bv = fp_mul_val(mp.as_int(), rvec@[gi].as_int());
            lemma_fp_of_val(bv);
            b.lemma_canonical(fp_of_val(bv));
            lemma_fp_of_val(-bv);
            nb.lemma_canonical(fp_of_val(-bv));
        }
        bvec.push(b);
        nbvec.push(nb);
        i += 1;
    }
    (bvec, nbvec)
}

/// Each subtotal scaled by the penalty factor and truncated to a whole
/// amount, with the discarded fraction reported beside it.
fn penalty_truncate(pen: FPDecimal, bvec: &Vec<FPDecimal>) -> (res: (Vec<u128>, Vec<FPDecimal>))
    requires
        pen.wf(),
        pen.sign == 1,
        pen.num.as_nat() <= 2 * (SCALE as nat),
        forall|j: int|
            0 <= j < bvec.len() ==> (#[trigger] bvec@[j]).wf() && bvec@[j].as_int() >= 0
                && bvec@[j].num.as_nat() <= ELEM_BOUND as nat,
    ensures
        res.0.len() == bvec.len(),
        res.1.len() == bvec.len(),
        forall|i: int|
            0 <= i < bvec.len() ==> (#[trigger] res.1@[i]).wf() && res.1@[i].sign == 1
                && res.1@[i].num.as_nat() < SCALE as nat,
        forall|i: int|
            0 <= i < bvec.len() ==> #[trigger] res.0@[i] as nat == mul_num(
                pen.num.as_nat(),
                bvec@[i].num.as_nat(),
            ) / (SCALE as nat),
        forall|i: int|
            0 <= i < bvec.len() ==> (#[trigger] res.1@[i]).num.as_nat() == mul_num(
                pen.num.as_nat(),
                bvec@[i].num.as_nat(),
            ) % (SCALE as nat),
{
    let n = bvec.len();
    let mut totals: Vec<u128> = Vec::new();
    let mut roundoffs: Vec<FPDecimal> = Vec::new();
    let mut i: usize = 0;
    while i < n
        invariant
            i <= n,
            n == bvec.len(),
            pen.wf(),
            pen.sign == 1,
            pen.num.as_nat() <= 2 * (SCALE as nat),
            forall|j: int|
                0 <= j < n ==> (#[trigger] bvec@[j]).wf() && bvec@[j].as_int() >= 0
                    && bvec@[j].num.as_nat() <= ELEM_BOUND as nat,
            totals.len() == i,
            roundoffs.len() == i,
            forall|j: int|
                0 <= j < i ==> (#[trigger] roundoffs@[j]).wf() && roundoffs@[j].sign == 1
                    && roundoffs@[j].num.as_nat() < SCALE as nat,
            forall|j: int|
                0 <= j < i ==> #[trigger] totals@[j] as nat == mul_num(
                    pen.num.as_nat(),
                    bvec@[j].num.as_nat(),
                ) / (SCALE as nat),
            forall|j: int|
                0 <= j < i ==> (#[trigger] roundoffs@[j]).num.as_nat() == mul_num(
                    pen.num.as_nat(),
                    bvec@[j].num.as_nat(),
                ) % (SCALE as nat),
        decreases n - i,
    {
        let ghost gi = i as int;
        proof {
            vstd::arithmetic::mul::lemma_mul_upper_bound(
                pen.num.as_nat() as int,
                2 * (SCALE as int),
                bvec@[gi].num.as_nat() as int,
                ELEM_BOUND as int,
            );
            assert((2 * (SCALE as nat)) * (ELEM_BOUND as nat) == (SCALE as nat) * (2 * (
            ELEM_BOUND as nat))) by (nonlinear_arith);
            crate::fp::lemma_mul_num_le(
                pen.num.as_nat(),
                bvec@[gi].num.as_nat(),
                2 * (ELEM_BOUND as nat),
            );
            assert(2 * (ELEM_BOUND as nat) < b256());
            assert(iabs(pen.as_int()) == pen.num.as_nat());
            assert(iabs(bvec@[gi].as_int()) == bvec@[gi].num.as_nat());
        }
        let sub = pen.mul(bvec[i]);
        proof {
            assert(sub.as_int() >= 0 && sub.sign == 1);
            assert(sub.num.as_nat() <= 2 * (ELEM_BOUND as nat));
            vstd::arithmetic::div_mod::lemma_div_is_ordered(
                sub.num.as_nat() as int,
                2 * (ELEM_BOUND as int),
                SCALE as int,
            );
            assert((2 * (ELEM_BOUND as nat)) / (SCALE as nat) < b128()) by (nonlinear_arith)
                requires
                    ELEM_BOUND == 1_329_227_995_784_915_872_903_807_060_280_344_576u128,
                    SCALE == 1_000_000_000_000_000_000u128,
                    b128() == 0x1_0000_0000_0000_0000_0000_0000_0000_0000nat,
            ;
        }
        let (tot, ro) = fpdec_to_int(sub);
        totals.push(tot);
        roundoffs.push(ro);
        i += 1;
    }
    (totals, roundoffs)
}

/// A redemption against a caller-proposed weight mix: the weights are
/// normalized, converted into per-asset amounts worth the burned share of
/// the basket, scored as a negated contribution, scaled by the penalty
/// factor of that score, and truncated with the fractions kept per asset. A
/// mismatched weight vector and a weight vector summing to zero are
/// rejected; both are reported, never fatal.
#[verifier::rlimit(100)]
#[verifier::spinoff_prover]
pub fn compute_burn_weighted(
    inv_amounts: &Vec<u128>,
    asset_weights: &Vec<u32>,
    prices: &Vec<FPDecimal>,
    target: &Vec<u32>,
    burn_amount: u128,
    supply: u128,
    a_pos: FPDecimal,
    s_pos: FPDecimal,
    a_neg: FPDecimal,
    s_neg: FPDecimal,
) -> (res: Result<(Vec<u128>, Vec<FPDecimal>), Error>)
    requires
        inv_amounts.len() == prices.len(),
        inv_amounts.len() == target.len(),
        inv_amounts.len() <= LEN_BOUND,
        forall|i: int| 0 <= i < inv_amounts.len() ==> #[trigger] inv_amounts@[i] <= AMOUNT_BOUND,
        forall|i: int|
            0 <= i < prices.len() ==> bounded_elem(#[trigger] prices@[i]) && prices@[i].sign == 1,
        sum_u32(target@, target.len() as int) >= 1,
        supply >= 1,
        supply <= AMOUNT_BOUND,
        burn_amount <= supply,
        penalty_params_ok(a_pos, s_pos, a_neg, s_neg),
        asset_weights.len() == inv_amounts.len() && sum_u32(
            asset_weights@,
            asset_weights.len() as int,
        ) >= 1 ==> {
            &&& iabs(dot_val(amounts_fp(inv_amounts@), prices@, inv_amounts.len() as int))
                <= ELEM_BOUND as nat
            &&& (SCALE as nat) <= iabs(
                dot_val(weights_fp(asset_weights@), prices@, inv_amounts.len() as int),
            )
            &&& (SCALE as nat) <= iabs(
                dot_val(
                    burn_b_fp(inv_amounts@, asset_weights@, prices@, burn_amount, supply),
                    prices@,
                    inv_amounts.len() as int,
                ),
            )
        },
    ensures
        res matches Err(Error::BadWeightDimensions { provided, required }) <==> (
        asset_weights.len() != inv_amounts.len()),
        res matches Err(Error::ZeroWeightSum) <==> (asset_weights.len() == inv_amounts.len()
            && sum_u32(asset_weights@, asset_weights.len() as int) == 0),
        match res {
            Ok((totals, roundoffs)) => {
                &&& totals.len() == inv_amounts.len()
                &&& roundoffs.len() == inv_amounts.len()
                &&& forall|i: int|
                    0 <= i < roundoffs.len() ==> (#[trigger] roundoffs@[i]).wf()
                        && roundoffs@[i].sign == 1 && roundoffs@[i].num.as_nat() < SCALE as nat
                &&& forall|i: int|
                    0 <= i < totals.len() ==> #[trigger] totals@[i] as nat == burn_subtotal(
                        inv_amounts@,
                        asset_weights@,
                        prices@,
                        target@,
                        burn_amount,
                        supply,
                        a_pos,
                        s_pos,
                        a_neg,
                        s_neg,
                        i,
                    ) / (SCALE as nat)
                &&& forall|i: int|
                    0 <= i < roundoffs.len() ==> (#[trigger] roundoffs@[i]).num.as_nat()
                        == burn_subtotal(
                        inv_amounts@,
                        asset_weights@,
                        prices@,
                        target@,
                        burn_amount,
                        supply,
                        a_pos,
                        s_pos,
                        a_neg,
                        s_neg,
                        i,
                    ) % (SCALE as nat)
            },
            Err(e) => (e matches Error::BadWeightDimensions { provided, required } && provided
                == asset_weights.len() && required == inv_amounts.len()) || e
                == Error::ZeroWeightSum,
        },
{
    let n = inv_amounts.len();
    if asset_weights.len() != n {
        return Err(Error::BadWeightDimensions { provided: asset_weights.len(), required: n });
    }
    let wsum = weights_total(asset_weights);
    if wsum == 0 {
        return Err(Error::ZeroWeightSum);
    }
    let ghost gw = asset_weights@;
    let inv_fp = scale_amounts(inv_amounts);
    let rvec = normalize_weights(asset_weights, wsum);
    proof {
        assert forall|j: int| 0 <= j < n implies bounded_elem(#[trigger] inv_fp@[j])
            && inv_fp@[j].as_int() >= 0 && bounded_elem(rvec@[j]) by {
            lemma_fp_scaled(inv_amounts@[j]);
            vstd::arithmetic::mul::lemma_mul_nonnegative(inv_amounts@[j] as int, SCALE as int);
            assert(rvec@[j].num.as_nat() <= SCALE as nat);
        }
        assert forall|j: int| 0 <= j < n implies (#[trigger] prices@[j]).as_int() >= 0 by {}
        lemma_dot_val_nonneg(inv_fp@, prices@, n as int);
        lemma_dot_val_nonneg(rvec@, prices@, n as int);
    }
    let vv = dot(&inv_fp, prices);
    let drp = dot(&rvec, prices);
    let ghost vn = vv.num.as_nat();
    let ghost dn = drp.num.as_nat();
    let ghost qd = (SCALE_SQ as nat) / dn;
    proof {
        assert(vv.sign == 1 && iabs(vv.as_int()) == vn && vn <= ELEM_BOUND as nat);
        assert(drp.sign == 1 && iabs(drp.as_int()) == dn && dn >= SCALE as nat);
        vstd::arithmetic::div_mod::lemma_div_is_ordered_by_denominator(
            SCALE_SQ as int,
            SCALE as int,
            dn as int,
        );
        assert((SCALE_SQ as nat) / (SCALE as nat) == SCALE as nat) by (nonlinear_arith)
            requires
                SCALE_SQ == 1_000_000_000_000_000_000_000_000_000_000_000_000u128,
                SCALE == 1_000_000_000_000_000_000u128,
        ;
        assert(qd <= SCALE as nat);
        vstd::arithmetic::mul::lemma_mul_upper_bound(
            vn as int,
            ELEM_BOUND as int,
            qd as int,
            SCALE as int,
        );
        assert((ELEM_BOUND as nat) * (SCALE as nat) == (SCALE as nat) * (ELEM_BOUND as nat))
            by (nonlinear_arith);
        crate::fp::lemma_mul_num_le(vn, qd, ELEM_BOUND as nat);
        assert((ELEM_BOUND as nat) < b256());
        assert(iabs(fp_recip_val(drp.as_int())) == qd);
    }
    let prod = vv.div(drp);
    let bfp_amt = int_to_fpdec(burn_amount);
    let sfp = int_to_fpdec(supply);
    let ghost ben = burn_amount as nat * (SCALE as nat);
    let ghost sen = supply as nat * (SCALE as nat);
    let ghost qs = (SCALE_SQ as nat) / sen;
    proof {
        vstd::arithmetic::div_mod::lemma_fundamental_div_mod(SCALE_SQ as int, sen as int);
        vstd::arithmetic::mul::lemma_mul_inequality(
            burn_amount as int,
            supply as int,
            SCALE as int,
        );
        assert(ben * qs <= (SCALE as nat) * (SCALE as nat)) by (nonlinear_arith)
            requires
                ben <= sen,
                sen * qs <= SCALE_SQ as nat,
                SCALE_SQ as nat == (SCALE as nat) * (SCALE as nat),
                qs >= 0,
                sen >= 1,
        ;
        crate::fp::lemma_mul_num_le(ben, qs, SCALE as nat);
        assert((SCALE as nat) * (SCALE as nat) < (SCALE as nat) * b256()) by (nonlinear_arith)
            requires
                (SCALE as nat) >= 1,
                (SCALE as nat) < b256(),
        ;
        crate::fp::lemma_mul_num_fits(ben, qs);
        assert(sen >= 1) by (nonlinear_arith)
            requires
                sen == supply as nat * (SCALE as nat),
                supply >= 1,
                SCALE >= 1,
        ;
        assert(iabs(bfp_amt.as_int()) == ben && iabs(sfp.as_int()) == sen);
        assert(iabs(fp_recip_val(sfp.as_int())) == qs);
    }
    let mdn = bfp_amt.div(sfp);
    proof {
        assert(mdn.as_int() >= 0 && mdn.num.as_nat() <= SCALE as nat);
        vstd::arithmetic::mul::lemma_mul_upper_bound(
            mdn.num.as_nat() as int,
            SCALE as int,
            prod.num.as_nat() as int,
            ELEM_BOUND as int,
        );
        assert((SCALE as nat) * (ELEM_BOUND as nat) == (SCALE as nat) * (ELEM_BOUND as nat));
        crate::fp::lemma_mul_num_le(mdn.num.as_nat(), prod.num.as_nat(), ELEM_BOUND as nat);
        assert(prod.as_int() >= 0 && iabs(prod.as_int()) == prod.num.as_nat());
        assert(iabs(mdn.as_int()) == mdn.num.as_nat());
        assert((ELEM_BOUND as nat) < b256());
    }
    let mp = mdn.mul(prod);
    proof {
        assert(mp.as_int() >= 0 && mp.num.as_nat() <= ELEM_BOUND as nat);
    }
    let (bvec, nbvec) = scaled_redemptions(mp, &rvec);
    proof {
        assert forall|j: int| 0 <= j < n implies #[trigger] bvec@[j] == fp_of_val(
            burn_b_val(inv_amounts@, gw, prices@, burn_amount, supply, j),
        ) by {
            assert(bvec@[j] == fp_of_val(fp_mul_val(mp.as_int(), rvec@[j].as_int())));
        }
        assert(bvec@ =~= burn_b_fp(inv_amounts@, gw, prices@, burn_amount, supply));
        assert forall|j: int| 0 <= j < n implies bounded_elem(#[trigger] nbvec@[j])
            && bounded_elem(bvec@[j]) && bounded_elem(inv_fp@[j]) by {
            lemma_fp_scaled(inv_amounts@[j]);
            assert(bvec@[j].wf() && bvec@[j].num.as_nat() <= ELEM_BOUND as nat);
        }
        assert forall|j: int| 0 <= j < n implies (#[trigger] bvec@[j]).num.as_nat() == iabs(
            burn_b_val(inv_amounts@, gw, prices@, burn_amount, supply, j),
        ) by {
            let bv = burn_b_val(inv_amounts@, gw, prices@, burn_amount, supply, j);
            assert(bv == fp_mul_val(mp.as_int(), rvec@[j].as_int()));
            vstd::arithmetic::mul::lemma_mul_upper_bound(
                iabs(mp.as_int()) as int,
                ELEM_BOUND as int,
                iabs(rvec@[j].as_int()) as int,
                SCALE as int,
            );
            assert((ELEM_BOUND as nat) * (SCALE as nat) == (SCALE as nat) * (ELEM_BOUND as nat))
                by (nonlinear_arith);
            crate::fp::lemma_mul_num_le(iabs(mp.as_int()), iabs(rvec@[j].as_int()), ELEM_BOUND as nat);
            assert(iabs(bv) < b256());
            crate::u256::lemma_u256_of(iabs(bv));
        }
        assert(nbvec@ =~= Seq::new(
            inv_amounts@.len(),
            |i: int| fp_of_val(-burn_b_val(inv_amounts@, gw, prices@, burn_amount, supply, i)),
        ));
    }
    let d = compute_diff(&inv_fp, &nbvec, prices, target);
    let sd = crate::vector::sum(&d);
    let dbp = dot(&bvec, prices);
    proof {
        lemma_dot_val_nonneg(bvec@, prices@, n as int);
        assert(dbp.sign == 1 && iabs(dbp.as_int()) == dbp.num.as_nat());
        assert(dbp.num.as_nat() >= SCALE as nat);
        crate::penalty::lemma_score_div_fits(sd.as_int(), dbp.as_int(), n as int);
    }
    let score = sd.div(dbp);
    proof {
        crate::penalty::lemma_sum_eq_diff_sum(
            amounts_fp(inv_amounts@),
            nbvec@,
            prices@,
            target@,
            d@,
            n as int,
        );
        assert(score.as_int() == burn_score_val(
            inv_amounts@,
            gw,
            prices@,
            target@,
            burn_amount,
            supply,
        ));
    }
    let pen = compute_penalty(score, a_pos, s_pos, a_neg, s_neg);
    proof {
        assert(pen.num.as_nat() == iabs(pen.as_int()));
    }
    let (totals, roundoffs) = penalty_truncate(pen, &bvec);
    proof {
        assert forall|i: int| 0 <= i < n implies #[trigger] totals@[i] as nat == burn_subtotal(
            inv_amounts@,
            gw,
            prices@,
            target@,
            burn_amount,
            supply,
            a_pos,
            s_pos,
            a_neg,
            s_neg,
            i,
        ) / (SCALE as nat) && roundoffs@[i].num.as_nat() == burn_subtotal(
            inv_amounts@,
            gw,
            prices@,
            target@,
            burn_amount,
            supply,
            a_pos,
            s_pos,
            a_neg,
            s_neg,
            i,
        ) % (SCALE as nat) by {
            assert(totals@[i] as nat == mul_num(pen.num.as_nat(), bvec@[i].num.as_nat()) / (
            SCALE as nat));
            assert(roundoffs@[i].num.as_nat() == mul_num(pen.num.as_nat(), bvec@[i].num.as_nat())
                % (SCALE as nat));
        }
    }
    Ok((totals, roundoffs))
}

} // verus!
