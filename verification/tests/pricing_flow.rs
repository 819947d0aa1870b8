use basket_math::error::Error;
use basket_math::fp::{FPDecimal, SCALE};
use basket_math::penalty::{compute_penalty, compute_score};
use basket_math::pricing::{compute_burn_prorata, compute_burn_weighted, compute_mint};
use basket_math::querier::{OracleQuerier, TerraswapFactoryQuerier};
use basket_math::u256::U256;
use basket_math::util::{fpdec_to_int, int_to_fpdec, reward_share, unstage_amount, validate_staged};
use basket_math::distribution::{schedule_amount, weight_portion};
use basket_math::vector::{dot, sum};

fn raw(num: u128, sign: i8) -> FPDecimal {
    FPDecimal { num: U256::from_u128(num), sign }
}

fn price(units: u128, centis: u128) -> FPDecimal {
    raw(units * SCALE + centis * (SCALE / 100), 1)
}

fn params() -> (FPDecimal, FPDecimal, FPDecimal, FPDecimal) {
    // amplitudes of 0.1, scales of 0.5
    (
        raw(SCALE / 10, 1),
        raw(SCALE / 2, 1),
        raw(SCALE / 10, 1),
        raw(SCALE / 2, 1),
    )
}

fn scenario_inventory() -> Vec<u128> {
    vec![7_290_053_159, 319_710_128, 14_219_281_228, 224_212_221]
}

fn scenario_prices() -> Vec<FPDecimal> {
    vec![price(135, 18), price(1780, 3), price(222, 42), price(540, 82)]
}

fn scenario_contribution() -> Vec<u128> {
    vec![125_000_000, 0, 149_000_000, 50_090_272]
}

#[test]
fn mint() {
    let inv = scenario_inventory();
    let amounts = scenario_contribution();
    let prices = scenario_prices();
    let target: Vec<u32> = vec![20, 15, 63, 2];
    let supply: u128 = 100_000_000;
    let (a_pos, s_pos, a_neg, s_neg) = params();
    let res = compute_mint(
        &inv, &amounts, &prices, &target, supply, &None, a_pos, s_pos, a_neg, s_neg,
    );
    let (total, roundoff) = res.expect("a mint with no minimum is priced");
    assert!(roundoff.num.lt(&U256::from_u128(SCALE)));
    assert_eq!(roundoff.sign, 1);
    // identical inputs price identically on re-evaluation
    let res2 = compute_mint(
        &inv, &amounts, &prices, &target, supply, &None, a_pos, s_pos, a_neg, s_neg,
    );
    let (total2, roundoff2) = res2.unwrap();
    assert_eq!(total, total2);
    assert_eq!(roundoff, roundoff2);
    // this contribution moves the basket away from the target, so the
    // penalized amount cannot exceed the unpenalized one
    let inv_fp: Vec<FPDecimal> = inv.iter().map(|&x| int_to_fpdec(x)).collect();
    let c_fp: Vec<FPDecimal> = amounts.iter().map(|&x| int_to_fpdec(x)).collect();
    let score = compute_score(&inv_fp, &c_fp, &prices, &target);
    assert_eq!(score.sign, 1);
    let zero = FPDecimal::zero();
    let one_half = raw(SCALE / 2, 1);
    let unpenalized = compute_mint(
        &inv, &amounts, &prices, &target, supply, &None, zero, one_half, zero, one_half,
    );
    let (unpenalized_total, _) = unpenalized.unwrap();
    assert!(total <= unpenalized_total);
    assert!(total > 0);
}

#[test]
fn burn() {
    let inv = scenario_inventory();
    let (totals, roundoffs) = compute_burn_prorata(&inv, 20_000_000, 100_000_000);
    assert_eq!(totals.len(), 4);
    assert_eq!(roundoffs.len(), 4);
    // exactly one fifth of each holding, rounded down
    assert_eq!(totals, vec![1_458_010_631, 63_942_025, 2_843_856_245, 44_842_444]);
    for ro in roundoffs {
        assert_eq!(ro.sign, 1);
        assert!(ro.num.lt(&U256::from_u128(SCALE)));
    }
}

#[test]
fn burn_weighted_happy_path() {
    let inv = scenario_inventory();
    let prices = scenario_prices();
    let target: Vec<u32> = vec![20, 12, 65, 3];
    let weights: Vec<u32> = vec![1, 1, 1, 1];
    let (a_pos, s_pos, a_neg, s_neg) = params();
    let res = compute_burn_weighted(
        &inv, &weights, &prices, &target, 20_000_000, 100_000_000, a_pos, s_pos, a_neg, s_neg,
    );
    let (totals, roundoffs) = res.expect("an even weight vector is accepted");
    assert_eq!(totals.len(), 4);
    assert_eq!(roundoffs.len(), 4);
    for ro in roundoffs {
        assert_eq!(ro.sign, 1);
        assert!(ro.num.lt(&U256::from_u128(SCALE)));
    }
}

#[test]
fn burn_weighted_zero_sum_is_recoverable() {
    let inv = scenario_inventory();
    let prices = scenario_prices();
    let target: Vec<u32> = vec![20, 12, 65, 3];
    let weights: Vec<u32> = vec![0, 0, 0, 0];
    let (a_pos, s_pos, a_neg, s_neg) = params();
    let res = compute_burn_weighted(
        &inv, &weights, &prices, &target, 20_000_000, 100_000_000, a_pos, s_pos, a_neg, s_neg,
    );
    assert_eq!(res.unwrap_err(), Error::ZeroWeightSum);
}

#[test]
fn burn_weighted_dimension_mismatch_is_recoverable() {
    let inv = scenario_inventory();
    let prices = scenario_prices();
    let target: Vec<u32> = vec![20, 12, 65, 3];
    let weights: Vec<u32> = vec![1, 1];
    let (a_pos, s_pos, a_neg, s_neg) = params();
    let res = compute_burn_weighted(
        &inv, &weights, &prices, &target, 20_000_000, 100_000_000, a_pos, s_pos, a_neg, s_neg,
    );
    assert_eq!(res.unwrap_err(), Error::BadWeightDimensions { provided: 2, required: 4 });
}

#[test]
fn mint_below_minimum_is_recoverable() {
    let inv = scenario_inventory();
    let amounts = scenario_contribution();
    let prices = scenario_prices();
    let target: Vec<u32> = vec![20, 12, 65, 3];
    let (a_pos, s_pos, a_neg, s_neg) = params();
    let res = compute_mint(
        &inv,
        &amounts,
        &prices,
        &target,
        100_000_000,
        &Some(u128::MAX),
        a_pos,
        s_pos,
        a_neg,
        s_neg,
    );
    match res.unwrap_err() {
        Error::BelowMinTokens { computed, minimum } => {
            assert_eq!(minimum, u128::MAX);
            assert!(computed < minimum);
        }
        other => panic!("unexpected rejection {:?}", other),
    }
}

#[test]
fn score_is_neutral_for_proportional_contribution() {
    // equal prices, equal target weights, equal contributions: the
    // contribution is exactly value-proportional to the target
    let inv_fp = vec![int_to_fpdec(37), int_to_fpdec(11)];
    let c_fp = vec![int_to_fpdec(100), int_to_fpdec(100)];
    let prices = vec![FPDecimal::one(), FPDecimal::one()];
    let target: Vec<u32> = vec![1, 1];
    let score = compute_score(&inv_fp, &c_fp, &prices, &target);
    assert_eq!(score, FPDecimal::zero());
}

#[test]
fn penalty_is_one_at_neutral_score() {
    let (a_pos, s_pos, a_neg, s_neg) = params();
    assert_eq!(
        compute_penalty(FPDecimal::zero(), a_pos, s_pos, a_neg, s_neg),
        FPDecimal::one()
    );
    // another valid parameter set
    let a2 = raw(SCALE, 1);
    let s2 = raw(3 * SCALE, 1);
    assert_eq!(compute_penalty(FPDecimal::zero(), a2, s2, a2, s2), FPDecimal::one());
}

#[test]
fn penalty_shrinks_for_positive_scores() {
    let (a_pos, s_pos, a_neg, s_neg) = params();
    let p = compute_penalty(raw(SCALE, 1), a_pos, s_pos, a_neg, s_neg);
    assert_eq!(p.sign, 1);
    assert!(p.num.lt(&FPDecimal::one().num));
    let q = compute_penalty(raw(SCALE, 0), a_pos, s_pos, a_neg, s_neg);
    assert!(FPDecimal::one().num.lt(&q.num));
}

#[test]
fn truncation_splits_exactly() {
    let x = raw(7 * SCALE + SCALE / 2, 1);
    let (whole_part, roundoff) = fpdec_to_int(x);
    assert_eq!(whole_part, 7);
    assert_eq!(roundoff, raw(SCALE / 2, 1));
    // nothing lost and nothing negative, even at an exact boundary
    let (w2, r2) = fpdec_to_int(raw(3 * SCALE, 1));
    assert_eq!(w2, 3);
    assert_eq!(r2, FPDecimal::zero());
}

#[test]
fn dot_and_sum_match_their_formulas() {
    let a = int_to_fpdec(2);
    let b = int_to_fpdec(3);
    let c = int_to_fpdec(4);
    let d = int_to_fpdec(5);
    let dp = dot(&vec![a, b], &vec![c, d]);
    assert_eq!(
        dp,
        FPDecimal::_add(FPDecimal::_mul(a, c), FPDecimal::_mul(b, d))
    );
    assert_eq!(dp, int_to_fpdec(23));
    let s = sum(&vec![a, b, c]);
    assert_eq!(s, FPDecimal::_add(FPDecimal::_add(a, b), c));
    assert_eq!(s, int_to_fpdec(9));
    let empty: Vec<FPDecimal> = vec![];
    assert_eq!(dot(&empty, &empty), FPDecimal::zero());
}

#[test]
fn staging_decisions() {
    assert_eq!(unstage_amount(&Some(5), 10, 0), Ok(5));
    assert_eq!(unstage_amount(&None, 10, 0), Ok(10));
    assert_eq!(
        unstage_amount(&Some(11), 10, 2),
        Err(Error::InsufficientStaged { index: 2, requested: 11, available: 10 })
    );
    assert_eq!(validate_staged(&vec![1, 2, 3], &vec![1, 2, 3]), Ok(()));
    assert_eq!(
        validate_staged(&vec![1, 5, 3], &vec![1, 2, 3]),
        Err(Error::InsufficientStaged { index: 1, requested: 5, available: 2 })
    );
}

#[test]
fn reward_share_is_proportional() {
    assert_eq!(reward_share(100, 30, 60), 50);
    assert_eq!(reward_share(7, 1, 3), 2);
    assert_eq!(reward_share(0, 5, 5), 0);
}

#[test]
fn distribution_schedule_accrues_exactly() {
    // one slot of 3600 tokens over [0, 3600): one token per second
    let schedule: Vec<(u64, u64, u128)> = vec![(0, 3600, 3600)];
    assert_eq!(schedule_amount(&schedule, 100, 40), 60);
    // a window past the slot accrues nothing
    assert_eq!(schedule_amount(&schedule, 9000, 7200), 0);
    // two overlapping slots add up
    let both: Vec<(u64, u64, u128)> = vec![(0, 3600, 3600), (0, 100, 500)];
    assert_eq!(schedule_amount(&both, 100, 0), 100 + 500);
}

#[test]
fn weight_portion_splits_proportionally() {
    assert_eq!(weight_portion(1000, 25, 100), 250);
    assert_eq!(weight_portion(1000, 100, 100), 1000);
    assert_eq!(weight_portion(7, 1, 3), 2);
}

#[test]
fn querier_tables_hold_registrations() {
    let q = TerraswapFactoryQuerier::new(vec![(
        "uusdasset0000".to_string(),
        "pair0000".to_string(),
    )]);
    assert_eq!(q.pairs.len(), 1);
    assert_eq!(q.pairs[0].1, "pair0000");
    let o = OracleQuerier::default();
    assert!(o.feeders.is_empty());
}

#[test]
fn mint_neutral_contribution_is_unpenalized() {
    // a contribution exactly value-proportional to the target scores zero,
    // so any valid parameter set prices it like the unpenalized computation
    let inv: Vec<u128> = vec![37, 11];
    let amounts: Vec<u128> = vec![100, 100];
    let prices = vec![FPDecimal::one(), FPDecimal::one()];
    let target: Vec<u32> = vec![1, 1];
    let supply: u128 = 1_000;
    let (a_pos, s_pos, a_neg, s_neg) = params();
    let priced = compute_mint(
        &inv, &amounts, &prices, &target, supply, &None, a_pos, s_pos, a_neg, s_neg,
    )
    .unwrap();
    let zero = FPDecimal::zero();
    let unpenalized = compute_mint(
        &inv, &amounts, &prices, &target, supply, &None, zero, s_pos, zero, s_neg,
    )
    .unwrap();
    assert_eq!(priced, unpenalized);
}
