//! Conversions between integer token amounts and fixed-point values, and the
//! small decisions of the staging flow.

use crate::error::Error;
use crate::fp::{FPDecimal, SCALE};
use crate::u256::{b128, mul_u128, U256};
use vstd::prelude::*;

verus! {

/// An integer amount in the smallest denomination, as a fixed-point value.
pub fn int_to_fpdec(amount: u128) -> (r: FPDecimal)
    ensures
        r.wf(),
        r.sign == 1,
        r.as_int() == amount as int * SCALE as int,
        r.num.as_nat() == amount as nat * SCALE as nat,
{
    FPDecimal { num: mul_u128(amount, SCALE), sign: 1 }
}

/// Truncates a non-negative fixed-point value toward zero: the whole units
/// as an integer amount, and the discarded fraction as the roundoff. The
/// roundoff is never negative, is strictly below one unit, and together with
/// the amount accounts for the input exactly.
pub fn fpdec_to_int(x: FPDecimal) -> (res: (u128, FPDecimal))
    requires
        x.wf(),
        x.sign == 1,
        x.num.as_nat() / (SCALE as nat) < b128(),
    ensures
        res.0 as nat == x.num.as_nat() / (SCALE as nat),
        res.1.wf(),
        res.1.sign == 1,
        res.1.num.as_nat() == x.num.as_nat() % (SCALE as nat),
        res.1.num.as_nat() < SCALE as nat,
        res.0 as nat * (SCALE as nat) + res.1.num.as_nat() == x.num.as_nat(),
{
    let (q, r) = x.num.div_rem(SCALE);
    proof {
        assert(q.hi == 0) by (nonlinear_arith)
            requires
                q.as_nat() == q.lo as nat + q.hi as nat * b128(),
                q.as_nat() < b128(),
                b128() == 0x1_0000_0000_0000_0000_0000_0000_0000_0000nat,
        ;
        vstd::arithmetic::div_mod::lemma_fundamental_div_mod(
            x.num.as_nat() as int,
            SCALE as int,
        );
        assert(r < SCALE) by {
            vstd::arithmetic::div_mod::lemma_mod_division_less_than_divisor(
                x.num.as_nat() as int,
                SCALE as int,
            );
        }
        assert(q.lo as nat * (SCALE as nat) == (SCALE as nat) * (x.num.as_nat() / (SCALE as nat)))
            by (nonlinear_arith)
            requires
                q.lo as nat == x.num.as_nat() / (SCALE as nat),
        ;
    }
    (q.lo, FPDecimal { num: U256::from_u128(r), sign: 1 })
}

/// How much to release from staging: the requested amount if it is covered,
/// everything staged if no amount was named, and a report of the shortfall
/// otherwise.
pub fn unstage_amount(requested: &Option<u128>, staged: u128, index: usize) -> (res: Result<
    u128,
    Error,
>)
    ensures
        match res {
            Ok(amount) => match requested {
                Some(amt) => amount == amt && amt <= staged,
                None => amount == staged,
            },
            Err(e) => matches!(requested, Some(amt) if *amt > staged) && e == (
            Error::InsufficientStaged {
                index,
                requested: requested.unwrap(),
                available: staged,
            }),
        },
{
    match requested {
        Some(amt) => {
            if *amt > staged {
                Err(
                    Error::InsufficientStaged {
                        index,
                        requested: *amt,
                        available: staged,
                    },
                )
            } else {
                Ok(*amt)
            }
        },
        None => Ok(staged),
    }
}

/// Checks that every requested amount is covered by what the account has
/// staged, reporting the first shortfall.
pub fn validate_staged(requested: &Vec<u128>, staged: &Vec<u128>) -> (res: Result<(), Error>)
    requires
        requested.len() == staged.len(),
    ensures
        match res {
            Ok(()) => forall|i: int| 0 <= i < requested.len() ==> #[trigger] requested@[i]
                <= staged@[i],
            Err(e) => exists|i: int|
                0 <= i < requested.len() && #[trigger] requested@[i] > staged@[i] && e == (
                Error::InsufficientStaged {
                    index: i as usize,
                    requested: requested@[i],
                    available: staged@[i],
                }),
        },
{
    let mut i: usize = 0;
    while i < requested.len()
        invariant
            i <= requested.len(),
            requested.len() == staged.len(),
            forall|j: int| 0 <= j < i ==> #[trigger] requested@[j] <= staged@[j],
        decreases requested.len() - i,
    {
        if requested[i] > staged[i] {
            return Err(
                Error::InsufficientStaged {
                    index: i,
                    requested: requested[i],
                    available: staged[i],
                },
            );
        }
        i += 1;
    }
    Ok(())
}

/// The share of a reward pool that a recorded penalty has earned: the pool's
/// reward total scaled by the account's fraction of the penalty total.
pub fn reward_share(reward_sum: u128, penalty: u128, penalty_sum: u128) -> (r: u128)
    requires
        penalty_sum >= 1,
        penalty <= penalty_sum,
    ensures
        r as nat == (reward_sum as nat * penalty as nat) / penalty_sum as nat,
{
    let p = mul_u128(reward_sum, penalty);
    let (q, _rem) = p.div_rem(penalty_sum);
    proof {
        vstd::arithmetic::div_mod::lemma_fundamental_div_mod(
            (reward_sum as nat * penalty as nat) as int,
            penalty_sum as int,
        );
        assert(q.as_nat() < b128()) by (nonlinear_arith)
            requires
                q.as_nat() == (reward_sum as nat * penalty as nat) / penalty_sum as nat,
                penalty_sum * ((reward_sum as nat * penalty as nat) / penalty_sum as nat) + (
                reward_sum as nat * penalty as nat) % penalty_sum as nat == reward_sum as nat
                    * penalty as nat,
                penalty <= penalty_sum,
                penalty_sum >= 1,
                reward_sum < b128(),
                penalty < b128(),
                b128() == 0x1_0000_0000_0000_0000_0000_0000_0000_0000nat,
        ;
        assert(q.hi == 0) by (nonlinear_arith)
            requires
                q.as_nat() == q.lo as nat + q.hi as nat * b128(),
                q.as_nat() < b128(),
        ;
    }
    q.lo
}

} // verus!
