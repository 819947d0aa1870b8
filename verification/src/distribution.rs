//! The arithmetic of periodic token distribution: how much a schedule has
//! accrued over an elapsed window, and how a distributed amount is split
//! across registered weights. Rates are fixed-point values over `SCALE`,
//! rounded down exactly as the surrounding system computes them.

use crate::fp::SCALE;
use crate::u256::{b128, mul_u128};
use vstd::prelude::*;

verus! {

/// The amount one schedule slot `(from, until, amount)` pays out between
/// `last` and `now`: the overlap of the window with the slot, at the slot's
/// rounded-down per-second rate.
pub open spec fn slot_amount(s: (u64, u64, u128), now: u64, last: u64) -> nat {
    if s.0 > now || s.1 < last {
        0
    } else {
        let upper = if s.1 < now {
            s.1
        } else {
            now
        };
        let lower = if s.0 > last {
            s.0
        } else {
            last
        };
        let rate = (s.2 as nat * SCALE as nat) / ((s.1 - s.0) as nat);
        ((upper - lower) as nat * rate) / (SCALE as nat)
    }
}

/// The total the first `k` slots pay out between `last` and `now`.
pub open spec fn schedule_sum(sched: Seq<(u64, u64, u128)>, now: u64, last: u64, k: int) -> nat
    decreases k,
{
    if k <= 0 {
        0
    } else {
        schedule_sum(sched, now, last, k - 1) + slot_amount(sched[k - 1], now, last)
    }
}

/// The amount a distribution schedule has accrued between two instants.
pub fn schedule_amount(schedule: &Vec<(u64, u64, u128)>, now: u64, last: u64) -> (r: u128)
    requires
        last <= now,
        forall|i: int| 0 <= i < schedule.len() ==> (#[trigger] schedule@[i]).0 < schedule@[i].1,
        forall|i: int|
            0 <= i < schedule.len() ==> (#[trigger] schedule@[i]).2 as nat * (SCALE as nat) / ((
            schedule@[i].1 - schedule@[i].0) as nat) < b128(),
        schedule_sum(schedule@, now, last, schedule.len() as int) < b128(),
    ensures
        r as nat == schedule_sum(schedule@, now, last, schedule.len() as int),
{
    let n = schedule.len();
    let mut acc: u128 = 0;
    let mut i: usize = 0;
    while i < n
        invariant
            last <= now,
            i <= n,
            n == schedule.len(),
            forall|j: int| 0 <= j < n ==> (#[trigger] schedule@[j]).0 < schedule@[j].1,
            forall|j: int|
                0 <= j < n ==> (#[trigger] schedule@[j]).2 as nat * (SCALE as nat) / ((
                schedule@[j].1 - schedule@[j].0) as nat) < b128(),
            schedule_sum(schedule@, now, last, n as int) < b128(),
            acc as nat == schedule_sum(schedule@, now, last, i as int),
        decreases n - i,
    {
        let ghost gi = i as int;
        let s = schedule[i];
        proof {
            lemma_schedule_sum_prefix(schedule@, now, last, gi + 1, n as int);
        }
        if !(s.0 > now || s.1 < last) {
            let upper = if s.1 < now {
                s.1
            } else {
                now
            };
            let lower = if s.0 > last {
                s.0
            } else {
                last
            };
            let scaled = mul_u128(s.2, SCALE);
            let (rate_wide, _r1) = scaled.div_rem((s.1 - s.0) as u128);
            proof {
                assert(rate_wide.hi == 0) by (nonlinear_arith)
                    requires
                        rate_wide.as_nat() == rate_wide.lo as nat + rate_wide.hi as nat * b128(),
                        rate_wide.as_nat() < b128(),
                ;
            }
            let rate = rate_wide.lo;
            let paid_wide = mul_u128((upper - lower) as u128, rate);
            let (paid_q, _r2) = paid_wide.div_rem(SCALE);
            proof {
                assert(paid_q.as_nat() == slot_amount(schedule@[gi], now, last));
                assert(paid_q.as_nat() < b128()) by {
                    assert(slot_amount(schedule@[gi], now, last) <= schedule_sum(
                        schedule@,
                        now,
                        last,
                        n as int,
                    ));
                }
                assert(paid_q.hi == 0) by (nonlinear_arith)
                    requires
                        paid_q.as_nat() == paid_q.lo as nat + paid_q.hi as nat * b128(),
                        paid_q.as_nat() < b128(),
                ;
                assert(acc as nat + paid_q.as_nat() <= schedule_sum(
                    schedule@,
                    now,
                    last,
                    n as int,
                ));
            }
            acc = acc + paid_q.lo;
        }
        i += 1;
    }
    acc
}

/// A running prefix of the schedule total never exceeds the whole.
proof fn lemma_schedule_sum_prefix(sched: Seq<(u64, u64, u128)>, now: u64, last: u64, k: int, n: int)
    requires
        0 <= k <= n <= sched.len(),
    ensures
        schedule_sum(sched, now, last, k) <= schedule_sum(sched, now, last, n),
    decreases n - k,
{
    if k < n {
        lemma_schedule_sum_prefix(sched, now, last, k + 1, n);
    }
}

/// The share of a distributed amount that one weight earns out of the total
/// weight, at the rounded-down fixed-point ratio.
pub fn weight_portion(amount: u128, weight: u32, total_weight: u32) -> (r: u128)
    requires
        1 <= total_weight,
        weight <= total_weight,
    ensures
        r as nat == (amount as nat * ((weight as nat * (SCALE as nat)) / (total_weight as nat)))
            / (SCALE as nat),
{
    let rate = (weight as u128) * SCALE / (total_weight as u128);
    let paid_wide = mul_u128(amount, rate);
    let (q, _rem) = paid_wide.div_rem(SCALE);
    proof {
        let e = SCALE as nat;
        let tw = total_weight as nat;
        let rn = rate as nat;
        vstd::arithmetic::div_mod::lemma_fundamental_div_mod(
            (weight as nat * e) as int,
            tw as int,
        );
        assert(rn <= e) by (nonlinear_arith)
            requires
                rn == (weight as nat * e) / tw,
                tw * ((weight as nat * e) / tw) + (weight as nat * e) % tw == weight as nat * e,
                (weight as nat * e) % tw >= 0,
                weight as nat <= tw,
                tw >= 1,
                e >= 1,
        ;
        vstd::arithmetic::div_mod::lemma_fundamental_div_mod(
            (amount as nat * rn) as int,
            e as int,
        );
        assert(q.as_nat() < b128()) by (nonlinear_arith)
            requires
                q.as_nat() == (amount as nat * rn) / e,
                e * ((amount as nat * rn) / e) + (amount as nat * rn) % e == amount as nat * rn,
                (amount as nat * rn) % e >= 0,
                rn <= e,
                amount < b128(),
                e >= 1,
                b128() == 0x1_0000_0000_0000_0000_0000_0000_0000_0000nat,
        ;
        assert(q.hi == 0) by (nonlinear_arith)
            requires
                q.as_nat() == q.lo as nat + q.hi as nat * b128(),
                q.as_nat() < b128(),
        ;
    }
    q.lo
}

} // verus!
