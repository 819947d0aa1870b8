//! Signed fixed-point decimals: a 256-bit magnitude scaled by `SCALE`, plus a
//! sign flag, with zero always canonicalized to the non-negative sign.
//!
//! The value represented is `num / SCALE`, negated when `sign` is zero. Every
//! operation carries an exact contract over `as_int`, the signed magnitude in
//! units of `1 / SCALE`.

use crate::u256::{b128, b256, U256};
use vstd::prelude::*;

verus! {

/// The magnitude that represents one whole unit.
pub const SCALE: u128 = 1_000_000_000_000_000_000;

/// Fractional parts are shifted down by this divisor before the
/// fraction-times-fraction term of a product is formed.
pub const MUL_PRECISION: u128 = 1_000_000_000;

/// `SCALE * SCALE`, the dividend used by `reciprocal`.
pub const SCALE_SQ: u128 = 1_000_000_000_000_000_000 * 1_000_000_000_000_000_000;

/// A signed fixed-point decimal. `sign` is 1 for non-negative values and 0
/// for negative ones.
#[derive(Clone, Copy, PartialEq, Eq, Structural, Debug)]
pub struct FPDecimal {
    pub num: U256,
    pub sign: i8,
}

/// Absolute value of a mathematical integer.
pub open spec fn iabs(v: int) -> nat {
    if v < 0 {
        (-v) as nat
    } else {
        v as nat
    }
}

/// The magnitudes a signed value must stay within.
pub open spec fn fits(v: int) -> bool {
    iabs(v) < b256()
}

/// The magnitude of the product of two magnitudes, as computed by `_mul`:
/// integer and fractional parts are multiplied separately, and the two
/// fractional parts are shifted down by `MUL_PRECISION` before their product
/// is taken.
pub open spec fn mul_num(a: nat, b: nat) -> nat {
    let e = SCALE as nat;
    let m = MUL_PRECISION as nat;
    (a / e) * (b / e) * e + (a % e) * (b / e) + (a / e) * (b % e) + ((a % e) / m) * ((b % e) / m)
}

/// The signed value of the product of two signed values.
pub open spec fn fp_mul_val(x: int, y: int) -> int {
    if (x < 0) == (y < 0) {
        mul_num(iabs(x), iabs(y)) as int
    } else {
        -(mul_num(iabs(x), iabs(y)) as int)
    }
}

/// The signed value of the reciprocal of a signed value.
pub open spec fn fp_recip_val(v: int) -> int {
    if v < 0 {
        -((SCALE_SQ as nat / iabs(v)) as int)
    } else {
        (SCALE_SQ as nat / iabs(v)) as int
    }
}

/// The signed value of a quotient: a product with the divisor's reciprocal.
pub open spec fn fp_div_val(x: int, y: int) -> int {
    fp_mul_val(x, fp_recip_val(y))
}

/// The canonical fixed-point form of a signed value.
pub open spec fn fp_of_val(v: int) -> FPDecimal {
    FPDecimal {
        num: crate::u256::u256_of(iabs(v)),
        sign: if v < 0 {
            0
        } else {
            1
        },
    }
}

/// The canonical form represents its value and is well-formed.
pub proof fn lemma_fp_of_val(v: int)
    requires
        iabs(v) < b256(),
    ensures
        fp_of_val(v).wf(),
        fp_of_val(v).as_int() == v,
{
    crate::u256::lemma_u256_of(iabs(v));
}

impl FPDecimal {
    /// Well-formedness: the sign is a single bit, and a zero magnitude always
    /// carries the non-negative sign, so equal values are equal structures.
    pub open spec fn wf(self) -> bool {
        (self.sign == 0 || self.sign == 1) && (self.num.as_nat() == 0 ==> self.sign == 1)
    }

    /// The signed magnitude, in units of `1 / SCALE`.
    pub open spec fn as_int(self) -> int {
        if self.sign == 1 {
            self.num.as_nat() as int
        } else {
            -(self.num.as_nat() as int)
        }
    }

    /// Well-formed values with the same signed magnitude are identical.
    pub proof fn lemma_canonical(self, other: FPDecimal)
        requires
            self.wf(),
            other.wf(),
            self.as_int() == other.as_int(),
        ensures
            self == other,
    {
        self.num.lemma_as_nat_injective(other.num);
    }

    pub fn zero() -> (r: FPDecimal)
        ensures
            r.wf(),
            r.as_int() == 0,
    {
        FPDecimal { num: U256::zero(), sign: 1 }
    }

    pub fn one() -> (r: FPDecimal)
        ensures
            r.wf(),
            r.as_int() == SCALE as int,
    {
        FPDecimal { num: U256::from_u128(SCALE), sign: 1 }
    }

    /// The same magnitude with the opposite sign; a zero magnitude keeps the
    /// non-negative sign.
    pub fn negate(self) -> (r: FPDecimal)
        requires
            self.wf(),
        ensures
            r.wf(),
            r.as_int() == -self.as_int(),
    {
        if self.num.is_zero() {
            FPDecimal { num: self.num, sign: 1 }
        } else {
            FPDecimal { num: self.num, sign: 1 - self.sign }
        }
    }

    /// Sum of two signed values. When the signs agree the magnitudes add;
    /// otherwise the smaller magnitude is taken from the larger one and the
    /// result carries the sign of the larger, with an exact tie giving the
    /// canonical zero.
    pub fn _add(x: FPDecimal, y: FPDecimal) -> (r: FPDecimal)
        requires
            x.wf(),
            y.wf(),
            fits(x.as_int() + y.as_int()),
        ensures
            r.wf(),
            r.as_int() == x.as_int() + y.as_int(),
    {
        if x.sign == y.sign {
            return FPDecimal { num: x.num.add(y.num), sign: x.sign };
        }
        if y.num.lt(&x.num) {
            return FPDecimal { num: x.num.sub(y.num), sign: x.sign };
        }
        let mut sign = y.sign;
        if y.num == x.num {
            sign = 1;
        }
        FPDecimal { num: y.num.sub(x.num), sign }
    }

    /// Method form of `_add`.
    pub fn add(self, rhs: FPDecimal) -> (r: FPDecimal)
        requires
            self.wf(),
            rhs.wf(),
            fits(self.as_int() + rhs.as_int()),
        ensures
            r.wf(),
            r.as_int() == self.as_int() + rhs.as_int(),
    {
        Self::_add(self, rhs)
    }

    /// Difference of two signed values: the sum with the negated subtrahend.
    pub fn _sub(x: FPDecimal, y: FPDecimal) -> (r: FPDecimal)
        requires
            x.wf(),
            y.wf(),
            fits(x.as_int() - y.as_int()),
        ensures
            r.wf(),
            r.as_int() == x.as_int() - y.as_int(),
    {
        let neg_y = y.negate();
        FPDecimal::_add(x, neg_y)
    }

    /// Method form of `_sub`.
    pub fn sub(self, rhs: FPDecimal) -> (r: FPDecimal)
        requires
            self.wf(),
            rhs.wf(),
            fits(self.as_int() - rhs.as_int()),
        ensures
            r.wf(),
            r.as_int() == self.as_int() - rhs.as_int(),
    {
        Self::_sub(self, rhs)
    }

    /// The same magnitude with the non-negative sign.
    pub fn abs(&self) -> (r: FPDecimal)
        requires
            self.wf(),
        ensures
            r.wf(),
            r.as_int() == iabs(self.as_int()),
    {
        FPDecimal { num: self.num, sign: 1 }
    }

    /// Product of two signed values, by parts: integer-times-integer,
    /// integer-times-fraction both ways, and a reduced-precision
    /// fraction-times-fraction term. The caller rules out overflow of the
    /// resulting magnitude; every intermediate step then fits as well.
    pub fn _mul(x: FPDecimal, y: FPDecimal) -> (r: FPDecimal)
        requires
            x.wf(),
            y.wf(),
            mul_num(iabs(x.as_int()), iabs(y.as_int())) < b256(),
        ensures
            r.wf(),
            r.as_int() == fp_mul_val(x.as_int(), y.as_int()),
    {
        let ghost a = x.num.as_nat();
        let ghost b = y.num.as_nat();
        let ghost e = SCALE as nat;
        let ghost m = MUL_PRECISION as nat;
        proof {
            assert(iabs(x.as_int()) == a && iabs(y.as_int()) == b);
        }
        let mut sign: i8 = 1;
        if x.sign != y.sign {
            sign = 0;
        }
        let (x1, x2) = x.num.div_rem(SCALE);
        let (y1, y2) = y.num.div_rem(SCALE);
        proof {
            lemma_mul_num_parts(a, b);
            assert(x1.as_nat() * y1.as_nat() < b256() && x1.as_nat() * y1.as_nat() * e < b256()
                && (x2 as nat) * y1.as_nat() < b256() && x1.as_nat() * (y2 as nat) < b256())
                by (nonlinear_arith)
                requires
                    mul_num(a, b) < b256(),
                    mul_num(a, b) == x1.as_nat() * y1.as_nat() * e + (x2 as nat) * y1.as_nat() + (
                    x1.as_nat()) * (y2 as nat) + ((x2 as nat) / m) * ((y2 as nat) / m),
                    e >= 1,
                    x1.as_nat() == a / e,
                    x2 as nat == a % e,
                    y1.as_nat() == b / e,
                    y2 as nat == b % e,
            ;
        }
        let x1y1 = x1.mul(y1);
        let dec_x1y1 = x1y1.mul(U256::from_u128(SCALE));
        let x2y1 = y1.mul(U256::from_u128(x2));
        let x1y2 = x1.mul(U256::from_u128(y2));
        let x2s = x2 / MUL_PRECISION;
        let y2s = y2 / MUL_PRECISION;
        proof {
            assert(x2s * y2s < SCALE) by (nonlinear_arith)
                requires
                    x2s < 1_000_000_000u128,
                    y2s < 1_000_000_000u128,
            ;
            assert(x2s < 1_000_000_000u128 && y2s < 1_000_000_000u128) by (nonlinear_arith)
                requires
                    x2s == x2 / MUL_PRECISION,
                    y2s == y2 / MUL_PRECISION,
                    x2 < SCALE,
                    y2 < SCALE,
                    SCALE == 1_000_000_000_000_000_000u128,
                    MUL_PRECISION == 1_000_000_000u128,
            ;
        }
        let x2y2 = U256::from_u128(x2s * y2s);
        proof {
            assert(x2y1.as_nat() == (a % e) * (b / e)) by (nonlinear_arith)
                requires
                    x2y1.as_nat() == y1.as_nat() * (x2 as nat),
                    y1.as_nat() == b / e,
                    x2 as nat == a % e,
            ;
            assert(dec_x1y1.as_nat() + x2y1.as_nat() + x1y2.as_nat() + x2y2.as_nat() == mul_num(
                a,
                b,
            ));
        }
        let num = dec_x1y1.add(x2y1).add(x1y2).add(x2y2);
        if num.is_zero() {
            sign = 1;
        }
        proof {
            assert(num.as_nat() == mul_num(a, b));
            assert(fp_mul_val(x.as_int(), y.as_int()) == if (x.as_int() < 0) == (y.as_int() < 0) {
                mul_num(a, b) as int
            } else {
                -(mul_num(a, b) as int)
            });
        }
        FPDecimal { num, sign }
    }

    /// Method form of `_mul`.
    pub fn mul(self, rhs: FPDecimal) -> (r: FPDecimal)
        requires
            self.wf(),
            rhs.wf(),
            mul_num(iabs(self.as_int()), iabs(rhs.as_int())) < b256(),
        ensures
            r.wf(),
            r.as_int() == fp_mul_val(self.as_int(), rhs.as_int()),
    {
        Self::_mul(self, rhs)
    }

    /// `SCALE * SCALE / x`, with the sign of `x` preserved. Fatal on a zero
    /// magnitude, which the caller rules out.
    pub fn reciprocal(x: FPDecimal) -> (r: FPDecimal)
        requires
            x.wf(),
            x.num.as_nat() != 0,
        ensures
            r.wf(),
            r.as_int() == fp_recip_val(x.as_int()),
            r.num.as_nat() == SCALE_SQ as nat / x.num.as_nat(),
    {
        proof {
            assert(iabs(x.as_int()) == x.num.as_nat());
        }
        let q: u128 = if x.num.hi != 0 {
            proof {
                assert(SCALE_SQ as nat / x.num.as_nat() == 0) by (nonlinear_arith)
                    requires
                        x.num.as_nat() == x.num.lo as nat + x.num.hi as nat * b128(),
                        (x.num.hi as nat) >= 1,
                        SCALE_SQ < b128(),
                        b128() == 0x1_0000_0000_0000_0000_0000_0000_0000_0000nat,
                ;
            }
            0
        } else {
            SCALE_SQ / x.num.lo
        };
        let sign: i8 = if q == 0 {
            1
        } else {
            x.sign
        };
        FPDecimal { num: U256::from_u128(q), sign }
    }

    /// Quotient of two signed values: the product with the divisor's
    /// reciprocal, with a fast path when the divisor is exactly one. Fatal on
    /// a zero divisor magnitude, which the caller rules out.
    pub fn _div(x: FPDecimal, y: FPDecimal) -> (r: FPDecimal)
        requires
            x.wf(),
            y.wf(),
            y.num.as_nat() != 0,
            mul_num(iabs(x.as_int()), iabs(fp_recip_val(y.as_int()))) < b256(),
        ensures
            r.wf(),
            r.as_int() == fp_div_val(x.as_int(), y.as_int()),
    {
        if y.num.hi == 0 && y.num.lo == SCALE && y.sign == 1 {
            proof {
                assert(iabs(y.as_int()) == SCALE as nat);
                assert(SCALE_SQ as nat / (SCALE as nat) == SCALE as nat);
                lemma_mul_num_one(x.num.as_nat());
                assert(fp_div_val(x.as_int(), y.as_int()) == x.as_int());
            }
            return x;
        }
        FPDecimal::_mul(x, FPDecimal::reciprocal(y))
    }

    /// Method form of `_div`.
    pub fn div(self, rhs: FPDecimal) -> (r: FPDecimal)
        requires
            self.wf(),
            rhs.wf(),
            rhs.num.as_nat() != 0,
            mul_num(iabs(self.as_int()), iabs(fp_recip_val(rhs.as_int()))) < b256(),
        ensures
            r.wf(),
            r.as_int() == fp_div_val(self.as_int(), rhs.as_int()),
    {
        Self::_div(self, rhs)
    }

    /// A raw magnitude, in units of `1 / SCALE`, as a non-negative value.
    pub fn from_u128(x: u128) -> (r: FPDecimal)
        ensures
            r.wf(),
            r.as_int() == x as int,
    {
        FPDecimal { num: U256::from_u128(x), sign: 1 }
    }

    /// A raw magnitude from a small weight, in units of `1 / SCALE`.
    pub fn from_u32(x: u32) -> (r: FPDecimal)
        ensures
            r.wf(),
            r.as_int() == x as int,
    {
        FPDecimal { num: U256::from_u128(x as u128), sign: 1 }
    }

    /// A raw signed magnitude, in units of `1 / SCALE`.
    pub fn from_i128(x: i128) -> (r: FPDecimal)
        ensures
            r.wf(),
            r.as_int() == x as int,
    {
        if x >= 0 {
            FPDecimal { num: U256::from_u128(x as u128), sign: 1 }
        } else {
            // -x computed without overflowing at the smallest value
            let mag: u128 = ((-1i128 - x) as u128) + 1;
            FPDecimal { num: U256::from_u128(mag), sign: 0 }
        }
    }

    /// Strict order on signed values.
    pub fn lt(&self, other: &FPDecimal) -> (r: bool)
        requires
            self.wf(),
            other.wf(),
        ensures
            r == (self.as_int() < other.as_int()),
    {
        if self.sign != other.sign {
            self.sign == 0
        } else if self.sign == 1 {
            self.num.lt(&other.num)
        } else {
            other.num.lt(&self.num)
        }
    }

    /// Non-strict order on signed values.
    pub fn le(&self, other: &FPDecimal) -> (r: bool)
        requires
            self.wf(),
            other.wf(),
        ensures
            r == (self.as_int() <= other.as_int()),
    {
        !other.lt(self)
    }

    /// The low 128 bits of a magnitude.
    #[allow(non_snake_case)]
    pub fn convertTou128(num: U256) -> (r: u128)
        ensures
            r as nat == num.as_nat() % b128(),
    {
        proof {
            vstd::arithmetic::div_mod::lemma_mod_multiples_vanish(
                num.hi as int,
                num.lo as int,
                b128() as int,
            );
            vstd::arithmetic::div_mod::lemma_small_mod(num.lo as nat, b128());
        }
        num.lo
    }
}

/// `mul_num` written out in its four parts.
pub proof fn lemma_mul_num_parts(a: nat, b: nat)
    ensures
        mul_num(a, b) == (a / (SCALE as nat)) * (b / (SCALE as nat)) * (SCALE as nat) + (a % (
        SCALE as nat)) * (b / (SCALE as nat)) + (a / (SCALE as nat)) * (b % (SCALE as nat)) + ((a % (
        SCALE as nat)) / (MUL_PRECISION as nat)) * ((b % (SCALE as nat)) / (MUL_PRECISION as nat)),
{
}

/// Multiplying by one is exact: the product magnitude is the first factor.
pub proof fn lemma_mul_num_one(a: nat)
    ensures
        mul_num(a, SCALE as nat) == a,
{
    let e = SCALE as nat;
    let q = a / e;
    let r = a % e;
    vstd::arithmetic::div_mod::lemma_fundamental_div_mod(a as int, e as int);
    assert(e / e == 1 && e % e == 0) by (nonlinear_arith)
        requires
            e == 1_000_000_000_000_000_000nat,
    ;
    assert(mul_num(a, e) == q * 1 * e + r * 1 + q * 0 + (r / (MUL_PRECISION as nat)) * 0);
    assert(q * 1 * e + r * 1 + q * 0 + (r / (MUL_PRECISION as nat)) * 0 == e * q + r)
        by (nonlinear_arith);
    assert(a == e * q + r);
}

/// The computed product magnitude never exceeds the exact scaled product:
/// each part is rounded down, so value is only ever lost, never created.
pub proof fn lemma_mul_num_bound(a: nat, b: nat)
    ensures
        mul_num(a, b) * (SCALE as nat) <= a * b,
{
    let e = SCALE as nat;
    let m = MUL_PRECISION as nat;
    let a1 = a / e;
    let a2 = a % e;
    let b1 = b / e;
    let b2 = b % e;
    let f = a2 / m;
    let g = b2 / m;
    vstd::arithmetic::div_mod::lemma_fundamental_div_mod(a as int, e as int);
    vstd::arithmetic::div_mod::lemma_fundamental_div_mod(b as int, e as int);
    vstd::arithmetic::div_mod::lemma_fundamental_div_mod(a2 as int, m as int);
    vstd::arithmetic::div_mod::lemma_fundamental_div_mod(b2 as int, m as int);
    assert(m * f <= a2 && m * g <= b2);
    assert((m * f) * (m * g) <= a2 * b2) by (nonlinear_arith)
        requires
            m * f <= a2,
            m * g <= b2,
            m * f >= 0,
            m * g >= 0,
    ;
    assert(f * g * e == (m * f) * (m * g)) by (nonlinear_arith)
        requires
            e == m * m,
    ;
    assert(mul_num(a, b) == a1 * b1 * e + a2 * b1 + a1 * b2 + f * g);
    assert((a1 * b1 * e + a2 * b1 + a1 * b2 + f * g) * e <= a * b) by (nonlinear_arith)
        requires
            a == e * a1 + a2,
            b == e * b1 + b2,
            f * g * e <= a2 * b2,
            a1 >= 0,
            b1 >= 0,
            a2 >= 0,
            b2 >= 0,
            f >= 0,
            g >= 0,
            e >= 1,
    ;
}

/// The product magnitude does not depend on the order of its factors.
pub proof fn lemma_mul_num_comm(a: nat, b: nat)
    ensures
        mul_num(a, b) == mul_num(b, a),
{
    let e = SCALE as nat;
    let m = MUL_PRECISION as nat;
    assert(mul_num(a, b) == (a / e) * (b / e) * e + (a % e) * (b / e) + (a / e) * (b % e) + ((a
        % e) / m) * ((b % e) / m));
    assert(mul_num(b, a) == (b / e) * (a / e) * e + (b % e) * (a / e) + (b / e) * (a % e) + ((b
        % e) / m) * ((a % e) / m));
    assert((a / e) * (b / e) * e == (b / e) * (a / e) * e && (a % e) * (b / e) == (b / e) * (a % e)
        && (a / e) * (b % e) == (b % e) * (a / e) && ((a % e) / m) * ((b % e) / m) == ((b % e) / m)
        * ((a % e) / m)) by (nonlinear_arith);
}

/// Negating one factor negates the signed product.
pub proof fn lemma_fp_mul_val_neg(x: int, y: int)
    ensures
        fp_mul_val(-x, y) == -fp_mul_val(x, y),
{
    if x == 0 {
        lemma_mul_num_zero(iabs(y));
    }
}

/// A zero factor gives a zero product magnitude.
pub proof fn lemma_mul_num_zero(a: nat)
    ensures
        mul_num(a, 0) == 0,
        mul_num(0, a) == 0,
{
    let e = SCALE as nat;
    let m = MUL_PRECISION as nat;
    vstd::arithmetic::div_mod::lemma_div_of0(e as int);
    vstd::arithmetic::div_mod::lemma_div_of0(m as int);
    vstd::arithmetic::div_mod::lemma_small_mod(0, e);
    assert(mul_num(a, 0) == (a / e) * 0 * e + (a % e) * 0 + (a / e) * 0 + ((a % e) / m) * 0);
    assert((a / e) * 0 * e == 0 && (a % e) * 0 == 0 && (a / e) * 0 == 0 && ((a % e) / m) * 0 == 0)
        by (nonlinear_arith);
    assert(mul_num(0, a) == 0 * (a / e) * e + 0 * (a / e) + 0 * (a % e) + 0 * ((a % e) / m));
    assert(0 * (a / e) * e == 0 && 0 * (a / e) == 0 && 0 * (a % e) == 0 && 0 * ((a % e) / m) == 0)
        by (nonlinear_arith);
}

/// A product magnitude stays below any cap that the exact scaled product
/// stays below.
pub proof fn lemma_mul_num_le(a: nat, b: nat, cap: nat)
    requires
        a * b <= (SCALE as nat) * cap,
    ensures
        mul_num(a, b) <= cap,
{
    lemma_mul_num_bound(a, b);
    assert(mul_num(a, b) <= cap) by (nonlinear_arith)
        requires
            mul_num(a, b) * (SCALE as nat) <= a * b,
            a * b <= (SCALE as nat) * cap,
            (SCALE as nat) >= 1,
    ;
}

/// A product magnitude fits in 256 bits whenever the exact scaled product
/// does.
pub proof fn lemma_mul_num_fits(a: nat, b: nat)
    requires
        a * b < (SCALE as nat) * b256(),
    ensures
        mul_num(a, b) < b256(),
{
    lemma_mul_num_bound(a, b);
    assert(mul_num(a, b) < b256()) by (nonlinear_arith)
        requires
            mul_num(a, b) * (SCALE as nat) <= a * b,
            a * b < (SCALE as nat) * b256(),
            (SCALE as nat) >= 1,
    ;
}

/// With a fixed second factor, a larger first magnitude never yields a
/// smaller product magnitude.
pub proof fn lemma_mul_num_monotone(lesser: nat, greater: nat, c: nat)
    requires
        lesser <= greater,
    ensures
        mul_num(lesser, c) <= mul_num(greater, c),
{
    let e = SCALE as nat;
    let m = MUL_PRECISION as nat;
    let q1 = lesser / e;
    let r1 = lesser % e;
    let q2 = greater / e;
    let r2 = greater % e;
    let u = c / e;
    let v = c % e;
    let f1 = r1 / m;
    let f2 = r2 / m;
    let g = v / m;
    vstd::arithmetic::div_mod::lemma_fundamental_div_mod(lesser as int, e as int);
    vstd::arithmetic::div_mod::lemma_fundamental_div_mod(greater as int, e as int);
    vstd::arithmetic::div_mod::lemma_fundamental_div_mod(r1 as int, m as int);
    vstd::arithmetic::div_mod::lemma_fundamental_div_mod(v as int, m as int);
    vstd::arithmetic::div_mod::lemma_div_is_ordered(lesser as int, greater as int, e as int);
    assert(mul_num(lesser, c) == q1 * u * e + r1 * u + q1 * v + f1 * g);
    assert(mul_num(greater, c) == q2 * u * e + r2 * u + q2 * v + f2 * g);
    if q1 == q2 {
        vstd::arithmetic::div_mod::lemma_div_is_ordered(r1 as int, r2 as int, m as int);
        assert(q1 * u * e + r1 * u + q1 * v + f1 * g <= q2 * u * e + r2 * u + q2 * v + f2 * g)
            by (nonlinear_arith)
            requires
                q1 == q2,
                r1 <= r2,
                f1 <= f2,
                u >= 0,
                v >= 0,
                g >= 0,
                e >= 0,
        ;
    } else {
        assert(f1 <= m - 1) by (nonlinear_arith)
            requires
                m * f1 <= r1,
                r1 < e,
                e == m * m,
                m >= 1,
        ;
        assert(f1 * g <= v) by (nonlinear_arith)
            requires
                f1 <= m - 1,
                m * g <= v,
                g >= 0,
                m >= 1,
        ;
        assert(q1 * u * e + r1 * u + q1 * v + f1 * g <= q2 * u * e + r2 * u + q2 * v + f2 * g)
            by (nonlinear_arith)
            requires
                q1 + 1 <= q2,
                r1 <= e - 1,
                f1 * g <= v,
                r2 >= 0,
                f2 >= 0,
                g >= 0,
                u >= 0,
                v >= 0,
                q1 >= 0,
                e >= 1,
        ;
    }
}

} // verus!
