//! A 256-bit unsigned integer built from two 128-bit halves.
//!
//! Every operation carries an exact contract over `as_nat`, the mathematical
//! value of the pair of halves.

use vstd::prelude::*;

verus! {

/// 2^64, as a spec-level value.
pub open spec fn b64() -> nat {
    0x1_0000_0000_0000_0000nat
}

/// 2^128, as a spec-level value.
pub open spec fn b128() -> nat {
    0x1_0000_0000_0000_0000_0000_0000_0000_0000nat
}

/// 2^256, the first value that does not fit in a `U256`.
pub open spec fn b256() -> nat {
    0x1_0000_0000_0000_0000_0000_0000_0000_0000_0000_0000_0000_0000_0000_0000_0000_0000nat
}

/// An unsigned 256-bit integer: `lo` holds the low 128 bits, `hi` the high 128.
#[derive(Clone, Copy, PartialEq, Eq, Structural, Debug)]
pub struct U256 {
    pub lo: u128,
    pub hi: u128,
}

impl U256 {
    /// The mathematical value of this integer.
    pub open spec fn as_nat(self) -> nat {
        self.lo as nat + self.hi as nat * b128()
    }

    pub proof fn lemma_as_nat_bound(self)
        ensures
            self.as_nat() < b256(),
    {
        assert(self.hi as nat * b128() <= (b128() - 1) * b128()) by (nonlinear_arith)
            requires
                (self.hi as nat) <= b128() - 1,
        ;
    }

    /// Two values with the same `as_nat` are the same pair of halves.
    pub proof fn lemma_as_nat_injective(self, other: U256)
        requires
            self.as_nat() == other.as_nat(),
        ensures
            self == other,
    {
        assert(self.lo == other.lo && self.hi == other.hi) by (nonlinear_arith)
            requires
                self.lo as nat + self.hi as nat * b128() == other.lo as nat + other.hi as nat
                    * b128(),
                self.lo < b128(),
                other.lo < b128(),
        ;
    }

    pub fn zero() -> (r: U256)
        ensures
            r.as_nat() == 0,
    {
        U256 { lo: 0, hi: 0 }
    }

    pub fn from_u128(x: u128) -> (r: U256)
        ensures
            r.as_nat() == x as nat,
    {
        U256 { lo: x, hi: 0 }
    }

    /// Builds a value from four 64-bit words, least significant first.
    pub fn from_words(w0: u64, w1: u64, w2: u64, w3: u64) -> (r: U256)
        ensures
            r.as_nat() == w0 as nat + w1 as nat * b64() + w2 as nat * b128() + w3 as nat * b64()
                * b128(),
    {
        let lo: u128 = w0 as u128 + (w1 as u128) * 0x1_0000_0000_0000_0000u128;
        let hi: u128 = w2 as u128 + (w3 as u128) * 0x1_0000_0000_0000_0000u128;
        U256 { lo, hi }
    }

    pub fn is_zero(&self) -> (r: bool)
        ensures
            r == (self.as_nat() == 0),
    {
        proof {
            if self.lo == 0 && self.hi == 0 {
                assert(self.as_nat() == 0);
            } else if self.hi != 0 {
                assert((self.hi as nat) * b128() >= b128()) by (nonlinear_arith)
                    requires
                        (self.hi as nat) >= 1,
                ;
            }
        }
        self.lo == 0 && self.hi == 0
    }

    pub fn lt(&self, other: &U256) -> (r: bool)
        ensures
            r == (self.as_nat() < other.as_nat()),
    {
        proof {
            lemma_halves_ordering(*self, *other);
        }
        self.hi < other.hi || (self.hi == other.hi && self.lo < other.lo)
    }

    pub fn le(&self, other: &U256) -> (r: bool)
        ensures
            r == (self.as_nat() <= other.as_nat()),
    {
        proof {
            lemma_halves_ordering(*self, *other);
        }
        self.hi < other.hi || (self.hi == other.hi && self.lo <= other.lo)
    }

    /// Sum of two values; the caller rules out overflow.
    pub fn add(self, other: U256) -> (r: U256)
        requires
            self.as_nat() + other.as_nat() < b256(),
        ensures
            r.as_nat() == self.as_nat() + other.as_nat(),
    {
        let (lo, carry): (u128, u128) = if self.lo <= u128::MAX - other.lo {
            (self.lo + other.lo, 0)
        } else {
            // lo + other.lo - 2^128, reached without intermediate overflow
            ((self.lo - (u128::MAX - other.lo)) - 1, 1)
        };
        proof {
            assert(lo as nat + carry as nat * b128() == self.lo as nat + other.lo as nat);
            assert((self.hi as nat + other.hi as nat + carry as nat) * b128() == self.hi as nat
                * b128() + other.hi as nat * b128() + carry as nat * b128()) by (nonlinear_arith);
            assert(self.hi as nat + other.hi as nat + (carry as nat) < b128()) by (nonlinear_arith)
                requires
                    self.as_nat() + other.as_nat() < b256(),
                    self.as_nat() == self.lo as nat + self.hi as nat * b128(),
                    other.as_nat() == other.lo as nat + other.hi as nat * b128(),
                    lo as nat + carry as nat * b128() == self.lo as nat + other.lo as nat,
                    lo < b128(),
                    (carry as nat) <= 1,
            ;
        }
        let hi = self.hi + other.hi + carry;
        U256 { lo, hi }
    }

    /// Difference of two values; the caller keeps it non-negative.
    pub fn sub(self, other: U256) -> (r: U256)
        requires
            other.as_nat() <= self.as_nat(),
        ensures
            r.as_nat() == self.as_nat() - other.as_nat(),
    {
        let (lo, borrow): (u128, u128) = if self.lo >= other.lo {
            (self.lo - other.lo, 0)
        } else {
            // lo + 2^128 - other.lo, reached without intermediate overflow
            (((u128::MAX - other.lo) + 1) + self.lo, 1)
        };
        proof {
            assert(lo as nat == self.lo as nat + borrow as nat * b128() - other.lo as nat);
            lemma_halves_ordering(other, self);
            assert((self.hi as nat) >= other.hi as nat + (borrow as nat)) by (nonlinear_arith)
                requires
                    self.lo as nat + self.hi as nat * b128() >= other.lo as nat + (other.hi as nat)
                        * b128(),
                    self.lo < b128(),
                    other.lo < b128(),
                    (borrow as nat) <= 1,
                    borrow == 1 ==> self.lo < other.lo,
            ;
            assert((self.hi as nat - other.hi as nat - borrow as nat) * b128() == self.hi as nat
                * b128() - other.hi as nat * b128() - borrow as nat * b128()) by (nonlinear_arith);
        }
        let hi = (self.hi - other.hi) - borrow;
        U256 { lo, hi }
    }
}

/// The full product of two 128-bit values, which always fits in 256 bits.
pub fn mul_u128(a: u128, b: u128) -> (r: U256)
    ensures
        r.as_nat() == a as nat * b as nat,
{
    let w: u128 = 0x1_0000_0000_0000_0000u128;
    let a1 = a / w;
    let a0 = a % w;
    let b1 = b / w;
    let b0 = b % w;
    proof {
        assert(a1 * w + a0 == a && b1 * w + b0 == b) by (nonlinear_arith)
            requires
                a1 == a / w,
                a0 == a % w,
                b1 == b / w,
                b0 == b % w,
                w == 0x1_0000_0000_0000_0000u128,
        ;
        assert(a1 as nat * (b1 as nat) < b128() && a1 as nat * (b0 as nat) < b128() && a0 as nat
            * (b1 as nat) < b128() && a0 as nat * (b0 as nat) < b128()) by (nonlinear_arith)
            requires
                a1 < 0x1_0000_0000_0000_0000u128,
                a0 < 0x1_0000_0000_0000_0000u128,
                b1 < 0x1_0000_0000_0000_0000u128,
                b0 < 0x1_0000_0000_0000_0000u128,
        ;
    }
    let p00 = a0 * b0;
    let p01 = a0 * b1;
    let p10 = a1 * b0;
    let p11 = a1 * b1;
    let t1 = p00 / w + p01 % w + p10 % w;
    let t2 = t1 / w + p01 / w + p10 / w + p11 % w;
    let t3 = t2 / w + p11 / w;
    proof {
        let pr = a as nat * b as nat;
        assert(pr == p11 as nat * b128() + p01 as nat * b64() + p10 as nat * b64() + p00 as nat)
            by (nonlinear_arith)
            requires
                pr == a as nat * b as nat,
                a1 * w + a0 == a,
                b1 * w + b0 == b,
                p00 == a0 as nat * b0 as nat,
                p01 == a0 as nat * b1 as nat,
                p10 == a1 as nat * b0 as nat,
                p11 == a1 as nat * b1 as nat,
                w == 0x1_0000_0000_0000_0000u128,
                b64() == w as nat,
                b128() == w as nat * w as nat,
        ;
        // rewrite each partial product into its two 64-bit words
        assert forall|p: u128| #[trigger] (p / w) * w + p % w == p by {
            vstd::arithmetic::div_mod::lemma_fundamental_div_mod(p as int, w as int);
        }
        let low = (p00 % w) as nat + (t1 % w) * b64() + (t2 % w) * b128() + t3 as nat * b64()
            * b128();
        assert(pr == low) by (nonlinear_arith)
            requires
                pr == p11 as nat * b128() + p01 as nat * b64() + p10 as nat * b64() + p00 as nat,
                (p00 / w) * w + p00 % w == p00,
                (p01 / w) * w + p01 % w == p01,
                (p10 / w) * w + p10 % w == p10,
                (p11 / w) * w + p11 % w == p11,
                (t1 / w) * w + t1 % w == t1,
                (t2 / w) * w + t2 % w == t2,
                t1 == p00 / w + p01 % w + p10 % w,
                t2 == t1 / w + p01 / w + p10 / w + p11 % w,
                t3 == t2 / w + p11 / w,
                low == (p00 % w) as nat + (t1 % w) * b64() + (t2 % w) * b128() + t3 as nat * b64()
                    * b128(),
                w == 0x1_0000_0000_0000_0000u128,
                b64() == w as nat,
                b128() == w as nat * w as nat,
        ;
        assert(pr < b256()) by (nonlinear_arith)
            requires
                pr == a as nat * b as nat,
                a < b128(),
                b < b128(),
                b256() == b128() * b128(),
        ;
        assert((t3 as nat) < b64()) by (nonlinear_arith)
            requires
                pr == low,
                pr < b256(),
                low == (p00 % w) as nat + (t1 % w) * b64() + (t2 % w) * b128() + t3 as nat * b64()
                    * b128(),
                p00 % w >= 0,
                t1 % w >= 0,
                t2 % w >= 0,
                t3 >= 0,
                b64() == 0x1_0000_0000_0000_0000nat,
                b128() == 0x1_0000_0000_0000_0000_0000_0000_0000_0000nat,
                b256()
                    == 0x1_0000_0000_0000_0000_0000_0000_0000_0000_0000_0000_0000_0000_0000_0000_0000_0000nat,
        ;
    }
    let lo = p00 % w + (t1 % w) * w;
    let hi = t2 % w + t3 * w;
    proof {
        assert(lo as nat + hi as nat * b128() == a as nat * b as nat) by (nonlinear_arith)
            requires
                lo as nat == (p00 % w) as nat + (t1 % w) * w,
                hi as nat == (t2 % w) as nat + t3 * w,
                a as nat * b as nat == (p00 % w) as nat + (t1 % w) * b64() + (t2 % w) * b128()
                    + t3 as nat * b64() * b128(),
                w as nat == b64(),
                b128() == b64() * b64(),
        ;
    }
    U256 { lo, hi }
}

impl U256 {
    /// Product of two values; the caller rules out overflow.
    pub fn mul(self, other: U256) -> (r: U256)
        requires
            self.as_nat() * other.as_nat() < b256(),
        ensures
            r.as_nat() == self.as_nat() * other.as_nat(),
    {
        proof {
            assert(self.as_nat() * other.as_nat() == self.lo as nat * other.lo as nat + (
            self.hi as nat * other.lo as nat + self.lo as nat * other.hi as nat) * b128() + (
            self.hi as nat * other.hi as nat) * b128() * b128()) by (nonlinear_arith)
                requires
                    self.as_nat() == self.lo as nat + self.hi as nat * b128(),
                    other.as_nat() == other.lo as nat + other.hi as nat * b128(),
            ;
            if self.hi as nat * (other.hi as nat) >= 1 {
                assert((self.hi as nat * other.hi as nat) * b128() * b128() >= b256())
                    by (nonlinear_arith)
                    requires
                        self.hi as nat * (other.hi as nat) >= 1,
                        b256() == b128() * b128(),
                ;
            }
        }
        let ll = mul_u128(self.lo, other.lo);
        let m1 = mul_u128(self.hi, other.lo);
        let m2 = mul_u128(self.lo, other.hi);
        proof {
            let mid = m1.as_nat() + m2.as_nat();
            assert(mid * b128() <= self.as_nat() * other.as_nat()) by (nonlinear_arith)
                requires
                    self.as_nat() * other.as_nat() == ll.as_nat() + mid * b128(),
            ;
            assert(mid < b128()) by (nonlinear_arith)
                requires
                    mid * b128() < b256(),
                    b256() == b128() * b128(),
            ;
            assert(m1.hi == 0 && m2.hi == 0) by (nonlinear_arith)
                requires
                    m1.as_nat() + m2.as_nat() < b128(),
                    m1.as_nat() == m1.lo as nat + m1.hi as nat * b128(),
                    m2.as_nat() == m2.lo as nat + m2.hi as nat * b128(),
            ;
            assert((ll.hi as nat) + mid < b128()) by (nonlinear_arith)
                requires
                    ll.lo as nat + (ll.hi as nat + mid) * b128() == self.as_nat() * other.as_nat(),
                    self.as_nat() * other.as_nat() < b256(),
                    b256() == b128() * b128(),
            ;
        }
        let hi = ll.hi + m1.lo + m2.lo;
        proof {
            assert(ll.lo as nat + hi as nat * b128() == self.as_nat() * other.as_nat())
                by (nonlinear_arith)
                requires
                    hi as nat == ll.hi as nat + m1.lo as nat + m2.lo as nat,
                    m1.lo as nat == m1.as_nat(),
                    m2.lo as nat == m2.as_nat(),
                    ll.as_nat() == ll.lo as nat + ll.hi as nat * b128(),
                    self.as_nat() * other.as_nat() == ll.as_nat() + (m1.as_nat() + m2.as_nat())
                        * b128(),
            ;
        }
        U256 { lo: ll.lo, hi }
    }
}

/// Pins down the powers of two that the division routine mentions.
proof fn lemma_pow2_anchors()
    ensures
        vstd::arithmetic::power2::pow2(0) == 1,
        vstd::arithmetic::power2::pow2(64) == b64(),
        vstd::arithmetic::power2::pow2(127) * 2 == b128(),
        vstd::arithmetic::power2::pow2(128) == b128(),
        vstd::arithmetic::power2::pow2(255) * 2 == b256(),
        vstd::arithmetic::power2::pow2(256) == b256(),
{
    vstd::arithmetic::power2::lemma2_to64();
    vstd::arithmetic::power2::lemma2_to64_rest();
    vstd::arithmetic::power2::lemma_pow2_adds(64, 63);
    vstd::arithmetic::power2::lemma_pow2_adds(64, 64);
    assert(vstd::arithmetic::power2::pow2(127)
        == 0x8000_0000_0000_0000_0000_0000_0000_0000nat);
    assert(vstd::arithmetic::power2::pow2(128)
        == 0x1_0000_0000_0000_0000_0000_0000_0000_0000nat);
    vstd::arithmetic::power2::lemma_pow2_adds(128, 127);
    assert(vstd::arithmetic::power2::pow2(255)
        == 0x8000_0000_0000_0000_0000_0000_0000_0000_0000_0000_0000_0000_0000_0000_0000_0000nat);
    vstd::arithmetic::power2::lemma_pow2_adds(128, 128);
    assert(vstd::arithmetic::power2::pow2(256)
        == 0x1_0000_0000_0000_0000_0000_0000_0000_0000_0000_0000_0000_0000_0000_0000_0000_0000nat);
}

impl U256 {
    /// The high bit of the value.
    fn top_bit(&self) -> (b: u128)
        ensures
            b as nat == self.as_nat() / (b256() / 2),
            b <= 1,
    {
        let b = self.hi / 0x8000_0000_0000_0000_0000_0000_0000_0000u128;
        proof {
            let eta = b as nat;
            let rest = self.lo as nat + (self.hi as nat % 0x8000_0000_0000_0000_0000_0000_0000_0000nat)
                * b128();
            assert(self.as_nat() == eta * (b256() / 2) + rest && rest < b256() / 2)
                by (nonlinear_arith)
                requires
                    eta == self.hi as nat / 0x8000_0000_0000_0000_0000_0000_0000_0000nat,
                    rest == self.lo as nat + (self.hi as nat
                        % 0x8000_0000_0000_0000_0000_0000_0000_0000nat) * b128(),
                    self.as_nat() == self.lo as nat + self.hi as nat * b128(),
                    self.lo < b128(),
                    b128() == 0x1_0000_0000_0000_0000_0000_0000_0000_0000nat,
                    b256() == 0x1_0000_0000_0000_0000_0000_0000_0000_0000_0000_0000_0000_0000_0000_0000_0000_0000nat,
            ;
            vstd::arithmetic::div_mod::lemma_fundamental_div_mod_converse(
                self.as_nat() as int,
                (b256() / 2) as int,
                eta as int,
                rest as int,
            );
        }
        b
    }

    /// The value doubled, truncated to 256 bits.
    fn shl1_wrapping(self) -> (r: U256)
        ensures
            r.as_nat() == (2 * self.as_nat()) % b256(),
    {
        let half: u128 = 0x8000_0000_0000_0000_0000_0000_0000_0000u128;
        let hi = (self.hi % half) * 2 + self.lo / half;
        let lo = (self.lo % half) * 2;
        proof {
            let eta = self.hi as nat / half as nat;
            let r2 = lo as nat + hi as nat * b128();
            assert(2 * self.as_nat() == eta * b256() + r2 && r2 < b256()) by (nonlinear_arith)
                requires
                    eta == self.hi as nat / half as nat,
                    (self.hi as nat / half as nat) * half as nat + self.hi as nat % half as nat
                        == self.hi as nat,
                    (self.lo as nat / half as nat) * half as nat + self.lo as nat % half as nat
                        == self.lo as nat,
                    self.lo as nat / half as nat <= 1,
                    hi as nat == (self.hi as nat % half as nat) * 2 + self.lo as nat / half as nat,
                    lo as nat == (self.lo as nat % half as nat) * 2,
                    self.as_nat() == self.lo as nat + self.hi as nat * b128(),
                    r2 == lo as nat + hi as nat * b128(),
                    half as nat == 0x8000_0000_0000_0000_0000_0000_0000_0000nat,
                    b128() == 0x1_0000_0000_0000_0000_0000_0000_0000_0000nat,
                    b256() == 0x1_0000_0000_0000_0000_0000_0000_0000_0000_0000_0000_0000_0000_0000_0000_0000_0000nat,
            ;
            vstd::arithmetic::div_mod::lemma_fundamental_div_mod_converse(
                (2 * self.as_nat()) as int,
                b256() as int,
                eta as int,
                r2 as int,
            );
        }
        U256 { lo, hi }
    }

    /// Quotient and remainder of division by a 128-bit divisor, by binary
    /// long division over the 256 bits of the dividend.
    pub fn div_rem(self, d: u128) -> (res: (U256, u128))
        requires
            d != 0,
        ensures
            res.0.as_nat() == self.as_nat() / d as nat,
            res.1 as nat == self.as_nat() % d as nat,
    {
        let x = self;
        let dd = U256::from_u128(d);
        let one = U256::from_u128(1);
        let mut q = U256::zero();
        let mut r = U256::zero();
        let mut xs = self;
        let mut i: usize = 0;
        proof {
            lemma_pow2_anchors();
            vstd::arithmetic::power2::lemma_pow2_pos(256);
            assert(x.as_nat() % b256() == x.as_nat()) by {
                x.lemma_as_nat_bound();
                vstd::arithmetic::div_mod::lemma_small_mod(x.as_nat(), b256());
            }
            assert(x.as_nat() / vstd::arithmetic::power2::pow2(256) == 0) by {
                x.lemma_as_nat_bound();
                vstd::arithmetic::div_mod::lemma_basic_div(
                    x.as_nat() as int,
                    vstd::arithmetic::power2::pow2(256) as int,
                );
            }
        }
        while i < 256
            invariant
                d != 0,
                dd.as_nat() == d as nat,
                one.as_nat() == 1,
                i <= 256,
                xs.as_nat() == (x.as_nat() * vstd::arithmetic::power2::pow2(i as nat)) % b256(),
                r.as_nat() < d as nat,
                q.as_nat() * d as nat + r.as_nat() == x.as_nat() / vstd::arithmetic::power2::pow2(
                    (256 - i) as nat,
                ),
                q.as_nat() < vstd::arithmetic::power2::pow2(i as nat),
            decreases 256 - i,
        {
            let ghost xn = x.as_nat();
            let ghost p_i = vstd::arithmetic::power2::pow2(i as nat);
            let ghost p_rem = vstd::arithmetic::power2::pow2((256 - i) as nat);
            let ghost p_rem1 = vstd::arithmetic::power2::pow2((255 - i) as nat);
            let b = xs.top_bit();
            proof {
                lemma_pow2_anchors();
                vstd::arithmetic::power2::lemma2_to64();
                lemma_top_bit_is_next_bit(xn, i as nat);
                assert(b as nat == (xn / p_rem1) % 2);
                // the next prefix extends the current one by the bit b
                vstd::arithmetic::power2::lemma_pow2_adds((255 - i) as nat, 1);
                vstd::arithmetic::power2::lemma_pow2_pos((255 - i) as nat);
                vstd::arithmetic::div_mod::lemma_div_denominator(xn as int, p_rem1 as int, 2);
                vstd::arithmetic::div_mod::lemma_fundamental_div_mod(
                    (xn / p_rem1) as int,
                    2,
                );
                assert(xn / p_rem1 == 2 * (xn / p_rem) + b as nat);
            }
            xs = xs.shl1_wrapping();
            proof {
                vstd::arithmetic::div_mod::lemma_mul_mod_noop_left(
                    2 * (xn * p_i) as int,
                    1,
                    b256() as int,
                );
                vstd::arithmetic::div_mod::lemma_mod_mod(
                    (2 * (xn * p_i)) as int,
                    2,
                    (b256() / 2) as int,
                );
                // 2 * (xn * pow2(i)) == xn * pow2(i + 1)
                vstd::arithmetic::power2::lemma_pow2_adds(i as nat, 1);
                vstd::arithmetic::power2::lemma2_to64();
                lemma_pow2_anchors();
                assert(2 * (xn * p_i) == xn * vstd::arithmetic::power2::pow2((i + 1) as nat))
                    by (nonlinear_arith)
                    requires
                        vstd::arithmetic::power2::pow2((i + 1) as nat) == p_i * 2,
                ;
                assert((2 * ((xn * p_i) % b256())) % b256() == (2 * (xn * p_i)) % b256()) by {
                    vstd::arithmetic::div_mod::lemma_mul_mod_noop_right(
                        2,
                        (xn * p_i) as int,
                        b256() as int,
                    );
                }
            }
            proof {
                // bounds needed by the additions below
                assert(2 * r.as_nat() + 1 < b256());
                assert(2 * q.as_nat() + 1 < b256()) by {
                    lemma_pow2_anchors();
                    if i < 255 {
                        vstd::arithmetic::power2::lemma_pow2_strictly_increases(i as nat, 255);
                    }
                    assert(vstd::arithmetic::power2::pow2(i as nat)
                        <= vstd::arithmetic::power2::pow2(255));
                }
            }
            r = r.add(r).add(U256 { lo: b, hi: 0 });
            q = q.add(q);
            let ghost q2 = q.as_nat();
            let ghost r2 = r.as_nat();
            if dd.le(&r) {
                r = r.sub(dd);
                q = q.add(one);
            }
            proof {
                let dn = d as nat;
                assert(q.as_nat() * dn + r.as_nat() == 2 * (q2 / 2 * dn + (r2 - b as nat) / 2)
                    + b as nat) by (nonlinear_arith)
                    requires
                        r2 == 2 * ((r2 - b as nat) / 2) + b as nat,
                        q2 == 2 * (q2 / 2),
                        dn >= 1,
                        (b as nat) <= 1,
                        if r2 >= dn {
                            q.as_nat() == q2 + 1 && r.as_nat() == r2 - dn
                        } else {
                            q.as_nat() == q2 && r.as_nat() == r2
                        },
                ;
                assert(q.as_nat() * dn + r.as_nat() == xn / p_rem1);
                assert(r.as_nat() < dn);
                assert(q.as_nat() < vstd::arithmetic::power2::pow2((i + 1) as nat)) by {
                    vstd::arithmetic::power2::lemma_pow2_adds((255 - i) as nat, (i + 1) as nat);
                    vstd::arithmetic::power2::lemma_pow2_pos((255 - i) as nat);
                    vstd::arithmetic::power2::lemma_pow2_pos((i + 1) as nat);
                    x.lemma_as_nat_bound();
                    vstd::arithmetic::div_mod::lemma_multiply_divide_lt(
                        xn as int,
                        p_rem1 as int,
                        vstd::arithmetic::power2::pow2((i + 1) as nat) as int,
                    );
                    assert(q.as_nat() * dn >= q.as_nat()) by (nonlinear_arith)
                        requires
                            dn >= 1,
                    ;
                }
            }
            i += 1;
        }
        proof {
            lemma_pow2_anchors();
            vstd::arithmetic::power2::lemma2_to64();
            vstd::arithmetic::div_mod::lemma_div_basics(x.as_nat() as int);
            vstd::arithmetic::div_mod::lemma_fundamental_div_mod_converse(
                x.as_nat() as int,
                d as int,
                q.as_nat() as int,
                r.as_nat() as int,
            );
            assert(r.hi == 0) by (nonlinear_arith)
                requires
                    r.lo as nat + r.hi as nat * b128() < b128(),
            ;
        }
        (q, r.lo)
    }
}

/// Relates the top bit of the shifted window to the next bit of the dividend.
proof fn lemma_top_bit_is_next_bit(xn: nat, i: nat)
    requires
        i < 256,
        xn < b256(),
    ensures
        ((xn * vstd::arithmetic::power2::pow2(i)) % b256()) / (b256() / 2) == (xn
            / vstd::arithmetic::power2::pow2((255 - i) as nat)) % 2,
{
    let p_i = vstd::arithmetic::power2::pow2(i);
    let p_co = vstd::arithmetic::power2::pow2((256 - i) as nat);
    let p_lo = vstd::arithmetic::power2::pow2((255 - i) as nat);
    let v = xn % p_co;
    lemma_pow2_anchors();
    vstd::arithmetic::power2::lemma2_to64();
    vstd::arithmetic::power2::lemma_pow2_adds(i, (256 - i) as nat);
    vstd::arithmetic::power2::lemma_pow2_adds(i, (255 - i) as nat);
    vstd::arithmetic::power2::lemma_pow2_adds((255 - i) as nat, 1);
    vstd::arithmetic::power2::lemma_pow2_pos(i);
    vstd::arithmetic::power2::lemma_pow2_pos((255 - i) as nat);
    vstd::arithmetic::power2::lemma_pow2_pos((256 - i) as nat);
    // (xn * 2^i) % 2^256 == (xn % 2^(256-i)) * 2^i
    vstd::arithmetic::div_mod::lemma_fundamental_div_mod(xn as int, p_co as int);
    let u = xn / p_co;
    assert((xn * p_i) == (u * b256() + v * p_i)) by (nonlinear_arith)
        requires
            xn == p_co * u + v,
            b256() == p_i * p_co,
    ;
    vstd::arithmetic::div_mod::lemma_mod_multiples_vanish(
        u as int,
        (v * p_i) as int,
        b256() as int,
    );
    assert(v * p_i < b256()) by (nonlinear_arith)
        requires
            v < p_co,
            b256() == p_i * p_co,
            p_i >= 1,
    ;
    vstd::arithmetic::div_mod::lemma_small_mod(v * p_i, b256());
    assert((xn * p_i) % b256() == v * p_i);
    // (v * 2^i) / 2^255 == v / 2^(255-i)
    let bit = v / p_lo;
    vstd::arithmetic::div_mod::lemma_fundamental_div_mod(v as int, p_lo as int);
    assert(v * p_i == bit * (b256() / 2) + (v % p_lo) * p_i) by (nonlinear_arith)
        requires
            v == p_lo * bit + v % p_lo,
            b256() / 2 == p_lo * p_i,
    ;
    assert((v % p_lo) * p_i < b256() / 2) by (nonlinear_arith)
        requires
            v % p_lo < p_lo,
            b256() / 2 == p_lo * p_i,
            p_i >= 1,
    ;
    assert(bit <= 1) by (nonlinear_arith)
        requires
            bit == v / p_lo,
            v < p_co,
            p_co == 2 * p_lo,
            p_lo >= 1,
    ;
    vstd::arithmetic::div_mod::lemma_fundamental_div_mod_converse(
        (v * p_i) as int,
        (b256() / 2) as int,
        bit as int,
        ((v % p_lo) * p_i) as int,
    );
    // v / 2^(255-i) == (xn / 2^(255-i)) % 2
    vstd::arithmetic::div_mod::lemma_mod_breakdown(xn as int, p_lo as int, 2);
    assert(v == p_lo * ((xn / p_lo) % 2) + xn % p_lo);
    assert(bit == (xn / p_lo) % 2) by {
        vstd::arithmetic::div_mod::lemma_mod_division_less_than_divisor(xn as int, p_lo as int);
        assert(((xn / p_lo) % 2) * p_lo + xn % p_lo == p_lo * ((xn / p_lo) % 2) + xn % p_lo)
            by (nonlinear_arith);
        vstd::arithmetic::div_mod::lemma_fundamental_div_mod_converse(
            v as int,
            p_lo as int,
            ((xn / p_lo) % 2) as int,
            (xn % p_lo) as int,
        );
    }
}

/// The canonical pair of halves holding a given value.
pub open spec fn u256_of(n: nat) -> U256 {
    U256 { lo: (n % b128()) as u128, hi: (n / b128()) as u128 }
}

/// Any value below 2^256 is represented exactly by its canonical halves.
pub proof fn lemma_u256_of(n: nat)
    requires
        n < b256(),
    ensures
        u256_of(n).as_nat() == n,
{
    vstd::arithmetic::div_mod::lemma_fundamental_div_mod(n as int, b128() as int);
    vstd::arithmetic::div_mod::lemma_mod_division_less_than_divisor(n as int, b128() as int);
    assert(n / b128() < b128()) by (nonlinear_arith)
        requires
            n < b256(),
            b256() == b128() * b128(),
            b128() * (n / b128()) + n % b128() == n,
            n % b128() >= 0,
    ;
    assert(u256_of(n).as_nat() == n % b128() + (n / b128()) * b128());
    assert((n / b128()) * b128() == b128() * (n / b128())) by (nonlinear_arith);
}

/// Comparing half-by-half agrees with comparing values.
proof fn lemma_halves_ordering(a: U256, b: U256)
    ensures
        a.as_nat() < b.as_nat() <==> (a.hi < b.hi || (a.hi == b.hi && a.lo < b.lo)),
        a.as_nat() <= b.as_nat() <==> (a.hi < b.hi || (a.hi == b.hi && a.lo <= b.lo)),
{
    if a.hi < b.hi {
        assert(a.lo as nat + a.hi as nat * b128() < b.lo as nat + b.hi as nat * b128())
            by (nonlinear_arith)
            requires
                a.hi < b.hi,
                a.lo < b128(),
        ;
    } else if a.hi > b.hi {
        assert(b.lo as nat + b.hi as nat * b128() < a.lo as nat + a.hi as nat * b128())
            by (nonlinear_arith)
            requires
                b.hi < a.hi,
                b.lo < b128(),
        ;
    }
}

} // verus!
