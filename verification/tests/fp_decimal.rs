use basket_math::fp::{FPDecimal, MUL_PRECISION, SCALE};
use basket_math::u256::U256;

fn whole(n: u64, sign: i8) -> FPDecimal {
    FPDecimal { num: U256::from_words(n, 0, 0, 0).mul(FPDecimal::one().num), sign }
}

fn raw(num: u128, sign: i8) -> FPDecimal {
    FPDecimal { num: U256::from_u128(num), sign }
}

#[test]
fn test_byte_func() {
    let first_num = FPDecimal::from_i128(2348093290348092384i128).num;
    assert_eq!(FPDecimal::convertTou128(first_num), 2348093290348092384)
}

#[test]
fn test_add() {
    let five = whole(5, 1);
    let three = whole(3, 1);
    let eight = whole(8, 1);
    assert_eq!(FPDecimal::_add(five, three), eight);
}

#[test]
fn test_add_neg() {
    let neg_five = whole(5, 0);
    let neg_three = whole(3, 0);
    let neg_eight = whole(8, 0);
    assert_eq!(FPDecimal::_add(neg_five, neg_three), neg_eight);
}

#[test]
fn test_sub() {
    let five = whole(5, 1);
    let three = whole(3, 1);
    let two = whole(2, 1);
    assert_eq!(FPDecimal::_sub(five, three), two);
}

#[test]
fn test_sub_neg() {
    let five = whole(5, 1);
    let neg_three = whole(3, 0);
    let eight = whole(8, 1);
    assert_eq!(FPDecimal::_sub(five, neg_three), eight);
}

#[test]
fn test_mul() {
    let five = whole(5, 1);
    let three = whole(3, 1);
    let fifteen = whole(15, 1);
    assert_eq!(FPDecimal::_mul(five, three), fifteen);
}

#[test]
fn test_mul_pos_neg() {
    let five = whole(5, 1);
    let neg_three = whole(3, 0);
    let neg_fifteen = whole(15, 0);
    assert_eq!(FPDecimal::_mul(five, neg_three), neg_fifteen);
}

#[test]
fn test_mul_neg_pos() {
    let neg_five = whole(5, 0);
    let three = whole(3, 1);
    let neg_fifteen = whole(15, 0);
    assert_eq!(FPDecimal::_mul(neg_five, three), neg_fifteen);
}

#[test]
fn test_mul_neg_neg() {
    let neg_five = whole(5, 0);
    let neg_three = whole(3, 0);
    let fifteen = whole(15, 1);
    assert_eq!(FPDecimal::_mul(neg_five, neg_three), fifteen);
}

#[test]
fn test_div() {
    let hundred = whole(100, 1);
    let five = whole(5, 1);
    let twenty = whole(20, 1);
    assert_eq!(FPDecimal::_div(hundred, five), twenty);
}

#[test]
fn test_reciprocal() {
    let five = whole(5, 1);
    let point_2 = FPDecimal { num: U256::from_u128(SCALE / 5), sign: 1 };
    assert_eq!(FPDecimal::reciprocal(five), point_2);
}

#[test]
fn test_abs() {
    let neg_five = whole(5, 0);
    let five = whole(5, 1);
    assert_eq!(neg_five.abs(), five);
}

#[test]
fn add_negate_gives_canonical_zero() {
    // the same canonical zero, whichever way the zero is produced
    for x in [whole(7, 1), whole(3, 0), raw(123_456_789, 1), FPDecimal::zero()] {
        let z = FPDecimal::_add(x, x.negate());
        assert_eq!(z, FPDecimal::zero());
        assert_eq!(z.sign, 1);
    }
    assert_eq!(FPDecimal::_sub(whole(4, 1), whole(4, 1)), FPDecimal::_sub(whole(9, 0), whole(9, 0)));
}

#[test]
fn mul_by_one_is_identity() {
    let x = raw(123_456_789_123_456_789_123, 1);
    assert_eq!(FPDecimal::_mul(x, FPDecimal::one()), x);
    let y = raw(987_654_321, 0);
    assert_eq!(FPDecimal::_mul(y, FPDecimal::one()), y);
}

#[test]
fn div_self_is_one() {
    // magnitudes whose reciprocal is exact at full precision
    for x in [whole(2, 1), whole(4, 0), whole(5, 1), raw(2_500_000_000_000_000_000, 1)] {
        assert_eq!(FPDecimal::_div(x, x), FPDecimal::one());
    }
}

#[test]
fn add_commutative_and_associative() {
    let a = raw(111_222_333_444_555, 1);
    let b = whole(42, 0);
    let c = raw(987_000_000_000_000_000_123, 1);
    assert_eq!(FPDecimal::_add(a, b), FPDecimal::_add(b, a));
    assert_eq!(
        FPDecimal::_add(FPDecimal::_add(a, b), c),
        FPDecimal::_add(a, FPDecimal::_add(b, c))
    );
}

#[test]
fn mul_commutative() {
    let a = raw(1_500_000_000_000_000_000, 1);
    let b = raw(2_500_000_000_000_000_000, 0);
    assert_eq!(FPDecimal::_mul(a, b), FPDecimal::_mul(b, a));
}

#[test]
fn mul_fractions_exact() {
    // 1.5 * 2.5 == 3.75, exactly representable at this precision
    let a = raw(1_500_000_000_000_000_000, 1);
    let b = raw(2_500_000_000_000_000_000, 1);
    assert_eq!(FPDecimal::_mul(a, b), raw(3_750_000_000_000_000_000, 1));
}

#[test]
fn mul_precision_constant_relation() {
    assert_eq!(MUL_PRECISION * MUL_PRECISION, SCALE);
}

#[test]
fn compare_orders_signed_values() {
    let neg = whole(2, 0);
    let small = whole(1, 1);
    let big = whole(3, 1);
    assert!(neg.lt(&small));
    assert!(small.lt(&big));
    assert!(!big.lt(&small));
    assert!(small.le(&small));
}

#[test]
fn exp_and_hyperbolics_at_zero() {
    let zero = FPDecimal::zero();
    assert_eq!(FPDecimal::_exp(zero), FPDecimal::one());
    assert_eq!(zero.sinh(), FPDecimal::zero());
    assert_eq!(zero.cosh(), FPDecimal::one());
    assert_eq!(zero.tanh(), FPDecimal::zero());
}

#[test]
fn tanh_stays_below_one() {
    for n in [1u64, 2, 5, 9] {
        let t = whole(n, 1).tanh();
        assert_eq!(t.sign, 1);
        assert!(t.num.le(&U256::from_u128(SCALE)));
    }
    // a negative argument gives a negative tangent of the same magnitude
    let t = whole(2, 0).tanh();
    assert_eq!(t.num, whole(2, 1).tanh().num);
    assert_eq!(t.sign, 0);
}

#[test]
fn u256_division_is_exact() {
    let x = U256::from_words(12_345_678_901_234_567, 89, 7, 3);
    let (q, r) = x.div_rem(1_000_000_007);
    // recompose: q * d + r == x
    let back = q.mul(U256::from_u128(1_000_000_007)).add(U256::from_u128(r));
    assert_eq!(back, x);
    assert!(r < 1_000_000_007);
}

#[test]
fn exp_whole_units_are_tabulated() {
    let e1 = FPDecimal::_exp(whole(1, 1));
    assert_eq!(e1, raw(2_718_281_828_459_045_235, 1));
    let e2 = FPDecimal::_exp(whole(2, 1));
    assert!(e1.num.lt(&e2.num));
    // a negative unit argument is the reciprocal of the positive one
    let em1 = FPDecimal::_exp(whole(1, 0));
    assert!(em1.num.lt(&FPDecimal::one().num));
    assert_eq!(em1.sign, 1);
}

#[test]
fn tanh_is_quotient_of_sinh_and_cosh() {
    for n in [0u64, 1, 3, 7] {
        let x = whole(n, 1);
        assert_eq!(x.tanh(), FPDecimal::_div(x.sinh(), x.cosh()));
        let y = whole(n, if n == 0 { 1 } else { 0 });
        assert_eq!(y.tanh(), FPDecimal::_div(y.sinh(), y.cosh()));
    }
}

#[test]
fn sinh_is_odd_and_cosh_is_even() {
    for n in [1u64, 2, 5] {
        let pos = whole(n, 1);
        let neg = whole(n, 0);
        assert_eq!(neg.sinh(), pos.sinh().negate());
        assert_eq!(neg.cosh(), pos.cosh());
    }
}
