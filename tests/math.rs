use grug_core::dec::{FixedPoint, Sign};
use grug_core::dec::{Dec128, Udec128};
use grug_core::math::{Int128, MathError, Uint128, Uint64};

#[test]
fn t1() {
    assert_eq!(Udec128::one().checked_add(Udec128::one()).unwrap(), Udec128::new(2));

    assert_eq!(
        Udec128::new(10).checked_add(Udec128::new(20)).unwrap(),
        Udec128::new(30)
    );

    assert_eq!(
        Udec128::new(3).checked_rem(Udec128::new(2)).unwrap(),
        Udec128::from_str("1").unwrap()
    );

    assert_eq!(
        Udec128::from_str("3.5")
            .unwrap()
            .checked_rem(Udec128::new(2))
            .unwrap(),
        Udec128::from_str("1.5").unwrap()
    );

    assert_eq!(
        Udec128::from_str("3.5")
            .unwrap()
            .checked_rem(Udec128::from_str("2.7").unwrap())
            .unwrap(),
        Udec128::from_str("0.8").unwrap()
    );
}

#[test]
fn neg_to_string_works() {
    assert_eq!(Dec128::new(-1).to_string(), "-1");
    assert_eq!(Dec128::new_percent(-10).to_string(), "-0.1");
    assert_eq!(Dec128::new_percent(-110).to_string(), "-1.1");
    assert_eq!(Dec128::new(1).to_string(), "1");
    assert_eq!(Dec128::new_percent(10).to_string(), "0.1");
    assert_eq!(Dec128::new_percent(110).to_string(), "1.1");
}

#[test]
fn new_from_str_works() {
    assert_eq!(Dec128::from_str("0.5").unwrap(), Dec128::new_percent(50));
    assert_eq!(Dec128::from_str("1").unwrap(), Dec128::new(1));
    assert_eq!(Dec128::from_str("1.05").unwrap(), Dec128::new_percent(105));
    assert_eq!(Dec128::from_str("-0.5").unwrap(), Dec128::new_percent(-50));
    assert_eq!(Dec128::from_str("-1").unwrap(), Dec128::new(-1));
    assert_eq!(
        Dec128::from_str("-1.05").unwrap(),
        Dec128::new_percent(-105)
    );
}

#[test]
fn dec_neg_works() {
    assert_eq!(Dec128::new_percent(-105).checked_neg().unwrap(), Dec128::new_percent(105));
    assert_eq!(Dec128::new_percent(50).checked_neg().unwrap(), Dec128::new_percent(-50));
}

#[test]
fn int128_from_str() {
    assert_eq!(Int128::from_str("100").unwrap(), Int128::new(100));
    assert_eq!(Int128::from_str("-100").unwrap(), Int128::new(-100));
}

#[test]
fn udec_to_string_trims_fraction() {
    assert_eq!(Udec128::from_str("1.500").unwrap().to_string(), "1.5");
    assert_eq!(Udec128::from_str("0.000000000000000001").unwrap().to_string(), "0.000000000000000001");
    assert_eq!(Udec128::new(42).to_string(), "42");
    assert_eq!(Udec128::raw(Uint128::new(100)), Udec128::from_str("0.000000000000000100").unwrap());
}

#[test]
fn dec_from_str_rejects_malformed() {
    assert_eq!(Udec128::from_str(""), Err(MathError::ParseNumber));
    assert_eq!(Udec128::from_str(".23"), Err(MathError::ParseNumber));
    assert_eq!(Udec128::from_str("1."), Err(MathError::ParseNumber));
    assert_eq!(Udec128::from_str("1.2.3"), Err(MathError::ParseNumber));
    assert_eq!(Udec128::from_str("-1"), Err(MathError::ParseNumber));
    assert_eq!(Udec128::from_str("1.0000000000000000001"), Err(MathError::ParseNumber));
    assert_eq!(Udec128::from_str("1.123000000").unwrap(), Udec128::from_str("1.123").unwrap());
    assert_eq!(Udec128::from_str("000012").unwrap(), Udec128::new(12));
}

#[test]
fn uint_checked_arithmetic() {
    let max = Uint128::max();
    assert_eq!(max.checked_add(Uint128::one()), Err(MathError::Overflow));
    assert_eq!(Uint128::zero().checked_sub(Uint128::one()), Err(MathError::Overflow));
    assert_eq!(Uint128::new(7).checked_div(Uint128::zero()), Err(MathError::DivisionByZero));
    assert_eq!(Uint128::new(7).checked_rem(Uint128::new(4)), Ok(Uint128::new(3)));
    assert_eq!(Uint128::new(10).checked_pow(3), Ok(Uint128::new(1000)));
    assert_eq!(Uint128::new(10).checked_pow(39), Err(MathError::Overflow));
    assert_eq!(Uint128::from_str("+15"), Ok(Uint128::new(15)));
    assert_eq!(Uint128::new(1234).to_string(), "1234");
    assert_eq!(Int128::new(-7).checked_div(Int128::new(2)), Ok(Int128::new(-3)));
    assert_eq!(Int128::new(-7).checked_rem(Int128::new(2)), Ok(Int128::new(-1)));
    assert_eq!(Int128::new(i128::MIN).checked_div(Int128::new(-1)), Err(MathError::Overflow));
    assert_eq!(Int128::new(-42).to_string(), "-42");
}

#[test]
fn multiply_ratio_rounds() {
    let x = Uint64::new(10);
    assert_eq!(x.checked_multiply_ratio_floor(Uint64::new(2), Uint64::new(3)), Ok(Uint64::new(6)));
    assert_eq!(x.checked_multiply_ratio_ceil(Uint64::new(2), Uint64::new(3)), Ok(Uint64::new(7)));
    assert_eq!(x.checked_multiply_ratio_ceil(Uint64::new(3), Uint64::new(3)), Ok(Uint64::new(10)));
    assert_eq!(x.checked_multiply_ratio_floor(Uint64::new(2), Uint64::new(0)), Err(MathError::DivisionByZero));
    assert_eq!(Uint64::new(u64::MAX).checked_full_mul(Uint64::new(2)), Ok(Uint128::new(2 * u64::MAX as u128)));
}

#[test]
fn decimal_conversions() {
    assert_eq!(Udec128::checked_from_atomics(Uint128::new(123), 2), Ok(Udec128::from_str("1.23").unwrap()));
    assert_eq!(Udec128::checked_from_atomics(Uint128::new(123), 20), Ok(Udec128::from_str("0.00000000000000000123").unwrap_or(Udec128::raw(Uint128::new(1)))));
    assert_eq!(Udec128::checked_from_atomics(Uint128::new(5), 60), Ok(Udec128::zero()));
    assert_eq!(Udec128::from_str("2.75").unwrap().into_int(), Uint128::new(2));
    assert_eq!(Dec128::from_str("-2.75").unwrap().into_int(), Int128::new(-2));
    assert_eq!(Uint128::new(3).checked_into_dec(), Ok(Udec128::new(3)));
    assert_eq!(Uint128::max().checked_into_dec(), Err(MathError::OverflowConversion));
    assert_eq!(Int128::new(-3).checked_into_dec(), Ok(Dec128::new(-3)));
}

#[test]
fn wide_ratios_are_exact() {
    let max = Uint128::max();
    // u128::MAX * u128::MAX / u128::MAX needs 256 bits in between.
    assert_eq!(max.checked_multiply_ratio_floor(max, max), Ok(max));
    assert_eq!(max.checked_multiply_ratio_floor(Uint128::new(2), Uint128::new(3)), Ok(Uint128::new(226854911280625642308916404954512140970)));
    assert_eq!(max.checked_multiply_ratio_ceil(Uint128::new(2), Uint128::new(3)), Ok(Uint128::new(226854911280625642308916404954512140970)));
    assert_eq!(Uint128::new(10).checked_multiply_ratio_ceil(Uint128::new(1), Uint128::new(3)), Ok(Uint128::new(4)));
    assert_eq!(max.checked_multiply_ratio_floor(Uint128::new(2), Uint128::new(1)), Err(MathError::OverflowConversion));
    assert_eq!(max.checked_multiply_ratio_ceil(Uint128::new(2), Uint128::new(2)), Ok(max));
    assert_eq!(Uint128::new(1).checked_multiply_ratio_floor(Uint128::new(1), Uint128::zero()), Err(MathError::DivisionByZero));
}

#[test]
fn decimal_ratios_and_products() {
    assert_eq!(Udec128::checked_from_ratio(Uint128::new(1), Uint128::new(3)), Ok(Udec128::from_str("0.333333333333333333").unwrap()));
    assert_eq!(Udec128::checked_from_ratio(Uint128::new(7), Uint128::new(2)), Ok(Udec128::from_str("3.5").unwrap()));
    assert_eq!(Udec128::checked_from_ratio(Uint128::new(7), Uint128::zero()), Err(MathError::DivisionByZero));
    let big = Uint128::new(u128::MAX / 2);
    assert_eq!(Udec128::checked_from_ratio(big, Uint128::new(big.number() / 4)), Ok(Udec128::from_str("4.000000000000000000").unwrap()));
    let x = Udec128::from_str("1.5").unwrap();
    let y = Udec128::from_str("2.25").unwrap();
    assert_eq!(x.checked_mul(y), Ok(Udec128::from_str("3.375").unwrap()));
    assert_eq!(y.checked_div(x), Ok(Udec128::from_str("1.5").unwrap()));
    assert_eq!(x.checked_div(Udec128::zero()), Err(MathError::DivisionByZero));
    assert_eq!(Uint128::new(10).checked_mul_dec_floor(Udec128::from_str("0.25").unwrap()), Ok(Uint128::new(2)));
    assert_eq!(Uint128::new(10).checked_mul_dec_ceil(Udec128::from_str("0.25").unwrap()), Ok(Uint128::new(3)));
    assert_eq!(Uint128::new(10).checked_div_dec_floor(Udec128::from_str("3").unwrap()), Ok(Uint128::new(3)));
    assert_eq!(Uint128::new(10).checked_div_dec_ceil(Udec128::from_str("3").unwrap()), Ok(Uint128::new(4)));
    assert_eq!(Uint128::new(10).checked_div_dec_floor(Udec128::zero()), Err(MathError::DivisionByZero));
    assert_eq!(Uint128::zero().checked_mul_dec_floor(Udec128::new(5)), Ok(Uint128::zero()));
}

#[test]
fn sign_and_fixed_point() {
    assert_eq!(<Udec128 as FixedPoint>::decimal_places(), 18);
    assert_eq!(<Dec128 as FixedPoint>::decimal_fraction(), 1_000_000_000_000_000_000);
    assert!(Sign::is_negative(&Dec128::new(-2)));
    assert!(!Sign::is_negative(&Udec128::new(2)));
    assert_eq!(Sign::checked_abs(Dec128::new(-2)), Ok(Dec128::new(2)));
    assert_eq!(Sign::checked_abs(Int128::new(i128::MIN)), Err(MathError::Overflow));
    assert_eq!(Sign::checked_abs(Uint128::new(4)), Ok(Uint128::new(4)));
}
