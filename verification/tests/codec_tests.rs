use eth_mcp_server::codec::{to_scaled, from_scaled, DecimalAmount};
use eth_mcp_server::decfmt::format_decimal;
use eth_mcp_server::dectext::parse_decimal;
use eth_mcp_server::errors::TokenError;
use eth_mcp_server::uint256::U256;

#[test]
fn test_parse_simple() {
    let d = parse_decimal("1.5").unwrap();
    assert!(!d.negative);
    assert_eq!(d.mantissa, U256::from_u128(15));
    assert_eq!(d.scale, 1);
}

#[test]
fn test_parse_integer() {
    let d = parse_decimal("42").unwrap();
    assert!(!d.negative);
    assert_eq!(d.mantissa, U256::from_u128(42));
    assert_eq!(d.scale, 0);
}

#[test]
fn test_parse_negative() {
    let d = parse_decimal("-0.25").unwrap();
    assert!(d.negative);
    assert_eq!(d.mantissa, U256::from_u128(25));
    assert_eq!(d.scale, 2);
}

#[test]
fn test_parse_negative_zero_loses_sign() {
    let d = parse_decimal("-0.00").unwrap();
    assert!(!d.negative);
    assert_eq!(d.mantissa, U256::zero());
}

#[test]
fn test_parse_malformed() {
    assert_eq!(parse_decimal("").unwrap_err(), TokenError::Conversion);
    assert_eq!(parse_decimal("abc").unwrap_err(), TokenError::Conversion);
    assert_eq!(parse_decimal("1..2").unwrap_err(), TokenError::Conversion);
    assert_eq!(parse_decimal("1.").unwrap_err(), TokenError::Conversion);
    assert_eq!(parse_decimal(".5").unwrap_err(), TokenError::Conversion);
    assert_eq!(parse_decimal("-").unwrap_err(), TokenError::Conversion);
    assert_eq!(parse_decimal("1.2.3").unwrap_err(), TokenError::Conversion);
    assert_eq!(parse_decimal("1e5").unwrap_err(), TokenError::Conversion);
}

#[test]
fn test_round_trip_law() {
    // 1.5 at scale 18 scales to 15 * 10^17 and decodes back to 1.5
    let x = parse_decimal("1.5").unwrap();
    let scaled = to_scaled(&x, 18).unwrap();
    assert_eq!(scaled, U256::from_u128(1_500_000_000_000_000_000u128));
    let back = from_scaled(scaled, 18);
    assert_eq!(format_decimal(&back), "1.5");
}

#[test]
fn test_round_trip_small_fraction() {
    let x = parse_decimal("0.001").unwrap();
    let scaled = to_scaled(&x, 18).unwrap();
    assert_eq!(scaled, U256::from_u128(1_000_000_000_000_000u128));
    let back = from_scaled(scaled, 18);
    assert_eq!(format_decimal(&back), "0.001");
}

#[test]
fn test_truncation_law() {
    // toScaled(1.2345, 2) truncates to 123, never rounds to 124
    let x = parse_decimal("1.2345").unwrap();
    let scaled = to_scaled(&x, 2).unwrap();
    assert_eq!(scaled, U256::from_u128(123));
}

#[test]
fn test_to_scaled_rejects_negative() {
    let x = parse_decimal("-1.5").unwrap();
    assert_eq!(to_scaled(&x, 18).unwrap_err(), TokenError::Conversion);
}

#[test]
fn test_to_scaled_rejects_overflow() {
    // 10^77 still fits in 256 bits, one more factor of ten does not
    let big = U256::from_u128(1).checked_mul_pow10(77).unwrap();
    let amount = DecimalAmount { negative: false, mantissa: big, scale: 0 };
    assert_eq!(to_scaled(&amount, 0).unwrap(), big);
    assert_eq!(to_scaled(&amount, 1).unwrap_err(), TokenError::Conversion);
}

#[test]
fn test_format_zero() {
    let z = DecimalAmount::zero();
    assert_eq!(format_decimal(&z), "0");
}

#[test]
fn test_format_trims_trailing_zeros() {
    let d = parse_decimal("1.500").unwrap();
    assert_eq!(format_decimal(&d), "1.5");
    let e = parse_decimal("2.000").unwrap();
    assert_eq!(format_decimal(&e), "2");
}

#[test]
fn test_format_negative() {
    let d = parse_decimal("-0.050").unwrap();
    assert_eq!(format_decimal(&d), "-0.05");
}

#[test]
fn test_parse_leading_zeros_value() {
    let d = parse_decimal("007").unwrap();
    assert_eq!(d.mantissa, U256::from_u128(7));
    assert_eq!(format_decimal(&d), "7");
}
