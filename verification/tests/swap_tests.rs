use eth_mcp_server::address::Address;
use eth_mcp_server::codec::to_scaled;
use eth_mcp_server::decfmt::format_decimal;
use eth_mcp_server::dectext::parse_decimal;
use eth_mcp_server::errors::{chain_result, TokenError};
use eth_mcp_server::registry::AssetRegistry;
use eth_mcp_server::swap::{
    apply_slippage, compute_quote, deadline_after, decode_quote, outcome_amounts, plan_swap,
    swap_deadline, RouteQuote, SwapOutcome, SwapVariant,
};
use eth_mcp_server::uint256::U256;

fn weth() -> Address {
    Address { w0: 1, w1: 0, w2: 0 }
}

fn usdc() -> Address {
    Address { w0: 2, w1: 0, w2: 0 }
}

fn swap_registry() -> AssetRegistry {
    let mut reg = AssetRegistry::new();
    reg.add_token(String::from("WETH"), weth());
    reg.add_token(String::from("USDC"), usdc());
    reg
}

#[test]
fn test_slippage_rejected_at_or_above_hundred_percent() {
    // one hundred percent is 10000 basis points; planning refuses it
    // before any remote call is made
    let reg = swap_registry();
    assert_eq!(plan_swap(&reg, "ETH", "USDC", 10000).unwrap_err(), TokenError::InvalidSlippage);
    assert_eq!(plan_swap(&reg, "ETH", "USDC", 25000).unwrap_err(), TokenError::InvalidSlippage);
}

#[test]
fn test_plan_substitutes_wrapped_native() {
    let reg = swap_registry();
    let route = plan_swap(&reg, "ETH", "USDC", 50).unwrap();
    assert_eq!(route.from_addr, weth());
    assert_eq!(route.to_addr, usdc());
    assert_eq!(route.variant, SwapVariant::NativeToToken);
    assert_eq!(route.slippage_bp, 50);
    let back = plan_swap(&reg, "USDC", "ETH", 50).unwrap();
    assert_eq!(back.variant, SwapVariant::TokenToNative);
}

#[test]
fn test_plan_unknown_leg() {
    let reg = swap_registry();
    assert_eq!(plan_swap(&reg, "ETH", "DOGE", 50).unwrap_err(), TokenError::UnknownAsset);
}

#[test]
fn test_slippage_bound() {
    // fifty basis points on 10000 leaves 9950; zero tolerance leaves all
    let est = U256::from_u128(10_000);
    assert_eq!(apply_slippage(&est, 50), U256::from_u128(9_950));
    assert_eq!(apply_slippage(&est, 0), est);
    // truncation toward zero: 9999 bp of 3 wei is 0
    assert_eq!(apply_slippage(&U256::from_u128(3), 9999), U256::from_u128(0));
}

#[test]
fn test_zero_quote_on_no_liquidity() {
    // a failed amounts-out call is a no-route outcome, not an error,
    // and surfaces as the zero triple
    let quote = compute_quote(None, 50).unwrap();
    assert_eq!(quote, RouteQuote::NoRoute);
    let (est, min, gas) = outcome_amounts(&SwapOutcome::NoRoute);
    assert_eq!(format_decimal(&est), "0");
    assert_eq!(format_decimal(&min), "0");
    assert_eq!(format_decimal(&gas), "0");
}

#[test]
fn test_simulated_swap_end_to_end() {
    // 0.001 native units toward a token at half a percent slippage
    let reg = swap_registry();
    let route = plan_swap(&reg, "ETH", "USDC", 50).unwrap();
    let amount = parse_decimal("0.001").unwrap();
    let amount_in = to_scaled(&amount, 18).unwrap();
    assert_eq!(amount_in, U256::from_u128(1_000_000_000_000_000u128));

    let amounts_out = vec![amount_in, U256::from_u128(2_000_000)];
    let quote = compute_quote(Some(&amounts_out), route.slippage_bp).unwrap();
    match quote {
        RouteQuote::Route { estimated, min_out } => {
            assert_eq!(estimated, U256::from_u128(2_000_000));
            assert_eq!(min_out, U256::from_u128(1_990_000));
            assert!(min_out.le(&estimated), "min output should not exceed the estimate");
            let gas = chain_result(Some(21_000u128)).unwrap();
            assert!(gas > 0, "gas estimate should be positive");
            let decoded = decode_quote(estimated, min_out, gas, 6);
            assert_eq!(format_decimal(&decoded.estimated), "2");
            assert_eq!(format_decimal(&decoded.min_out), "1.99");
            assert_eq!(format_decimal(&decoded.gas), "21000");
        },
        RouteQuote::NoRoute => panic!("liquidity was available"),
    }
}

#[test]
fn test_router_revert_returns_zero_triple() {
    // the router reverting between two tokens yields the zero triple
    // without raising
    let reg = swap_registry();
    let route = plan_swap(&reg, "USDC", "WETH", 100).unwrap();
    assert_eq!(route.variant, SwapVariant::TokenToToken);
    let quote = compute_quote(None, route.slippage_bp).unwrap();
    assert_eq!(quote, RouteQuote::NoRoute);
    let (est, min, gas) = outcome_amounts(&SwapOutcome::NoRoute);
    assert!(!est.negative && !min.negative && !gas.negative);
    assert_eq!(format_decimal(&est), "0");
    assert_eq!(format_decimal(&min), "0");
    assert_eq!(format_decimal(&gas), "0");
}

#[test]
fn test_empty_amounts_is_chain_error() {
    let empty: Vec<U256> = Vec::new();
    assert_eq!(compute_quote(Some(&empty), 50).unwrap_err(), TokenError::ChainQuery);
}

#[test]
fn test_deadline_window() {
    assert_eq!(deadline_after(1000), 1600);
    assert_eq!(deadline_after(0), 600);
    assert_eq!(deadline_after(-5), 600);
    assert!(swap_deadline() >= 600);
}
