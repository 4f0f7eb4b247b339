use eth_mcp_server::balance::{decode_balance, decode_native_balance};
use eth_mcp_server::decfmt::format_decimal;
use eth_mcp_server::errors::{chain_result, TokenError};
use eth_mcp_server::price::{decode_price, resolve_feed};
use eth_mcp_server::registry::AssetRegistry;
use eth_mcp_server::address::Address;
use eth_mcp_server::uint256::U256;

fn feeds_registry() -> AssetRegistry {
    let mut reg = AssetRegistry::new();
    reg.add_feed(String::from("ETH"), Address { w0: 10, w1: 0, w2: 0 });
    reg.add_feed(String::from("BTC"), Address { w0: 11, w1: 0, w2: 0 });
    reg
}

#[test]
fn test_native_balance_decodes_to_decimal_string() {
    // a known on-chain balance of 1.5 native units reads back as "1.5"
    let raw = U256::from_u128(1_500_000_000_000_000_000u128);
    let bal = decode_native_balance(raw);
    assert_eq!(format_decimal(&bal), "1.5");
}

#[test]
fn test_token_balance_uses_fetched_scale() {
    let raw = U256::from_u128(2_500_000);
    let bal = decode_balance(raw, 6);
    assert_eq!(format_decimal(&bal), "2.5");
}

#[test]
fn test_default_price_feed_is_native() {
    // no token argument resolves to the native asset's feed
    let reg = feeds_registry();
    let feed = resolve_feed(&reg, None).unwrap();
    assert_eq!(feed, Address { w0: 10, w1: 0, w2: 0 });
    // a positive on-chain answer decodes to a positive decimal
    let price = decode_price(250_000_000_000, 8);
    assert!(!price.negative);
    assert_eq!(format_decimal(&price), "2500");
}

#[test]
fn test_price_feed_by_symbol_and_raw_address() {
    let reg = feeds_registry();
    assert_eq!(resolve_feed(&reg, Some("BTC")).unwrap(), Address { w0: 11, w1: 0, w2: 0 });
    let direct = resolve_feed(&reg, Some("0x00000000000000aa000000000000000000000001")).unwrap();
    assert_eq!(direct, Address { w0: 0xaa, w1: 0, w2: 1 });
}

#[test]
fn test_unknown_feed() {
    let reg = feeds_registry();
    assert_eq!(resolve_feed(&reg, Some("DOGE")).unwrap_err(), TokenError::UnknownFeed);
}

#[test]
fn test_negative_price_passes_through() {
    let price = decode_price(-5, 2);
    assert!(price.negative);
    assert_eq!(format_decimal(&price), "-0.05");
}

#[test]
fn test_chain_result_policy() {
    assert_eq!(chain_result(Some(7u32)).unwrap(), 7);
    assert_eq!(chain_result::<u32>(None).unwrap_err(), TokenError::ChainQuery);
}
