use eth_mcp_server::address::{parse_address, Address};
use eth_mcp_server::balance::{plan_balance, BalanceQuery};
use eth_mcp_server::errors::TokenError;
use eth_mcp_server::registry::{AssetAddress, AssetRegistry};

fn addr(w0: u64, w1: u64, w2: u32) -> Address {
    Address { w0, w1, w2 }
}

fn sample_registry() -> AssetRegistry {
    let mut reg = AssetRegistry::new();
    reg.add_token(String::from("WETH"), addr(1, 0, 0));
    reg.add_token(String::from("USDC"), addr(2, 0, 0));
    reg.add_token(String::from("UNI"), addr(3, 0, 0));
    reg.add_feed(String::from("ETH"), addr(10, 0, 0));
    reg.add_feed(String::from("BTC"), addr(11, 0, 0));
    reg
}

#[test]
fn test_resolve_native() {
    let reg = sample_registry();
    assert_eq!(reg.resolve("ETH").unwrap(), AssetAddress::Native);
}

#[test]
fn test_resolve_symbol() {
    let reg = sample_registry();
    assert_eq!(reg.resolve("USDC").unwrap(), AssetAddress::Contract(addr(2, 0, 0)));
}

#[test]
fn test_resolve_unknown() {
    let reg = sample_registry();
    assert_eq!(reg.resolve("NOTATOKEN").unwrap_err(), TokenError::UnknownAsset);
}

#[test]
fn test_token_address_lookup() {
    let reg = sample_registry();
    assert_eq!(reg.token_address("UNI"), Some(addr(3, 0, 0)));
    assert_eq!(reg.token_address("DAI"), None);
}

#[test]
fn test_parse_address_ok() {
    let a = parse_address("0x0000000000000001000000000000000200000003").unwrap();
    assert_eq!(a, addr(1, 2, 3));
}

#[test]
fn test_parse_address_mixed_case() {
    let a = parse_address("0x000000000000000a000000000000000B0000000c").unwrap();
    assert_eq!(a, addr(10, 11, 12));
}

#[test]
fn test_parse_address_rejects() {
    assert!(parse_address("0x123").is_err());
    assert!(parse_address("00000000000000010000000000000002000000030x").is_err());
    assert!(parse_address("0x0000000000000001000000000000000200000g03").is_err());
    assert!(parse_address("").is_err());
}

#[test]
fn test_unknown_asset_fails_before_any_read() {
    // planning refuses the symbol outright: no chain read is ever issued
    let reg = sample_registry();
    assert_eq!(plan_balance(&reg, Some("NOTATOKEN")).unwrap_err(), TokenError::UnknownAsset);
}

#[test]
fn test_plan_balance_shapes() {
    let reg = sample_registry();
    assert_eq!(plan_balance(&reg, None).unwrap(), BalanceQuery::Native);
    assert_eq!(plan_balance(&reg, Some("ETH")).unwrap(), BalanceQuery::Native);
    assert_eq!(plan_balance(&reg, Some("USDC")).unwrap(), BalanceQuery::Erc20(addr(2, 0, 0)));
    let direct = plan_balance(&reg, Some("0x0000000000000005000000000000000600000007")).unwrap();
    assert_eq!(direct, BalanceQuery::Erc20(addr(5, 6, 7)));
}
