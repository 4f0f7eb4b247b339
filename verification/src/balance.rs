//! Balance resolution: decide which chain read answers a balance query,
//! and decode the raw result into a decimal amount.
//!
//! The query is planned before any remote call: an unknown asset is
//! refused here, so no read is ever issued for it.

use vstd::prelude::*;
use crate::address::{Address, is_address_string, address_of_string, addr_val, parse_address};
use crate::codec::{DecimalAmount, from_scaled, dec_wf};
use crate::errors::TokenError;
use crate::registry::{AssetRegistry, AssetAddress, lookup_spec};

verus! {

/// The chain's base currency carries eighteen fractional digits.
pub open spec fn native_scale() -> u32 {
    18
}

/// The read a balance query calls for: the native balance of the owner,
/// or a token contract's balance-of.
#[derive(Clone, Copy, Debug, PartialEq, Eq, Structural)]
pub enum BalanceQuery {
    Native,
    Erc20(Address),
}

/// Decides the read for an optional asset identifier, before any remote
/// call is made.  No asset means the native balance; an address-shaped
/// identifier is used directly; a known symbol resolves through the
/// registry; anything else is refused as an unknown asset.
pub fn plan_balance(registry: &AssetRegistry, asset: Option<&str>) -> (r: Result<
    BalanceQuery,
    TokenError,
>)
    ensures
        asset is None ==> r == Result::<BalanceQuery, TokenError>::Ok(BalanceQuery::Native),
        asset matches Some(s) ==> {
            &&& is_address_string(s@) ==> {
                &&& r is Ok
                &&& r->Ok_0 matches BalanceQuery::Erc20(a) && addr_val(a) == address_of_string(s@)
            }
            &&& !is_address_string(s@) && s@ == "ETH"@ ==> r == Result::<
                BalanceQuery,
                TokenError,
            >::Ok(BalanceQuery::Native)
            &&& !is_address_string(s@) && s@ != "ETH"@ && lookup_spec(registry.tokens@, s@)
                is Some ==> r == Result::<BalanceQuery, TokenError>::Ok(
                BalanceQuery::Erc20(lookup_spec(registry.tokens@, s@)->0),
            )
            &&& !is_address_string(s@) && s@ != "ETH"@ && lookup_spec(registry.tokens@, s@)
                is None ==> r == Result::<BalanceQuery, TokenError>::Err(TokenError::UnknownAsset)
        },
{
    match asset {
        None => Ok(BalanceQuery::Native),
        Some(s) => {
            match parse_address(s) {
                Ok(a) => Ok(BalanceQuery::Erc20(a)),
                Err(_) => {
                    match registry.resolve(s) {
                        Ok(AssetAddress::Native) => Ok(BalanceQuery::Native),
                        Ok(AssetAddress::Contract(a)) => Ok(BalanceQuery::Erc20(a)),
                        Err(e) => Err(e),
                    }
                },
            }
        },
    }
}

/// Decodes a raw balance read at the asset's own fetched scale.
pub fn decode_balance(raw: crate::uint256::U256, decimals: u32) -> (r: DecimalAmount)
    ensures
        r == (DecimalAmount { negative: false, mantissa: raw, scale: decimals }),
        dec_wf(r),
{
    from_scaled(raw, decimals)
}

/// Decodes a raw native balance, whose scale is fixed at eighteen.
pub fn decode_native_balance(raw: crate::uint256::U256) -> (r: DecimalAmount)
    ensures
        r == (DecimalAmount { negative: false, mantissa: raw, scale: native_scale() }),
        dec_wf(r),
{
    from_scaled(raw, 18)
}

} // verus!
