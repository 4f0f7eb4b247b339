//! Price resolution: map an asset identifier to its oracle feed address,
//! and decode a feed's latest answer at the feed's own fetched scale.
//!
//! A raw feed address bypasses the registry; a symbol goes through the
//! feed map; anything else is refused before any remote call.  A negative
//! answer passes through unmodified: suppressing it would hide a
//! legitimate oracle signal.

use vstd::prelude::*;
use crate::address::{Address, is_address_string, address_of_string, addr_val, parse_address};
use crate::codec::{DecimalAmount, dec_wf, dec_num};
use crate::errors::TokenError;
use crate::registry::{AssetRegistry, lookup_spec};
use crate::uint256::U256;

verus! {

/// Resolves an optional asset identifier to an oracle feed address.  The
/// default is the native asset's feed; an address-shaped identifier is
/// used directly; a known symbol resolves through the feed map; anything
/// else is an unknown feed.
pub fn resolve_feed(registry: &AssetRegistry, token: Option<&str>) -> (r: Result<
    Address,
    TokenError,
>)
    ensures
        token is None && lookup_spec(registry.feeds@, "ETH"@) is Some ==> r == Result::<
            Address,
            TokenError,
        >::Ok(lookup_spec(registry.feeds@, "ETH"@)->0),
        token is None && lookup_spec(registry.feeds@, "ETH"@) is None ==> r == Result::<
            Address,
            TokenError,
        >::Err(TokenError::UnknownFeed),
        token matches Some(s) ==> {
            &&& is_address_string(s@) ==> r is Ok && addr_val(r->Ok_0) == address_of_string(s@)
            &&& !is_address_string(s@) && lookup_spec(registry.feeds@, s@) is Some ==> r
                == Result::<Address, TokenError>::Ok(lookup_spec(registry.feeds@, s@)->0)
            &&& !is_address_string(s@) && lookup_spec(registry.feeds@, s@) is None ==> r
                == Result::<Address, TokenError>::Err(TokenError::UnknownFeed)
        },
{
    match token {
        None => {
            match registry.feed_address("ETH") {
                Some(a) => Ok(a),
                None => Err(TokenError::UnknownFeed),
            }
        },
        Some(s) => {
            match parse_address(s) {
                Ok(a) => Ok(a),
                Err(_) => {
                    match registry.feed_address(s) {
                        Some(a) => Ok(a),
                        None => Err(TokenError::UnknownFeed),
                    }
                },
            }
        },
    }
}

/// Decodes a feed's latest answer at the feed's own fetched scale.  The
/// answer is a signed value; a negative price is kept, not clamped.
pub fn decode_price(answer: i128, decimals: u32) -> (r: DecimalAmount)
    ensures
        r.scale == decimals,
        r.negative == (answer < 0),
        dec_num(r) == answer,
        dec_wf(r),
{
    let magnitude: u128 = if answer >= 0 {
        answer as u128
    } else {
        ((-(answer + 1)) as u128) + 1
    };
    DecimalAmount { negative: answer < 0, mantissa: U256::from_u128(magnitude), scale: decimals }
}

} // verus!
