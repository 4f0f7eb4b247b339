//! The error kinds a resolver call can surface, and the policy for
//! turning the outcome of a remote read into a library result.

use vstd::prelude::*;

verus! {

/// Every failure a balance, price or swap request can report.
///
/// `Conversion` covers decimal/integer conversion overflow, a negative
/// amount, and a malformed numeric string.  `ChainQuery` covers any
/// remote-call transport failure or unexpected revert outside the modeled
/// "no liquidity" case, which is a business outcome and not an error.
#[derive(Clone, Copy, Debug, PartialEq, Eq, Structural)]
pub enum TokenError {
    UnknownAsset,
    UnknownFeed,
    Conversion,
    InvalidSlippage,
    ChainQuery,
}

/// Propagation policy for remote reads: a value that a remote call failed
/// to produce becomes `ChainQuery`, and a produced value passes through
/// unchanged.  Resolvers do not catch or retry.
pub fn chain_result<T>(r: Option<T>) -> (res: Result<T, TokenError>)
    ensures
        r is Some <==> res is Ok,
        r is Some ==> res == Result::<T, TokenError>::Ok(r->0),
        r is None ==> res == Result::<T, TokenError>::Err(TokenError::ChainQuery),
{
    match r {
        Some(v) => Ok(v),
        None => Err(TokenError::ChainQuery),
    }
}

} // verus!
