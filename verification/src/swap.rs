//! Swap simulation: the decision core of quoting a token-for-token
//! exchange without broadcasting a transaction.
//!
//! The flow is linear.  Plan the route and validate the slippage
//! tolerance before any remote call; scale the input with the codec; turn
//! the router's amounts-out answer into a quote with a slippage-bounded
//! minimum, or into an explicit no-route outcome when the router refused;
//! stamp a deadline; and decode the figures at the destination asset's
//! scale.  The surrounding application performs the remote reads and
//! feeds their results in as plain values.

use vstd::prelude::*;
use vstd::arithmetic::div_mod::{
    lemma_fundamental_div_mod_converse, lemma_div_is_ordered, lemma_div_by_multiple,
};
use crate::address::Address;
use crate::codec::{DecimalAmount, from_scaled, dec_wf};
use crate::errors::TokenError;
use crate::registry::{AssetRegistry, lookup_spec};
use crate::uint256::{U256, u256_val, u256_bound, lemma_u256_val_bound};

verus! {

/// Which call shape the route needs: a native leg is payable on the way
/// in, unwrapped on the way out.
#[derive(Clone, Copy, Debug, PartialEq, Eq, Structural)]
pub enum SwapVariant {
    NativeToToken,
    TokenToNative,
    TokenToToken,
}

/// A planned direct route: both leg contract addresses (native legs
/// already substituted by the wrapped-native contract), the call shape,
/// and the validated slippage tolerance in basis points.
#[derive(Clone, Copy, Debug, PartialEq, Eq, Structural)]
pub struct SwapRoute {
    pub from_addr: Address,
    pub to_addr: Address,
    pub variant: SwapVariant,
    pub slippage_bp: u32,
}

/// The contract a leg routes through: the wrapped-native contract for the
/// native asset, else the symbol's registered token contract.
pub open spec fn leg_spec(registry: AssetRegistry, name: Seq<char>) -> Option<Address> {
    if name == "ETH"@ {
        lookup_spec(registry.tokens@, "WETH"@)
    } else {
        lookup_spec(registry.tokens@, name)
    }
}

/// The call shape for a pair of leg names.
pub open spec fn variant_spec(from: Seq<char>, to: Seq<char>) -> SwapVariant {
    if from == "ETH"@ {
        SwapVariant::NativeToToken
    } else if to == "ETH"@ {
        SwapVariant::TokenToNative
    } else {
        SwapVariant::TokenToToken
    }
}

/// Resolves one leg of the route.
fn resolve_leg(registry: &AssetRegistry, name: &str) -> (r: Result<Address, TokenError>)
    ensures
        leg_spec(*registry, name@) is Some ==> r == Result::<Address, TokenError>::Ok(
            leg_spec(*registry, name@)->0,
        ),
        leg_spec(*registry, name@) is None ==> r == Result::<Address, TokenError>::Err(
            TokenError::UnknownAsset,
        ),
{
    let key = if crate::registry::str_eq(name, "ETH") {
        "WETH"
    } else {
        name
    };
    match registry.token_address(key) {
        Some(a) => Ok(a),
        None => Err(TokenError::UnknownAsset),
    }
}

/// Plans a swap before any remote call.  A slippage tolerance of one
/// hundred percent or more is refused outright; a leg whose asset the
/// registry does not know is refused as an unknown asset; otherwise the
/// route is fixed, with native legs substituted by the wrapped-native
/// contract.
pub fn plan_swap(
    registry: &AssetRegistry,
    from_token: &str,
    to_token: &str,
    slippage_bp: u32,
) -> (r: Result<SwapRoute, TokenError>)
    ensures
        slippage_bp >= 10000 ==> r == Result::<SwapRoute, TokenError>::Err(
            TokenError::InvalidSlippage,
        ),
        slippage_bp < 10000 && leg_spec(*registry, from_token@) is None ==> r == Result::<
            SwapRoute,
            TokenError,
        >::Err(TokenError::UnknownAsset),
        slippage_bp < 10000 && leg_spec(*registry, from_token@) is Some && leg_spec(
            *registry,
            to_token@,
        ) is None ==> r == Result::<SwapRoute, TokenError>::Err(TokenError::UnknownAsset),
        slippage_bp < 10000 && leg_spec(*registry, from_token@) is Some && leg_spec(
            *registry,
            to_token@,
        ) is Some ==> r == Result::<SwapRoute, TokenError>::Ok(
            SwapRoute {
                from_addr: leg_spec(*registry, from_token@)->0,
                to_addr: leg_spec(*registry, to_token@)->0,
                variant: variant_spec(from_token@, to_token@),
                slippage_bp,
            },
        ),
{
    if slippage_bp >= 10000 {
        return Err(TokenError::InvalidSlippage);
    }
    let from_addr = match resolve_leg(registry, from_token) {
        Ok(a) => a,
        Err(e) => {
            return Err(e);
        },
    };
    let to_addr = match resolve_leg(registry, to_token) {
        Ok(a) => a,
        Err(e) => {
            return Err(e);
        },
    };
    let variant = if crate::registry::str_eq(from_token, "ETH") {
        SwapVariant::NativeToToken
    } else if crate::registry::str_eq(to_token, "ETH") {
        SwapVariant::TokenToNative
    } else {
        SwapVariant::TokenToToken
    };
    Ok(SwapRoute { from_addr, to_addr, variant, slippage_bp })
}

/// The slippage-protected minimum: the estimated output scaled by
/// `(10000 - bp) / 10000` in integer arithmetic, truncated toward zero.
/// The minimum never exceeds the estimate, and equals it at zero
/// tolerance.
pub fn apply_slippage(estimated: &U256, slippage_bp: u32) -> (r: U256)
    requires
        slippage_bp <= 9999,
    ensures
        u256_val(r) == (u256_val(*estimated) * ((10000 - slippage_bp) as nat)) / 10000,
        u256_val(r) <= u256_val(*estimated),
        slippage_bp == 0 ==> u256_val(r) == u256_val(*estimated),
{
    let factor: u64 = (10000 - slippage_bp) as u64;
    let (lo, carry) = estimated.mul_small(factor);
    proof {
        lemma_u256_val_bound(*estimated);
        // The product is below 2^256 * 10000, so the carry is below 10000.
        assert(u256_val(*estimated) * (factor as nat) < u256_bound() * 10000) by (nonlinear_arith)
            requires
                u256_val(*estimated) < u256_bound(),
                (factor as nat) <= 10000,
        ;
        assert(carry < 10000) by (nonlinear_arith)
            requires
                u256_val(lo) + (carry as nat) * u256_bound() < u256_bound() * 10000,
                u256_val(lo) >= 0,
                u256_bound() >= 1,
        ;
    }
    let (q, rem) = lo.div_small(carry, 10000);
    proof {
        lemma_fundamental_div_mod_converse(
            (u256_val(*estimated) * (factor as nat)) as int,
            10000,
            u256_val(q) as int,
            rem as int,
        );
        // The minimum never exceeds the estimate.
        assert(u256_val(*estimated) * (factor as nat) <= u256_val(*estimated) * 10000)
            by (nonlinear_arith)
            requires
                (factor as nat) <= 10000,
                u256_val(*estimated) >= 0,
        ;
        lemma_div_is_ordered(
            (u256_val(*estimated) * (factor as nat)) as int,
            (u256_val(*estimated) * 10000) as int,
            10000,
        );
        lemma_div_by_multiple(u256_val(*estimated) as int, 10000);
        if slippage_bp == 0 {
            assert(u256_val(*estimated) * (factor as nat) == u256_val(*estimated) * 10000)
                by (nonlinear_arith)
                requires
                    (factor as nat) == 10000,
            ;
        }
    }
    q
}

/// A quoted route, or the explicit no-route outcome the router's refusal
/// becomes.
#[derive(Clone, Copy, Debug, PartialEq, Eq, Structural)]
pub enum RouteQuote {
    NoRoute,
    Route { estimated: U256, min_out: U256 },
}

/// Turns the router's amounts-out answer into a quote.  A failed call is
/// the no-route outcome, not an error: no liquidity is a business result.
/// An answer with no amounts is a malformed response and a chain-query
/// error.  Otherwise the estimate is the last amount on the path and the
/// minimum applies the slippage tolerance.
pub fn compute_quote(amounts_out: Option<&Vec<U256>>, slippage_bp: u32) -> (r: Result<
    RouteQuote,
    TokenError,
>)
    requires
        slippage_bp <= 9999,
    ensures
        amounts_out is None ==> r == Result::<RouteQuote, TokenError>::Ok(RouteQuote::NoRoute),
        amounts_out matches Some(v) ==> {
            &&& v@.len() == 0 ==> r == Result::<RouteQuote, TokenError>::Err(
                TokenError::ChainQuery,
            )
            &&& v@.len() > 0 ==> {
                &&& r is Ok
                &&& r->Ok_0 matches RouteQuote::Route { estimated, min_out } && {
                    &&& estimated == v@.last()
                    &&& u256_val(min_out) == (u256_val(v@.last()) * ((10000 - slippage_bp) as nat))
                        / 10000
                    &&& u256_val(min_out) <= u256_val(v@.last())
                    &&& slippage_bp == 0 ==> u256_val(min_out) == u256_val(v@.last())
                }
            }
        },
{
    match amounts_out {
        None => Ok(RouteQuote::NoRoute),
        Some(v) => {
            if v.len() == 0 {
                Err(TokenError::ChainQuery)
            } else {
                let estimated = v[v.len() - 1];
                let min_out = apply_slippage(&estimated, slippage_bp);
                Ok(RouteQuote::Route { estimated, min_out })
            }
        },
    }
}

/// Relies on chrono's `Utc::now`: the wall clock as a Unix timestamp in
/// seconds.  Nothing is assumed of the reading; the clock may say
/// anything.
#[verifier::external_body]
fn unix_now() -> (t: i64) {
    chrono::Utc::now().timestamp()
}

/// The transaction deadline for a simulated call: `now` plus a fixed
/// window of six hundred seconds.  A clock reading outside the sensible
/// range is clamped so the deadline is always well defined.
pub fn deadline_after(now: i64) -> (r: u64)
    ensures
        0 <= now <= 0x7ffffffffffffd97 ==> r == now + 600,
        now < 0 ==> r == 600,
        now > 0x7ffffffffffffd97 ==> r == 0x7fffffffffffffff,
{
    if now < 0 {
        600
    } else if now > 0x7ffffffffffffd97 {
        0x7fffffffffffffff
    } else {
        (now + 600) as u64
    }
}

/// The deadline for a simulation built now: the current clock reading
/// plus the fixed window.  Whatever the clock says, the result is at
/// least the window itself.
pub fn swap_deadline() -> (r: u64)
    ensures
        r >= 600,
{
    let now = unix_now();
    deadline_after(now)
}

/// A finished quote: estimated output, slippage-protected minimum, and
/// gas, all as decimal amounts.
#[derive(Clone, Copy, Debug, PartialEq, Eq, Structural)]
pub struct SwapQuote {
    pub estimated: DecimalAmount,
    pub min_out: DecimalAmount,
    pub gas: DecimalAmount,
}

/// The outcome of a simulation: a quote, or the explicit no-route result
/// that a router refusal becomes.  Callers can always tell a valid zero
/// quote from a failed request.
#[derive(Clone, Copy, Debug, PartialEq, Eq, Structural)]
pub enum SwapOutcome {
    NoRoute,
    Quote(SwapQuote),
}

/// Decodes the quoted figures at the destination asset's fetched scale;
/// gas is a plain integer amount.
pub fn decode_quote(estimated: U256, min_out: U256, gas: u128, to_decimals: u32) -> (r: SwapQuote)
    ensures
        r.estimated == (DecimalAmount {
            negative: false,
            mantissa: estimated,
            scale: to_decimals,
        }),
        r.min_out == (DecimalAmount { negative: false, mantissa: min_out, scale: to_decimals }),
        r.gas.negative == false,
        u256_val(r.gas.mantissa) == gas,
        r.gas.scale == 0,
{
    SwapQuote {
        estimated: from_scaled(estimated, to_decimals),
        min_out: from_scaled(min_out, to_decimals),
        gas: DecimalAmount { negative: false, mantissa: U256::from_u128(gas), scale: 0 },
    }
}

/// The three figures an outcome reports: a quote's own, or zero for each
/// on no route, as the protocol presents it.
pub fn outcome_amounts(outcome: &SwapOutcome) -> (r: (DecimalAmount, DecimalAmount, DecimalAmount))
    ensures
        outcome is NoRoute ==> {
            &&& dec_wf(r.0) && dec_wf(r.1) && dec_wf(r.2)
            &&& u256_val(r.0.mantissa) == 0
            &&& u256_val(r.1.mantissa) == 0
            &&& u256_val(r.2.mantissa) == 0
        },
        outcome matches SwapOutcome::Quote(q) ==> r == (q.estimated, q.min_out, q.gas),
{
    match outcome {
        SwapOutcome::NoRoute => (
            DecimalAmount::zero(),
            DecimalAmount::zero(),
            DecimalAmount::zero(),
        ),
        SwapOutcome::Quote(q) => (q.estimated, q.min_out, q.gas),
    }
}

} // verus!
