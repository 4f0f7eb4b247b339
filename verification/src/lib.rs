//! Chain-query core: decimal/fixed-point conversion, asset and feed
//! resolution, and slippage-bounded swap simulation.
//!
//! The library holds the logic of the system: translating between decimal
//! amounts and the scaled integers used on chain, resolving symbolic asset
//! names to contract addresses, and computing the quote, minimum output and
//! gas figure of a simulated swap.  All remote reads are performed by the
//! surrounding application, which hands their results to these functions as
//! plain values.

pub mod address;
pub mod balance;
pub mod codec;
pub mod decfmt;
pub mod dectext;
pub mod price;
pub mod swap;
pub mod errors;
pub mod registry;
pub mod uint256;

pub use errors::TokenError;
