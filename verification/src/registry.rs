//! The asset registry: immutable maps from symbolic asset names to token
//! contract addresses and to oracle feed addresses, built once at process
//! start and only read afterwards.

use vstd::prelude::*;
use crate::address::Address;
use crate::errors::TokenError;

verus! {

/// One named entry: an asset symbol and the address it stands for.
#[derive(Debug)]
pub struct AssetEntry {
    pub symbol: String,
    pub address: Address,
}

/// The address a symbol resolves to: the chain's base currency, or a
/// deployed contract.
#[derive(Clone, Copy, Debug, PartialEq, Eq, Structural)]
pub enum AssetAddress {
    Native,
    Contract(Address),
}

/// First match for `name` in a list of entries.
pub open spec fn lookup_spec(entries: Seq<AssetEntry>, name: Seq<char>) -> Option<Address>
    decreases entries.len(),
{
    if entries.len() == 0 {
        None
    } else if entries[0].symbol@ == name {
        Some(entries[0].address)
    } else {
        lookup_spec(entries.subrange(1, entries.len() as int), name)
    }
}

/// Maps from symbol to token contract address and from symbol to oracle
/// feed address.  Populated once at startup from configuration, then
/// never mutated.
pub struct AssetRegistry {
    pub tokens: Vec<AssetEntry>,
    pub feeds: Vec<AssetEntry>,
}

/// Whether two text slices hold the same characters.
pub fn str_eq(a: &str, b: &str) -> (r: bool)
    ensures
        r <==> a@ == b@,
{
    let owned_a = a.to_owned();
    let owned_b = b.to_owned();
    owned_a == owned_b
}

/// Linear scan for the first entry whose symbol is `name`.
fn lookup(entries: &Vec<AssetEntry>, name: &str) -> (r: Option<Address>)
    ensures
        r == lookup_spec(entries@, name@),
{
    let n = entries.len();
    let mut i: usize = 0;
    proof {
        assert(entries@.subrange(0, n as int) =~= entries@);
    }
    while i < n
        invariant
            i <= n,
            n == entries@.len(),
            lookup_spec(entries@, name@) == lookup_spec(
                entries@.subrange(i as int, n as int),
                name@,
            ),
        decreases n - i,
    {
        proof {
            assert(entries@.subrange(i as int, n as int)[0] == entries@[i as int]);
            assert(entries@.subrange(i as int, n as int).subrange(
                1,
                (n - i) as int,
            ) =~= entries@.subrange((i + 1) as int, n as int));
        }
        if str_eq(entries[i].symbol.as_str(), name) {
            return Some(entries[i].address);
        }
        i = i + 1;
    }
    proof {
        assert(entries@.subrange(i as int, n as int) =~= Seq::<AssetEntry>::empty());
    }
    None
}

impl AssetRegistry {
    /// An empty registry.
    pub fn new() -> (r: AssetRegistry)
        ensures
            r.tokens@ =~= Seq::<AssetEntry>::empty(),
            r.feeds@ =~= Seq::<AssetEntry>::empty(),
    {
        AssetRegistry { tokens: Vec::new(), feeds: Vec::new() }
    }

    /// Registers a token contract under a symbol.
    pub fn add_token(&mut self, symbol: String, address: Address)
        ensures
            final(self).tokens@ == old(self).tokens@.push(AssetEntry { symbol, address }),
            final(self).feeds@ == old(self).feeds@,
    {
        self.tokens.push(AssetEntry { symbol, address });
    }

    /// Registers an oracle feed under a symbol.
    pub fn add_feed(&mut self, symbol: String, address: Address)
        ensures
            final(self).feeds@ == old(self).feeds@.push(AssetEntry { symbol, address }),
            final(self).tokens@ == old(self).tokens@,
    {
        self.feeds.push(AssetEntry { symbol, address });
    }

    /// The token contract address registered under `name`, if any.
    pub fn token_address(&self, name: &str) -> (r: Option<Address>)
        ensures
            r == lookup_spec(self.tokens@, name@),
    {
        lookup(&self.tokens, name)
    }

    /// The oracle feed address registered under `name`, if any.
    pub fn feed_address(&self, name: &str) -> (r: Option<Address>)
        ensures
            r == lookup_spec(self.feeds@, name@),
    {
        lookup(&self.feeds, name)
    }

    /// Resolves an asset name: the native asset's own symbol gives the
    /// native sentinel, a registered symbol gives its contract address,
    /// and anything else is refused as an unknown asset.
    pub fn resolve(&self, name: &str) -> (r: Result<AssetAddress, TokenError>)
        ensures
            name@ == "ETH"@ ==> r == Result::<AssetAddress, TokenError>::Ok(AssetAddress::Native),
            name@ != "ETH"@ && lookup_spec(self.tokens@, name@) is Some ==> r == Result::<
                AssetAddress,
                TokenError,
            >::Ok(AssetAddress::Contract(lookup_spec(self.tokens@, name@)->0)),
            name@ != "ETH"@ && lookup_spec(self.tokens@, name@) is None ==> r == Result::<
                AssetAddress,
                TokenError,
            >::Err(TokenError::UnknownAsset),
    {
        if str_eq(name, "ETH") {
            return Ok(AssetAddress::Native);
        }
        match self.token_address(name) {
            Some(a) => Ok(AssetAddress::Contract(a)),
            None => Err(TokenError::UnknownAsset),
        }
    }
}

} // verus!
