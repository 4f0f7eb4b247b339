//! The decimal codec: lossless, deterministic conversion between decimal
//! amounts and the scaled integers used on chain.
//!
//! A `DecimalAmount` stands for `mantissa / 10^scale`, negated when the
//! sign flag is set.  Scaling to an on-chain integer multiplies by the
//! target power of ten and truncates toward zero; decoding is the exact
//! inverse embedding.  No floating point appears anywhere on this path.

use vstd::prelude::*;
use vstd::arithmetic::div_mod::{
    lemma_fundamental_div_mod, lemma_div_denominator, lemma_div_by_multiple,
};
use crate::errors::TokenError;
use crate::uint256::{
    U256, u256_val, u256_bound, pow10, lemma_pow10_pos, lemma_pow10_adds, lemma_div_mod_congruence,
    lemma_u256_val_bound,
};

verus! {

/// A human-readable decimal quantity: sign, mantissa and decimal scale.
/// The number stood for is `mantissa / 10^scale`, negated when `negative`.
#[derive(Clone, Copy, Debug, PartialEq, Eq, Structural)]
pub struct DecimalAmount {
    pub negative: bool,
    pub mantissa: U256,
    pub scale: u32,
}

/// Well-formed: zero is never marked negative.
pub open spec fn dec_wf(d: DecimalAmount) -> bool {
    d.negative ==> u256_val(d.mantissa) != 0
}

/// The signed numerator of the number (its denominator is 10^scale).
pub open spec fn dec_num(d: DecimalAmount) -> int {
    if d.negative {
        -(u256_val(d.mantissa) as int)
    } else {
        u256_val(d.mantissa) as int
    }
}

/// Whether two decimal amounts stand for the same number, by cross
/// multiplication of numerator and denominator.
pub open spec fn dec_eq(a: DecimalAmount, b: DecimalAmount) -> bool {
    dec_num(a) * pow10(b.scale as nat) == dec_num(b) * pow10(a.scale as nat)
}

/// The scaled integer a non-negative decimal amount stands for at scale
/// `s`: mantissa times 10^s over 10^scale, truncated toward zero.
pub open spec fn spec_scaled(d: DecimalAmount, s: u32) -> nat {
    (u256_val(d.mantissa) * pow10(s as nat)) / pow10(d.scale as nat)
}

/// Whether the amount is representable exactly at scale `s`: scaling to
/// `s` fractional digits loses nothing to truncation.
pub open spec fn exact_at(d: DecimalAmount, s: u32) -> bool {
    (u256_val(d.mantissa) * pow10(s as nat)) % pow10(d.scale as nat) == 0
}

impl DecimalAmount {
    /// The zero amount at scale 0.
    pub fn zero() -> (r: DecimalAmount)
        ensures
            r.negative == false,
            u256_val(r.mantissa) == 0,
            r.scale == 0,
            dec_wf(r),
            dec_num(r) == 0,
    {
        DecimalAmount { negative: false, mantissa: U256::zero(), scale: 0 }
    }

    /// A non-negative integer amount (scale 0) from a machine word.
    pub fn from_u128(v: u128) -> (r: DecimalAmount)
        ensures
            r.negative == false,
            u256_val(r.mantissa) == v,
            r.scale == 0,
            dec_wf(r),
            dec_num(r) == v,
    {
        DecimalAmount { negative: false, mantissa: U256::from_u128(v), scale: 0 }
    }
}

/// Multiplies the amount by 10^scale and truncates toward zero.  Fails
/// with `Conversion` exactly when the amount is negative or the scaled
/// integer would overflow 256 bits.
pub fn to_scaled(amount: &DecimalAmount, scale: u32) -> (res: Result<U256, TokenError>)
    requires
        dec_wf(*amount),
    ensures
        res is Ok <==> (!amount.negative && spec_scaled(*amount, scale) < u256_bound()),
        res is Ok ==> u256_val(res->Ok_0) == spec_scaled(*amount, scale),
        res is Err ==> res == Result::<U256, TokenError>::Err(TokenError::Conversion),
{
    if amount.negative {
        return Err(TokenError::Conversion);
    }
    let m = amount.mantissa;
    if scale >= amount.scale {
        proof {
            lemma_pow10_pos(amount.scale as nat);
            lemma_pow10_adds(amount.scale as nat, (scale - amount.scale) as nat);
            // mantissa * 10^scale regroups as (mantissa * 10^(scale-σ)) * 10^σ.
            assert(u256_val(m) * pow10(scale as nat) == (u256_val(m) * pow10(
                (scale - amount.scale) as nat,
            )) * pow10(amount.scale as nat)) by (nonlinear_arith)
                requires
                    pow10(scale as nat) == pow10(amount.scale as nat) * pow10(
                        (scale - amount.scale) as nat,
                    ),
            ;
            lemma_div_by_multiple(
                (u256_val(m) * pow10((scale - amount.scale) as nat)) as int,
                pow10(amount.scale as nat) as int,
            );
            lemma_div_mod_congruence(
                (u256_val(m) * pow10(scale as nat)) as int,
                ((u256_val(m) * pow10((scale - amount.scale) as nat)) * pow10(
                    amount.scale as nat,
                )) as int,
                pow10(amount.scale as nat) as int,
                pow10(amount.scale as nat) as int,
            );
        }
        match m.checked_mul_pow10(scale - amount.scale) {
            Some(v) => Ok(v),
            None => Err(TokenError::Conversion),
        }
    } else {
        let v = m.div_pow10(amount.scale - scale);
        proof {
            lemma_pow10_pos(scale as nat);
            lemma_pow10_pos((amount.scale - scale) as nat);
            lemma_pow10_adds(scale as nat, (amount.scale - scale) as nat);
            lemma_div_by_multiple(u256_val(m) as int, pow10(scale as nat) as int);
            lemma_div_denominator(
                (u256_val(m) * pow10(scale as nat)) as int,
                pow10(scale as nat) as int,
                pow10((amount.scale - scale) as nat) as int,
            );
            // The two divisor spellings 10^σ and 10^s * 10^(σ-s) agree.
            lemma_div_mod_congruence(
                u256_val(m) as int,
                ((u256_val(m) * pow10(scale as nat)) as int) / (pow10(scale as nat) as int),
                pow10((amount.scale - scale) as nat) as int,
                pow10((amount.scale - scale) as nat) as int,
            );
            lemma_div_mod_congruence(
                (u256_val(m) * pow10(scale as nat)) as int,
                (u256_val(m) * pow10(scale as nat)) as int,
                (pow10(scale as nat) * pow10((amount.scale - scale) as nat)) as int,
                pow10(amount.scale as nat) as int,
            );
            lemma_u256_val_bound(v);
        }
        Ok(v)
    }
}

/// Embeds a scaled integer back as the decimal amount `value / 10^scale`.
/// The embedding is exact: no precision is lost.
pub fn from_scaled(value: U256, scale: u32) -> (r: DecimalAmount)
    ensures
        r == (DecimalAmount { negative: false, mantissa: value, scale }),
        dec_wf(r),
{
    DecimalAmount { negative: false, mantissa: value, scale }
}

/// Round-trip law: a non-negative amount that is representable exactly at
/// scale `s` (and whose scaled integer fits in 256 bits, which `to_scaled`
/// checks) is decoded back by `from_scaled` to the same number.
pub proof fn lemma_round_trip(x: DecimalAmount, s: u32, v: U256)
    requires
        dec_wf(x),
        !x.negative,
        exact_at(x, s),
        u256_val(v) == spec_scaled(x, s),
    ensures
        dec_eq(DecimalAmount { negative: false, mantissa: v, scale: s }, x),
{
    lemma_pow10_pos(x.scale as nat);
    lemma_fundamental_div_mod(
        (u256_val(x.mantissa) * pow10(s as nat)) as int,
        pow10(x.scale as nat) as int,
    );
    // With a zero remainder the quotient times the divisor gives back the
    // product, so cross multiplication closes.
    assert(u256_val(v) * pow10(x.scale as nat) == pow10(x.scale as nat) * ((u256_val(x.mantissa)
        * pow10(s as nat)) as int / (pow10(x.scale as nat) as int))) by (nonlinear_arith)
        requires
            u256_val(v) == (u256_val(x.mantissa) * pow10(s as nat)) as int / (pow10(
                x.scale as nat,
            ) as int),
    ;
}

} // verus!
