//! Contract addresses: a 160-bit account identifier, and the parsing of
//! its textual form `0x` followed by forty hexadecimal digits.

use vstd::prelude::*;
use crate::errors::TokenError;

verus! {

/// A 160-bit contract or account address.  `w0` holds the most
/// significant 64 bits, `w1` the middle 64, `w2` the low 32.
#[derive(Clone, Copy, Debug, PartialEq, Eq, Structural)]
pub struct Address {
    pub w0: u64,
    pub w1: u64,
    pub w2: u32,
}

/// The number an address stands for.
pub open spec fn addr_val(a: Address) -> nat {
    (a.w0 as nat) * 0x1000000000000000000000000 + (a.w1 as nat) * 0x100000000 + (a.w2 as nat)
}

/// Whether `c` is a hexadecimal digit, either case.
pub open spec fn is_hex_digit(c: char) -> bool {
    (48 <= c as int && c as int <= 57) || (97 <= c as int && c as int <= 102) || (65 <= c as int
        && c as int <= 70)
}

/// The value of one hexadecimal digit.
pub open spec fn hex_digit_val(c: char) -> nat {
    if 48 <= c as int && c as int <= 57 {
        (c as int - 48) as nat
    } else if 97 <= c as int && c as int <= 102 {
        (c as int - 87) as nat
    } else {
        (c as int - 55) as nat
    }
}

pub open spec fn all_hex(s: Seq<char>) -> bool {
    forall|i: int| 0 <= i < s.len() ==> is_hex_digit(#[trigger] s[i])
}

/// The number written by a big-endian string of hexadecimal digits.
pub open spec fn hex_val(s: Seq<char>) -> nat
    decreases s.len(),
{
    if s.len() == 0 {
        0
    } else {
        hex_val(s.drop_last()) * 16 + hex_digit_val(s.last())
    }
}

/// 16^k.
pub open spec fn pow16(k: nat) -> nat
    decreases k,
{
    if k == 0 {
        1
    } else {
        16 * pow16((k - 1) as nat)
    }
}

/// A hexadecimal string of length `n` writes a number below 16^n.
pub proof fn lemma_hex_val_bound(s: Seq<char>)
    requires
        all_hex(s),
    ensures
        hex_val(s) < pow16(s.len()),
    decreases s.len(),
{
    if s.len() == 0 {
    } else {
        assert(forall|j: int|
            0 <= j < s.len() - 1 ==> #[trigger] s.drop_last()[j] == s[j]);
        assert(is_hex_digit(s[s.len() - 1]));
        lemma_hex_val_bound(s.drop_last());
        assert(hex_val(s.drop_last()) * 16 + 15 < 16 * pow16((s.len() - 1) as nat))
            by (nonlinear_arith)
            requires
                hex_val(s.drop_last()) < pow16((s.len() - 1) as nat),
        ;
    }
}

/// Splitting a digit string splits its value at the matching power.
pub proof fn lemma_hex_val_concat(a: Seq<char>, b: Seq<char>)
    ensures
        hex_val(a + b) == hex_val(a) * pow16(b.len()) + hex_val(b),
    decreases b.len(),
{
    if b.len() == 0 {
        assert(a + b =~= a);
        assert(hex_val(a) * pow16(0) == hex_val(a)) by (nonlinear_arith)
            requires
                pow16(0) == 1,
        ;
    } else {
        lemma_hex_val_concat(a, b.drop_last());
        assert((a + b).drop_last() =~= a + b.drop_last());
        assert((a + b).last() == b.last());
        assert(pow16(b.len()) == 16 * pow16((b.len() - 1) as nat));
        assert((hex_val(a) * pow16((b.len() - 1) as nat) + hex_val(b.drop_last())) * 16 == hex_val(
            a,
        ) * pow16(b.len()) + hex_val(b.drop_last()) * 16) by (nonlinear_arith)
            requires
                pow16(b.len()) == 16 * pow16((b.len() - 1) as nat),
        ;
    }
}

/// Whether the text has the shape of an address: `0x` then forty
/// hexadecimal digits.
pub open spec fn is_address_string(s: Seq<char>) -> bool {
    s.len() == 42 && s[0] == '0' && s[1] == 'x' && all_hex(s.subrange(2, 42))
}

/// The address a well-shaped address string denotes.
pub open spec fn address_of_string(s: Seq<char>) -> nat {
    hex_val(s.subrange(2, 42))
}

/// Reads one hexadecimal digit; any other character is refused.
fn hex_digit(c: char) -> (r: Option<u8>)
    ensures
        r is Some <==> is_hex_digit(c),
        r is Some ==> r->0 == hex_digit_val(c),
{
    let v = c as u32;
    if 48 <= v && v <= 57 {
        Some((v - 48) as u8)
    } else if 97 <= v && v <= 102 {
        Some((v - 87) as u8)
    } else if 65 <= v && v <= 70 {
        Some((v - 55) as u8)
    } else {
        None
    }
}

/// Reads the hexadecimal digits of `s` at positions `from..to` as one
/// number; fails on any character that is not a hexadecimal digit.
fn parse_hex_segment(s: &str, from: usize, to: usize, n: usize) -> (r: Option<u64>)
    requires
        from <= to,
        to <= n,
        n == s@.len(),
        to - from <= 16,
    ensures
        r is Some <==> all_hex(s@.subrange(from as int, to as int)),
        r is Some ==> r->0 == hex_val(s@.subrange(from as int, to as int)),
{
    let mut acc: u64 = 0;
    let mut i: usize = from;
    proof {
        assert(s@.subrange(from as int, from as int) =~= Seq::<char>::empty());
    }
    while i < to
        invariant
            from <= i <= to,
            to <= n,
            n == s@.len(),
            to - from <= 16,
            all_hex(s@.subrange(from as int, i as int)),
            acc == hex_val(s@.subrange(from as int, i as int)),
            acc < pow16((i - from) as nat),
        decreases to - i,
    {
        let c = s.get_char(i);
        let d = match hex_digit(c) {
            Some(d) => d,
            None => {
                proof {
                    assert(s@.subrange(from as int, to as int)[i - from] == c);
                }
                return None;
            },
        };
        proof {
            lemma_pow16_mono((i - from) as nat, 15);
            reveal_with_fuel(pow16, 17);
            assert(pow16(15) == 0x1000000000000000);
            assert(acc * 16 + 15 < 16 * pow16((i - from) as nat)) by (nonlinear_arith)
                requires
                    acc < pow16((i - from) as nat),
            ;
            assert(16 * pow16((i - from) as nat) == pow16((i + 1 - from) as nat));
            assert(s@.subrange(from as int, (i + 1) as int).drop_last() =~= s@.subrange(
                from as int,
                i as int,
            ));
            assert(s@.subrange(from as int, (i + 1) as int).last() == c);
        }
        acc = acc * 16 + (d as u64);
        i = i + 1;
    }
    proof {
        assert(s@.subrange(from as int, i as int) =~= s@.subrange(from as int, to as int));
    }
    Some(acc)
}

/// Hexadecimal digits over a range stay hexadecimal over any subrange.
proof fn lemma_all_hex_sub(s: Seq<char>, a: int, b: int, c: int, d: int)
    requires
        0 <= a <= c <= d <= b <= s.len(),
        all_hex(s.subrange(a, b)),
    ensures
        all_hex(s.subrange(c, d)),
{
    assert forall|j: int| 0 <= j < d - c implies is_hex_digit(#[trigger] s.subrange(c, d)[j]) by {
        assert(s.subrange(c, d)[j] == s.subrange(a, b)[j + c - a]);
    }
}

/// Parses `0x` plus forty hexadecimal digits into an address.  Fails with
/// `Conversion` exactly when the text is not of that shape.
pub fn parse_address(s: &str) -> (r: Result<Address, TokenError>)
    ensures
        r is Ok <==> is_address_string(s@),
        r is Ok ==> addr_val(r->Ok_0) == address_of_string(s@),
        r is Err ==> r == Result::<Address, TokenError>::Err(TokenError::Conversion),
{
    let n = s.unicode_len();
    if n != 42 {
        return Err(TokenError::Conversion);
    }
    if s.get_char(0) != '0' || s.get_char(1) != 'x' {
        return Err(TokenError::Conversion);
    }
    let w0 = match parse_hex_segment(s, 2, 18, n) {
        Some(v) => v,
        None => {
            proof {
                if is_address_string(s@) {
                    lemma_all_hex_sub(s@, 2, 42, 2, 18);
                }
            }
            return Err(TokenError::Conversion);
        },
    };
    let w1 = match parse_hex_segment(s, 18, 34, n) {
        Some(v) => v,
        None => {
            proof {
                if is_address_string(s@) {
                    lemma_all_hex_sub(s@, 2, 42, 18, 34);
                }
            }
            return Err(TokenError::Conversion);
        },
    };
    let w2seg = match parse_hex_segment(s, 34, 42, n) {
        Some(v) => v,
        None => {
            proof {
                if is_address_string(s@) {
                    lemma_all_hex_sub(s@, 2, 42, 34, 42);
                }
            }
            return Err(TokenError::Conversion);
        },
    };
    proof {
        lemma_hex_val_bound(s@.subrange(34, 42));
        reveal_with_fuel(pow16, 26);
        assert(pow16(8) == 0x100000000);
        assert(pow16(24) == 0x1000000000000000000000000);
    }
    let a = Address { w0, w1, w2: w2seg as u32 };
    proof {
        // The forty digits are the three segments laid end to end.
        assert forall|j: int| 0 <= j < 40 implies is_hex_digit(#[trigger] s@.subrange(2, 42)[j]) by {
            if j < 16 {
                assert(s@.subrange(2, 42)[j] == s@.subrange(2, 18)[j]);
            } else if j < 32 {
                assert(s@.subrange(2, 42)[j] == s@.subrange(18, 34)[j - 16]);
            } else {
                assert(s@.subrange(2, 42)[j] == s@.subrange(34, 42)[j - 32]);
            }
        }
        assert(s@.subrange(2, 18) + s@.subrange(18, 42) =~= s@.subrange(2, 42));
        assert(s@.subrange(18, 34) + s@.subrange(34, 42) =~= s@.subrange(18, 42));
        lemma_hex_val_concat(s@.subrange(2, 18), s@.subrange(18, 42));
        lemma_hex_val_concat(s@.subrange(18, 34), s@.subrange(34, 42));
        assert(hex_val(s@.subrange(2, 18)) * pow16(24) == (hex_val(s@.subrange(2, 18)) as int)
            * 0x1000000000000000000000000) by (nonlinear_arith)
            requires
                pow16(24) == 0x1000000000000000000000000,
        ;
        assert(hex_val(s@.subrange(18, 34)) * pow16(8) == (hex_val(s@.subrange(18, 34)) as int)
            * 0x100000000) by (nonlinear_arith)
            requires
                pow16(8) == 0x100000000,
        ;
    }
    Ok(a)
}

pub proof fn lemma_pow16_pos(k: nat)
    ensures
        pow16(k) >= 1,
    decreases k,
{
    if k > 0 {
        lemma_pow16_pos((k - 1) as nat);
    }
}

pub proof fn lemma_pow16_mono(a: nat, b: nat)
    requires
        a <= b,
    ensures
        pow16(a) <= pow16(b),
    decreases b,
{
    if a < b {
        lemma_pow16_mono(a, (b - 1) as nat);
        lemma_pow16_pos((b - 1) as nat);
        assert(pow16(b) == 16 * pow16((b - 1) as nat));
    }
}

} // verus!
