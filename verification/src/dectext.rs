//! The textual form of decimal amounts: the grammar `-? digits (. digits)?`,
//! its reading, and its canonical writing.
//!
//! Amounts cross the protocol boundary as decimal strings, never as
//! floating point.  The reader refuses a malformed numeral; the writer
//! produces the canonical spelling: no sign on zero, no leading zeros, no
//! trailing fractional zeros, and no lone dot.

use vstd::prelude::*;
use crate::codec::{DecimalAmount, dec_wf};
use crate::errors::TokenError;
use crate::uint256::{U256, u256_val, u256_bound, pow10, lemma_pow10_pos, lemma_pow10_adds, lemma_u256_val_bound};

verus! {

/// Whether `c` is a decimal digit.
pub open spec fn is_digit(c: char) -> bool {
    48 <= c as int && c as int <= 57
}

/// The value of one decimal digit.
pub open spec fn digit_val(c: char) -> nat {
    ((c as int) - 48) as nat
}

pub open spec fn all_digits(s: Seq<char>) -> bool {
    forall|i: int| 0 <= i < s.len() ==> is_digit(#[trigger] s[i])
}

/// The number written by a big-endian string of decimal digits.
pub open spec fn digits_val(s: Seq<char>) -> nat
    decreases s.len(),
{
    if s.len() == 0 {
        0
    } else {
        digits_val(s.drop_last()) * 10 + digit_val(s.last())
    }
}

/// The index of the last dot in `s`, or minus one.
pub open spec fn dot_pos(s: Seq<char>) -> int
    decreases s.len(),
{
    if s.len() == 0 {
        -1
    } else if s.last() == '.' {
        s.len() - 1
    } else {
        dot_pos(s.drop_last())
    }
}

/// An unsigned numeral: digits, or digits around one interior dot.
pub open spec fn dec_body_ok(s: Seq<char>) -> bool {
    if dot_pos(s) == -1 {
        s.len() > 0 && all_digits(s)
    } else {
        &&& 1 <= dot_pos(s)
        &&& dot_pos(s) < s.len() - 1
        &&& forall|i: int| 0 <= i < s.len() && i != dot_pos(s) ==> is_digit(#[trigger] s[i])
    }
}

/// The digits of a body with its dot removed.
pub open spec fn body_digits(s: Seq<char>) -> Seq<char> {
    if dot_pos(s) == -1 {
        s
    } else {
        s.subrange(0, dot_pos(s)) + s.subrange(dot_pos(s) + 1, s.len() as int)
    }
}

/// The number of fractional digits a body writes.
pub open spec fn body_scale(s: Seq<char>) -> nat {
    if dot_pos(s) == -1 {
        0
    } else {
        (s.len() - 1 - dot_pos(s)) as nat
    }
}

pub open spec fn dec_string_neg(s: Seq<char>) -> bool {
    s.len() > 0 && s[0] == '-'
}

pub open spec fn dec_string_body(s: Seq<char>) -> Seq<char> {
    if dec_string_neg(s) {
        s.subrange(1, s.len() as int)
    } else {
        s
    }
}

/// A well-formed decimal numeral, optionally signed.
pub open spec fn dec_string_ok(s: Seq<char>) -> bool {
    dec_body_ok(dec_string_body(s))
}

pub open spec fn dec_string_mantissa(s: Seq<char>) -> nat {
    digits_val(body_digits(dec_string_body(s)))
}

pub open spec fn dec_string_scale(s: Seq<char>) -> nat {
    body_scale(dec_string_body(s))
}

/// A dot position is a dot, inside the string.
pub proof fn lemma_dot_pos_char(s: Seq<char>)
    requires
        dot_pos(s) != -1,
    ensures
        0 <= dot_pos(s) < s.len(),
        s[dot_pos(s)] == '.',
    decreases s.len(),
{
    if s.len() != 0 && s.last() != '.' {
        lemma_dot_pos_char(s.drop_last());
        assert(s.drop_last()[dot_pos(s.drop_last())] == s[dot_pos(s)]);
    }
}

/// Splitting a digit string splits its value at the matching power.
pub proof fn lemma_digits_concat(a: Seq<char>, b: Seq<char>)
    ensures
        digits_val(a + b) == digits_val(a) * pow10(b.len()) + digits_val(b),
    decreases b.len(),
{
    if b.len() == 0 {
        assert(a + b =~= a);
        assert(digits_val(a) * pow10(0) == digits_val(a)) by (nonlinear_arith)
            requires
                pow10(0) == 1,
        ;
    } else {
        lemma_digits_concat(a, b.drop_last());
        assert((a + b).drop_last() =~= a + b.drop_last());
        assert((a + b).last() == b.last());
        assert(pow10(b.len()) == 10 * pow10((b.len() - 1) as nat));
        assert((digits_val(a) * pow10((b.len() - 1) as nat) + digits_val(b.drop_last())) * 10
            == digits_val(a) * pow10(b.len()) + digits_val(b.drop_last()) * 10)
            by (nonlinear_arith)
            requires
                pow10(b.len()) == 10 * pow10((b.len() - 1) as nat),
        ;
    }
}

/// A digit string that already overflows stays overflowed however it is
/// extended on the right.
proof fn lemma_digits_extend_ge(a: Seq<char>, b: Seq<char>, bound: nat)
    requires
        digits_val(a) >= bound,
    ensures
        digits_val(a + b) >= bound,
{
    lemma_digits_concat(a, b);
    lemma_pow10_pos(b.len());
    assert(digits_val(a) * pow10(b.len()) >= digits_val(a)) by (nonlinear_arith)
        requires
            pow10(b.len()) >= 1,
            digits_val(a) >= 0,
    ;
}

/// Scans the unsigned body `s[start..n]` for the digit grammar with at
/// most one interior dot.  Returns whether a dot was seen and where.
fn scan_body(s: &str, start: usize, n: usize) -> (r: Option<(bool, usize)>)
    requires
        start <= n,
        n == s@.len(),
    ensures
        r is Some <==> dec_body_ok(s@.subrange(start as int, n as int)),
        r is Some ==> {
            &&& ((r->0).0 <==> dot_pos(s@.subrange(start as int, n as int)) != -1)
            &&& (r->0).0 ==> start <= (r->0).1 < n && (r->0).1 - start == dot_pos(
                s@.subrange(start as int, n as int),
            )
        },
{
    let ghost body = s@.subrange(start as int, n as int);
    let mut has_dot: bool = false;
    let mut dpos: usize = 0;
    let mut i: usize = start;
    proof {
        assert(s@.subrange(start as int, start as int) =~= Seq::<char>::empty());
    }
    while i < n
        invariant
            start <= i <= n,
            n == s@.len(),
            body == s@.subrange(start as int, n as int),
            !has_dot ==> dot_pos(s@.subrange(start as int, i as int)) == -1 && all_digits(
                s@.subrange(start as int, i as int),
            ),
            has_dot ==> {
                &&& start < dpos < i
                &&& dpos - start == dot_pos(s@.subrange(start as int, i as int))
                &&& s@[dpos as int] == '.'
                &&& forall|j: int|
                    start <= j < i && j != dpos ==> is_digit(#[trigger] s@[j])
            },
        decreases n - i,
    {
        let c = s.get_char(i);
        proof {
            assert(s@.subrange(start as int, (i + 1) as int).drop_last() =~= s@.subrange(
                start as int,
                i as int,
            ));
            assert(s@.subrange(start as int, (i + 1) as int).last() == c);
            assert(body[i - start] == c);
        }
        let v = c as u32;
        if 48 <= v && v <= 57 {
            proof {
                if has_dot {
                } else {
                    assert(forall|j: int|
                        0 <= j < i + 1 - start ==> is_digit(
                            #[trigger] s@.subrange(start as int, (i + 1) as int)[j],
                        ));
                }
            }
        } else if v == 46 && !has_dot && i > start {
            has_dot = true;
            dpos = i;
            proof {
                assert forall|j: int| start <= j < i implies is_digit(#[trigger] s@[j]) by {
                    assert(s@.subrange(start as int, i as int)[j - start] == s@[j]);
                }
            }
        } else {
            proof {
                if dec_body_ok(body) {
                    if dot_pos(body) == -1 {
                        // every position would be a digit, but this one is not
                        assert(is_digit(body[i - start]));
                    } else {
                        lemma_dot_pos_char(body);
                        if v == 46 {
                            if has_dot {
                                assert(body[dpos - start] == '.');
                                if dot_pos(body) == dpos - start {
                                    assert(is_digit(body[i - start]));
                                } else {
                                    assert(is_digit(body[dpos - start]));
                                }
                            } else {
                                // a leading dot: position zero must be a digit
                                assert(i == start);
                                assert(body[0] == '.');
                                assert(is_digit(body[0]));
                            }
                        } else {
                            assert(body[dot_pos(body)] == '.');
                            assert(is_digit(body[i - start]));
                        }
                    }
                }
            }
            return None;
        }
        i = i + 1;
    }
    proof {
        assert(s@.subrange(start as int, i as int) =~= body);
    }
    if i == start {
        return None;
    }
    if has_dot && dpos == n - 1 {
        return None;
    }
    Some((has_dot, dpos))
}

/// Accumulates the digits at `s[from..to]` onto `acc` as further, less
/// significant digits; refused when the value leaves 256 bits.
fn accumulate_digits(
    s: &str,
    from: usize,
    to: usize,
    acc: U256,
    Ghost(prefix): Ghost<Seq<char>>,
) -> (r: Option<U256>)
    requires
        from <= to,
        to <= s@.len(),
        all_digits(s@.subrange(from as int, to as int)),
        u256_val(acc) == digits_val(prefix),
        u256_val(acc) < u256_bound(),
    ensures
        r is Some <==> digits_val(prefix + s@.subrange(from as int, to as int)) < u256_bound(),
        r is Some ==> u256_val(r->0) == digits_val(
            prefix + s@.subrange(from as int, to as int),
        ),
{
    let mut cur = acc;
    let mut i: usize = from;
    proof {
        assert(s@.subrange(from as int, from as int) =~= Seq::<char>::empty());
        assert(prefix + s@.subrange(from as int, from as int) =~= prefix);
    }
    while i < to
        invariant
            from <= i <= to,
            to <= s@.len(),
            all_digits(s@.subrange(from as int, to as int)),
            u256_val(cur) == digits_val(prefix + s@.subrange(from as int, i as int)),
            u256_val(cur) < u256_bound(),
        decreases to - i,
    {
        let c = s.get_char(i);
        proof {
            assert(s@.subrange(from as int, to as int)[i - from] == c);
            assert(is_digit(c));
            assert((prefix + s@.subrange(from as int, (i + 1) as int)).drop_last() =~= prefix
                + s@.subrange(from as int, i as int));
            assert((prefix + s@.subrange(from as int, (i + 1) as int)).last() == c);
        }
        let d: u64 = ((c as u32) - 48) as u64;
        let v10 = match cur.checked_mul_small(10) {
            Some(v) => v,
            None => {
                proof {
                    lemma_digits_extend_ge(
                        prefix + s@.subrange(from as int, (i + 1) as int),
                        s@.subrange((i + 1) as int, to as int),
                        u256_bound(),
                    );
                    assert((prefix + s@.subrange(from as int, (i + 1) as int)) + s@.subrange(
                        (i + 1) as int,
                        to as int,
                    ) =~= prefix + s@.subrange(from as int, to as int));
                }
                return None;
            },
        };
        let next = match v10.checked_add_small(d) {
            Some(v) => v,
            None => {
                proof {
                    lemma_digits_extend_ge(
                        prefix + s@.subrange(from as int, (i + 1) as int),
                        s@.subrange((i + 1) as int, to as int),
                        u256_bound(),
                    );
                    assert((prefix + s@.subrange(from as int, (i + 1) as int)) + s@.subrange(
                        (i + 1) as int,
                        to as int,
                    ) =~= prefix + s@.subrange(from as int, to as int));
                }
                return None;
            },
        };
        cur = next;
        i = i + 1;
    }
    proof {
        assert(s@.subrange(from as int, i as int) =~= s@.subrange(from as int, to as int));
    }
    Some(cur)
}

/// Reads a decimal numeral.  Fails with `Conversion` exactly when the
/// text is malformed, the mantissa overflows 256 bits, or the fractional
/// part is too long for a machine scale; zero never keeps a sign.
#[verifier::rlimit(100)]
pub fn parse_decimal(s: &str) -> (r: Result<DecimalAmount, TokenError>)
    ensures
        r is Ok <==> (dec_string_ok(s@) && dec_string_mantissa(s@) < u256_bound()
            && dec_string_scale(s@) <= 0xffffffff),
        r is Ok ==> {
            &&& u256_val(r->Ok_0.mantissa) == dec_string_mantissa(s@)
            &&& r->Ok_0.scale == dec_string_scale(s@)
            &&& r->Ok_0.negative == (dec_string_neg(s@) && dec_string_mantissa(s@) != 0)
            &&& dec_wf(r->Ok_0)
        },
        r is Err ==> r == Result::<DecimalAmount, TokenError>::Err(TokenError::Conversion),
{
    let n = s.unicode_len();
    let neg = n > 0 && s.get_char(0) == '-';
    let start: usize = if neg {
        1
    } else {
        0
    };
    let ghost body = s@.subrange(start as int, n as int);
    proof {
        if !neg {
            assert(s@.subrange(0, n as int) =~= s@);
        }
        assert(body == dec_string_body(s@));
    }
    let (has_dot, dpos) = match scan_body(s, start, n) {
        Some(t) => t,
        None => {
            return Err(TokenError::Conversion);
        },
    };
    let zero = U256::zero();
    proof {
        assert(digits_val(Seq::<char>::empty()) == 0);
        lemma_u256_val_bound(zero);
    }
    if has_dot {
        let ghost k = dpos - start;
        proof {
            lemma_dot_pos_char(body);
            assert(body.subrange(0, k as int) =~= s@.subrange(start as int, dpos as int));
            assert(body.subrange(k as int + 1, body.len() as int) =~= s@.subrange(
                (dpos + 1) as int,
                n as int,
            ));
            assert(body_digits(body) =~= s@.subrange(start as int, dpos as int) + s@.subrange(
                (dpos + 1) as int,
                n as int,
            ));
            assert forall|j: int| 0 <= j < dpos - start implies is_digit(
                #[trigger] s@.subrange(start as int, dpos as int)[j],
            ) by {
                assert(s@.subrange(start as int, dpos as int)[j] == body[j]);
            }
            assert forall|j: int| 0 <= j < n - dpos - 1 implies is_digit(
                #[trigger] s@.subrange((dpos + 1) as int, n as int)[j],
            ) by {
                assert(s@.subrange((dpos + 1) as int, n as int)[j] == body[j + k + 1]);
            }
        }
        let scale_wide: usize = n - 1 - dpos;
        if scale_wide > 0xffffffff {
            return Err(TokenError::Conversion);
        }
        let acc1 = match accumulate_digits(s, start, dpos, zero, Ghost(Seq::<char>::empty())) {
            Some(v) => v,
            None => {
                proof {
                    assert(Seq::<char>::empty() + s@.subrange(start as int, dpos as int)
                        =~= s@.subrange(start as int, dpos as int));
                    lemma_digits_extend_ge(
                        s@.subrange(start as int, dpos as int),
                        s@.subrange((dpos + 1) as int, n as int),
                        u256_bound(),
                    );
                }
                return Err(TokenError::Conversion);
            },
        };
        proof {
            assert(Seq::<char>::empty() + s@.subrange(start as int, dpos as int) =~= s@.subrange(
                start as int,
                dpos as int,
            ));
        }
        let acc = match accumulate_digits(
            s,
            dpos + 1,
            n,
            acc1,
            Ghost(s@.subrange(start as int, dpos as int)),
        ) {
            Some(v) => v,
            None => {
                return Err(TokenError::Conversion);
            },
        };
        let negative = neg && !acc.is_zero();
        Ok(DecimalAmount { negative, mantissa: acc, scale: scale_wide as u32 })
    } else {
        proof {
            assert(body_digits(body) == body);
            assert(body =~= s@.subrange(start as int, n as int));
            assert forall|j: int| 0 <= j < n - start implies is_digit(
                #[trigger] s@.subrange(start as int, n as int)[j],
            ) by {
                assert(s@.subrange(start as int, n as int)[j] == body[j]);
            }
        }
        let acc = match accumulate_digits(s, start, n, zero, Ghost(Seq::<char>::empty())) {
            Some(v) => v,
            None => {
                proof {
                    assert(Seq::<char>::empty() + s@.subrange(start as int, n as int)
                        =~= s@.subrange(start as int, n as int));
                }
                return Err(TokenError::Conversion);
            },
        };
        proof {
            assert(Seq::<char>::empty() + s@.subrange(start as int, n as int) =~= s@.subrange(
                start as int,
                n as int,
            ));
        }
        let negative = neg && !acc.is_zero();
        Ok(DecimalAmount { negative, mantissa: acc, scale: 0 })
    }
}

} // verus!
