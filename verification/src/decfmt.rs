//! Writing decimal amounts as canonical numerals: no sign on zero, no
//! leading zeros, a dot only between a nonempty integer part and a
//! nonempty fraction, and no trailing fractional zeros.

use vstd::prelude::*;
use crate::codec::{DecimalAmount, dec_wf};
use crate::dectext::{
    is_digit, digit_val, all_digits, digits_val, dot_pos, dec_string_ok, dec_string_neg,
    dec_string_body, dec_string_mantissa, dec_string_scale, body_digits, lemma_digits_concat,
};
use crate::uint256::{U256, u256_val, pow10, lemma_pow10_pos, lemma_pow10_adds};

verus! {

/// The character that writes one digit.
pub open spec fn digit_char(d: nat) -> char {
    if d == 0 {
        '0'
    } else if d == 1 {
        '1'
    } else if d == 2 {
        '2'
    } else if d == 3 {
        '3'
    } else if d == 4 {
        '4'
    } else if d == 5 {
        '5'
    } else if d == 6 {
        '6'
    } else if d == 7 {
        '7'
    } else if d == 8 {
        '8'
    } else {
        '9'
    }
}

/// The characters of a digit sequence, most significant first.
pub open spec fn digit_chars(ds: Seq<u8>) -> Seq<char> {
    Seq::new(ds.len(), |i: int| digit_char(ds[i] as nat))
}

/// Writing then reading one digit gives it back.
proof fn lemma_digit_char(d: nat)
    requires
        d < 10,
    ensures
        is_digit(digit_char(d)),
        digit_val(digit_char(d)) == d,
        d != 0 ==> digit_char(d) != '0',
{
}

/// The value of a digit sequence read least significant first.
pub open spec fn val_lsd(ds: Seq<u8>) -> nat
    decreases ds.len(),
{
    if ds.len() == 0 {
        0
    } else {
        (ds[0] as nat) + 10 * val_lsd(ds.subrange(1, ds.len() as int))
    }
}

/// One more digit on the least-significant end scales the rest by ten.
proof fn lemma_val_lsd_push(ds: Seq<u8>, d: u8)
    ensures
        val_lsd(ds.push(d)) == val_lsd(ds) + (d as nat) * pow10(ds.len()),
    decreases ds.len(),
{
    if ds.len() == 0 {
        assert(ds.push(d).subrange(1, 1) =~= Seq::<u8>::empty());
        assert(val_lsd(Seq::<u8>::empty()) == 0);
        assert((d as nat) * pow10(ds.len()) == d) by (nonlinear_arith)
            requires
                pow10(ds.len()) == 1,
        ;
    } else {
        lemma_val_lsd_push(ds.subrange(1, ds.len() as int), d);
        assert(ds.push(d).subrange(1, ds.len() as int + 1) =~= ds.subrange(
            1,
            ds.len() as int,
        ).push(d));
        assert(pow10(ds.len()) == 10 * pow10((ds.len() - 1) as nat));
        assert((d as nat) * pow10(ds.subrange(1, ds.len() as int).len()) == (d as nat) * pow10(
            (ds.len() - 1) as nat,
        )) by (nonlinear_arith)
            requires
                pow10(ds.subrange(1, ds.len() as int).len()) == pow10((ds.len() - 1) as nat),
        ;
        assert(10 * ((d as nat) * pow10((ds.len() - 1) as nat)) == (d as nat) * pow10(ds.len()))
            by (nonlinear_arith)
            requires
                pow10(ds.len()) == 10 * pow10((ds.len() - 1) as nat),
        ;
    }
}

/// Reading digits most significant first gives the same number as the
/// reversed sequence read least significant first.
proof fn lemma_rev_val(lsd: Seq<u8>, msd: Seq<u8>)
    requires
        msd.len() == lsd.len(),
        forall|i: int| 0 <= i < lsd.len() ==> #[trigger] lsd[i] < 10,
        forall|i: int| 0 <= i < msd.len() ==> #[trigger] msd[i] == lsd[lsd.len() - 1 - i],
    ensures
        digits_val(digit_chars(msd)) == val_lsd(lsd),
    decreases lsd.len(),
{
    if lsd.len() > 0 {
        let lsd1 = lsd.subrange(1, lsd.len() as int);
        let msd1 = msd.drop_last();
        assert(forall|i: int|
            0 <= i < msd1.len() ==> #[trigger] msd1[i] == lsd1[lsd1.len() - 1 - i]);
        lemma_rev_val(lsd1, msd1);
        assert(digit_chars(msd).drop_last() =~= digit_chars(msd1));
        assert(digit_chars(msd).last() == digit_char(msd.last() as nat));
        assert(msd.last() == lsd[0]);
        lemma_digit_char(lsd[0] as nat);
    } else {
        assert(digit_chars(msd) =~= Seq::<char>::empty());
    }
}

/// Appends one digit character.
fn push_digit(out: &mut String, d: u8)
    requires
        d < 10,
    ensures
        final(out)@ == old(out)@.push(digit_char(d as nat)),
{
    proof {
        reveal_strlit("0");
        reveal_strlit("1");
        reveal_strlit("2");
        reveal_strlit("3");
        reveal_strlit("4");
        reveal_strlit("5");
        reveal_strlit("6");
        reveal_strlit("7");
        reveal_strlit("8");
        reveal_strlit("9");
    }
    if d == 0 {
        out.append("0");
    } else if d == 1 {
        out.append("1");
    } else if d == 2 {
        out.append("2");
    } else if d == 3 {
        out.append("3");
    } else if d == 4 {
        out.append("4");
    } else if d == 5 {
        out.append("5");
    } else if d == 6 {
        out.append("6");
    } else if d == 7 {
        out.append("7");
    } else if d == 8 {
        out.append("8");
    } else {
        out.append("9");
    }
    proof {
        assert(final(out)@ =~= old(out)@.push(digit_char(d as nat)));
    }
}

/// The decimal digits of a 256-bit value, most significant first; zero
/// is the single digit `0`.
fn digits_of(v: &U256) -> (ds: Vec<u8>)
    ensures
        ds@.len() >= 1,
        forall|i: int| 0 <= i < ds@.len() ==> #[trigger] ds@[i] < 10,
        digits_val(digit_chars(ds@)) == u256_val(*v),
        ds@.len() > 1 ==> ds@[0] != 0,
{
    let mut lsd: Vec<u8> = Vec::new();
    let mut rem = *v;
    proof {
        assert(lsd@ =~= Seq::<u8>::empty());
        assert(u256_val(rem) * pow10(lsd@.len()) == u256_val(rem)) by (nonlinear_arith)
            requires
                pow10(lsd@.len()) == 1,
        ;
    }
    while !rem.is_zero()
        invariant
            u256_val(*v) == u256_val(rem) * pow10(lsd@.len()) + val_lsd(lsd@),
            forall|i: int| 0 <= i < lsd@.len() ==> #[trigger] lsd@[i] < 10,
            u256_val(rem) == 0 && lsd@.len() >= 1 ==> lsd@.last() != 0,
            lsd@.len() >= 1 || u256_val(rem) == u256_val(*v),
        decreases u256_val(rem),
    {
        let (q, r10) = rem.div_rem_small(10);
        proof {
            // rem == 10 * q + r10, so the split value is preserved.
            lemma_val_lsd_push(lsd@, r10 as u8);
            assert(pow10((lsd@.len() + 1) as nat) == 10 * pow10(lsd@.len()));
            assert(u256_val(rem) == u256_val(q) * 10 + ((r10 as u8) as nat));
            assert(u256_val(rem) * pow10(lsd@.len()) == u256_val(q) * pow10(
                (lsd@.len() + 1) as nat,
            ) + ((r10 as u8) as nat) * pow10(lsd@.len())) by (nonlinear_arith)
                requires
                    u256_val(rem) == u256_val(q) * 10 + ((r10 as u8) as nat),
                    pow10((lsd@.len() + 1) as nat) == 10 * pow10(lsd@.len()),
            ;
            assert(u256_val(q) * pow10(lsd@.push(r10 as u8).len()) == u256_val(q) * pow10(
                (lsd@.len() + 1) as nat,
            )) by (nonlinear_arith)
                requires
                    pow10(lsd@.push(r10 as u8).len()) == pow10((lsd@.len() + 1) as nat),
            ;
            // the quotient is strictly smaller, for termination
            assert(u256_val(q) < u256_val(rem)) by (nonlinear_arith)
                requires
                    u256_val(rem) == u256_val(q) * 10 + r10,
                    r10 >= 0,
                    u256_val(rem) > 0,
            ;
        }
        lsd.push(r10 as u8);
        rem = q;
    }
    if lsd.len() == 0 {
        let mut one: Vec<u8> = Vec::new();
        one.push(0);
        proof {
            assert(u256_val(rem) * pow10(lsd@.len()) == 0) by (nonlinear_arith)
                requires
                    u256_val(rem) == 0,
            ;
            assert(u256_val(*v) == 0);
            assert(digit_chars(one@).drop_last() =~= Seq::<char>::empty());
            assert(digit_chars(one@).last() == '0');
            assert(digit_val('0') == 0);
            assert(digits_val(Seq::<char>::empty()) == 0);
            assert(digits_val(digit_chars(one@)) == 0);
        }
        return one;
    }
    let n = lsd.len();
    let mut msd: Vec<u8> = Vec::new();
    let mut idx: usize = n;
    while idx > 0
        invariant
            idx <= n,
            n == lsd@.len(),
            msd@.len() == n - idx,
            forall|i: int| 0 <= i < msd@.len() ==> #[trigger] msd@[i] == lsd@[n - 1 - i],
        decreases idx,
    {
        idx = idx - 1;
        msd.push(lsd[idx]);
    }
    proof {
        lemma_rev_val(lsd@, msd@);
        assert(msd@[0] == lsd@[n - 1]);
        assert(u256_val(rem) == 0);
        assert(u256_val(rem) * pow10(lsd@.len()) == 0) by (nonlinear_arith)
            requires
                u256_val(rem) == 0,
        ;
    }
    msd
}

/// Appends the digit characters of `ds[from..to]`.
fn append_digits(out: &mut String, ds: &Vec<u8>, from: usize, to: usize)
    requires
        from <= to,
        to <= ds@.len(),
        forall|i: int| 0 <= i < ds@.len() ==> #[trigger] ds@[i] < 10,
    ensures
        final(out)@ == old(out)@ + digit_chars(ds@.subrange(from as int, to as int)),
{
    let mut i: usize = from;
    proof {
        assert(old(out)@ + digit_chars(ds@.subrange(from as int, from as int)) =~= old(out)@);
    }
    while i < to
        invariant
            from <= i <= to,
            to <= ds@.len(),
            forall|j: int| 0 <= j < ds@.len() ==> #[trigger] ds@[j] < 10,
            out@ == old(out)@ + digit_chars(ds@.subrange(from as int, i as int)),
        decreases to - i,
    {
        push_digit(out, ds[i]);
        proof {
            assert(old(out)@ + digit_chars(ds@.subrange(from as int, (i + 1) as int)) =~= (old(
                out,
            )@ + digit_chars(ds@.subrange(from as int, i as int))).push(
                digit_char(ds@[i as int] as nat),
            ));
        }
        i = i + 1;
    }
    proof {
        assert(ds@.subrange(from as int, i as int) =~= ds@.subrange(from as int, to as int));
    }
}

/// All-digit text holds no dot.
proof fn lemma_no_dot(s: Seq<char>)
    requires
        all_digits(s),
    ensures
        dot_pos(s) == -1,
    decreases s.len(),
{
    if s.len() > 0 {
        assert(is_digit(s.last()));
        assert(forall|j: int| 0 <= j < s.len() - 1 ==> #[trigger] s.drop_last()[j] == s[j]);
        lemma_no_dot(s.drop_last());
    }
}

/// A dot-free extension on the right leaves the last dot where it was.
proof fn lemma_dot_pos_append(x: Seq<char>, b: Seq<char>)
    requires
        forall|i: int| 0 <= i < b.len() ==> #[trigger] b[i] != '.',
    ensures
        dot_pos(x + b) == dot_pos(x),
    decreases b.len(),
{
    if b.len() > 0 {
        lemma_dot_pos_append(x, b.drop_last());
        assert((x + b).drop_last() =~= x + b.drop_last());
        assert((x + b).last() == b.last());
    } else {
        assert(x + b =~= x);
    }
}

/// A run of zero characters writes the number zero.
proof fn lemma_zeros_val(z: Seq<char>)
    requires
        forall|i: int| 0 <= i < z.len() ==> #[trigger] z[i] == '0',
    ensures
        digits_val(z) == 0,
        all_digits(z),
    decreases z.len(),
{
    if z.len() > 0 {
        assert(forall|j: int| 0 <= j < z.len() - 1 ==> #[trigger] z.drop_last()[j] == z[j]);
        lemma_zeros_val(z.drop_last());
    }
}

/// Appends `count` zero characters.
fn append_zeros(out: &mut String, count: usize)
    ensures
        final(out)@ == old(out)@ + Seq::new(count as nat, |i: int| '0'),
{
    let mut i: usize = 0;
    proof {
        assert(old(out)@ + Seq::new(0, |i: int| '0') =~= old(out)@);
    }
    while i < count
        invariant
            i <= count,
            out@ == old(out)@ + Seq::new(i as nat, |j: int| '0'),
        decreases count - i,
    {
        push_digit(out, 0);
        proof {
            assert(old(out)@ + Seq::new((i + 1) as nat, |j: int| '0') =~= (old(out)@ + Seq::new(
                i as nat,
                |j: int| '0',
            )).push('0'));
        }
        i = i + 1;
    }
}

/// Strips trailing zero fractional digits: the same number at the
/// smallest scale that still writes it exactly.
fn normalize(d: &DecimalAmount) -> (r: DecimalAmount)
    requires
        dec_wf(*d),
    ensures
        dec_wf(r),
        r.negative == d.negative,
        r.scale <= d.scale,
        u256_val(d.mantissa) == u256_val(r.mantissa) * pow10((d.scale - r.scale) as nat),
        r.scale > 0 ==> u256_val(r.mantissa) % 10 != 0,
        u256_val(r.mantissa) == 0 ==> u256_val(d.mantissa) == 0,
{
    let mut m = d.mantissa;
    let mut sc = d.scale;
    proof {
        assert(u256_val(m) * pow10((d.scale - sc) as nat) == u256_val(m)) by (nonlinear_arith)
            requires
                pow10((d.scale - sc) as nat) == 1,
        ;
    }
    loop
        invariant
            dec_wf(*d),
            sc <= d.scale,
            u256_val(d.mantissa) == u256_val(m) * pow10((d.scale - sc) as nat),
            u256_val(m) == 0 ==> u256_val(d.mantissa) == 0,
        ensures
            sc == 0 || u256_val(m) % 10 != 0,
        decreases sc,
    {
        if sc == 0 {
            break;
        }
        let (q, r10) = m.div_rem_small(10);
        if r10 != 0 {
            break;
        }
        proof {
            assert(pow10((d.scale - sc + 1) as nat) == 10 * pow10((d.scale - sc) as nat));
            assert(u256_val(m) * pow10((d.scale - sc) as nat) == u256_val(q) * pow10(
                (d.scale - sc + 1) as nat,
            )) by (nonlinear_arith)
                requires
                    u256_val(m) == u256_val(q) * 10,
                    pow10((d.scale - sc + 1) as nat) == 10 * pow10((d.scale - sc) as nat),
            ;
        }
        m = q;
        sc = sc - 1;
    }
    proof {
        if d.negative {
            lemma_pow10_pos((d.scale - sc) as nat);
            assert(u256_val(m) * pow10((d.scale - sc) as nat) != 0 ==> u256_val(m) != 0)
                by (nonlinear_arith);
        }
    }
    let out = DecimalAmount { negative: d.negative, mantissa: m, scale: sc };
    proof {
        assert(u256_val(out.mantissa) * pow10((d.scale - out.scale) as nat) == u256_val(m)
            * pow10((d.scale - sc) as nat)) by (nonlinear_arith)
            requires
                u256_val(out.mantissa) == u256_val(m),
                pow10((d.scale - out.scale) as nat) == pow10((d.scale - sc) as nat),
        ;
    }
    out
}

/// Canonical spelling of the integer part: a zero digit leads only when
/// it is the whole integer part.
pub open spec fn no_leading_zero(body: Seq<char>) -> bool {
    body.len() > 1 && body[1] != '.' ==> body[0] != '0'
}

/// The sign prefix, and the facts shared by every numeral shape.
fn numeral_start(negative: bool) -> (out: String)
    ensures
        negative ==> out@ =~= seq!['-'],
        !negative ==> out@ =~= Seq::<char>::empty(),
{
    let mut out = String::new();
    if negative {
        proof {
            reveal_strlit("-");
        }
        out.append("-");
    }
    out
}

/// A plain integer numeral: the digits alone.
fn write_integer(negative: bool, ds: &Vec<u8>) -> (r: String)
    requires
        ds@.len() >= 1,
        forall|i: int| 0 <= i < ds@.len() ==> #[trigger] ds@[i] < 10,
        ds@.len() > 1 ==> ds@[0] != 0,
    ensures
        dec_string_ok(r@),
        dec_string_neg(r@) == negative,
        dec_string_mantissa(r@) == digits_val(digit_chars(ds@)),
        dec_string_scale(r@) == 0,
        no_leading_zero(dec_string_body(r@)),
{
    let mut out = numeral_start(negative);
    let len = ds.len();
    proof {
        assert(ds@.subrange(0, len as int) =~= ds@);
    }
    append_digits(&mut out, &ds, 0, len);
    proof {
        let all = digit_chars(ds@);
        let body = dec_string_body(out@);
        assert(body =~= all);
        assert(all_digits(all));
        lemma_no_dot(all);
        if body.len() > 1 {
            assert(body[0] == digit_char(ds@[0] as nat));
            lemma_digit_char(ds@[0] as nat);
        }
    }
    out
}

/// A numeral with an interior dot: integer digits, the dot, then the
/// fractional digits.
#[verifier::rlimit(50)]
fn write_with_dot(negative: bool, ds: &Vec<u8>, scale_n: u32) -> (r: String)
    requires
        ds@.len() >= 1,
        forall|i: int| 0 <= i < ds@.len() ==> #[trigger] ds@[i] < 10,
        scale_n >= 1,
        ds@.len() > scale_n,
        ds@.len() > 1 ==> ds@[0] != 0,
    ensures
        dec_string_ok(r@),
        dec_string_neg(r@) == negative,
        dec_string_mantissa(r@) == digits_val(digit_chars(ds@)),
        dec_string_scale(r@) == scale_n,
        no_leading_zero(dec_string_body(r@)),
{
    let mut out = numeral_start(negative);
    let len = ds.len();
    let k = len - (scale_n as usize);
    append_digits(&mut out, &ds, 0, k);
    proof {
        reveal_strlit(".");
    }
    out.append(".");
    append_digits(&mut out, &ds, k, len);
    proof {
        let all = digit_chars(ds@);
        let intpart = digit_chars(ds@.subrange(0, k as int));
        let frac = digit_chars(ds@.subrange(k as int, len as int));
        let body = dec_string_body(out@);
        assert(ds@.subrange(0, len as int) =~= ds@);
        assert(body =~= (intpart.push('.')) + frac);
        assert(forall|i: int| 0 <= i < frac.len() ==> #[trigger] frac[i] != '.');
        lemma_dot_pos_append(intpart.push('.'), frac);
        assert(dot_pos(intpart.push('.')) == intpart.len());
        assert(dot_pos(body) == k);
        assert(body.subrange(0, k as int) =~= intpart);
        assert(body.subrange(k as int + 1, body.len() as int) =~= frac);
        assert(body_digits(body) =~= all);
        assert(all_digits(all));
        assert(body[0] == digit_char(ds@[0] as nat));
        lemma_digit_char(ds@[0] as nat);
    }
    out
}

/// A numeral below one: a zero, the dot, padding zeros, then the digits.
#[verifier::rlimit(50)]
fn write_padded(negative: bool, ds: &Vec<u8>, scale_n: u32) -> (r: String)
    requires
        ds@.len() >= 1,
        forall|i: int| 0 <= i < ds@.len() ==> #[trigger] ds@[i] < 10,
        scale_n >= 1,
        ds@.len() <= scale_n,
    ensures
        dec_string_ok(r@),
        dec_string_neg(r@) == negative,
        dec_string_mantissa(r@) == digits_val(digit_chars(ds@)),
        dec_string_scale(r@) == scale_n,
        no_leading_zero(dec_string_body(r@)),
{
    let mut out = numeral_start(negative);
    let len = ds.len();
    let scale_us = scale_n as usize;
    proof {
        reveal_strlit(".");
    }
    push_digit(&mut out, 0);
    out.append(".");
    append_zeros(&mut out, scale_us - len);
    append_digits(&mut out, &ds, 0, len);
    proof {
        let all = digit_chars(ds@);
        let zeros = Seq::new((scale_us - len) as nat, |i: int| '0');
        let frac = zeros + all;
        let body = dec_string_body(out@);
        assert(ds@.subrange(0, len as int) =~= ds@);
        lemma_zeros_val(zeros);
        assert(all_digits(all));
        assert(body =~= (seq!['0'].push('.')) + frac);
        assert(forall|i: int| 0 <= i < frac.len() ==> #[trigger] frac[i] != '.');
        lemma_dot_pos_append(seq!['0'].push('.'), frac);
        assert(dot_pos(seq!['0'].push('.')) == 1);
        assert(dot_pos(body) == 1);
        assert(body.subrange(0, 1) =~= seq!['0']);
        assert(body.subrange(2, body.len() as int) =~= frac);
        assert(seq!['0'] + frac =~= (seq!['0'] + zeros) + all);
        assert(body_digits(body) =~= (seq!['0'] + zeros) + all);
        lemma_zeros_val(seq!['0'] + zeros);
        lemma_digits_concat(seq!['0'] + zeros, all);
        assert(body[1] == '.');
    }
    out
}

/// Writes the numeral for an unsigned digit string at a scale: a plain
/// integer, digits around an interior dot, or a fraction padded below
/// one.
fn write_numeral(negative: bool, ds: &Vec<u8>, scale_n: u32) -> (r: String)
    requires
        ds@.len() >= 1,
        forall|i: int| 0 <= i < ds@.len() ==> #[trigger] ds@[i] < 10,
        ds@.len() > 1 ==> ds@[0] != 0,
    ensures
        dec_string_ok(r@),
        dec_string_neg(r@) == negative,
        dec_string_mantissa(r@) == digits_val(digit_chars(ds@)),
        dec_string_scale(r@) == scale_n,
        no_leading_zero(dec_string_body(r@)),
{
    if scale_n == 0 {
        write_integer(negative, ds)
    } else if ds.len() > scale_n as usize {
        write_with_dot(negative, ds, scale_n)
    } else {
        write_padded(negative, ds, scale_n)
    }
}

/// Writes a decimal amount as its canonical numeral: minus sign only on a
/// negative number, no leading zeros, a dot only between a nonempty
/// integer part and a nonempty fraction, and no trailing fractional
/// zeros.  The numeral reads back to the same number.
pub fn format_decimal(d: &DecimalAmount) -> (r: String)
    requires
        dec_wf(*d),
    ensures
        dec_string_ok(r@),
        dec_string_neg(r@) == d.negative,
        dec_string_mantissa(r@) * pow10(d.scale as nat) == u256_val(d.mantissa) * pow10(
            dec_string_scale(r@),
        ),
        dec_string_scale(r@) > 0 ==> dec_string_mantissa(r@) % 10 != 0,
        dec_string_scale(r@) <= d.scale,
        no_leading_zero(dec_string_body(r@)),
{
    let norm = normalize(d);
    let ds = digits_of(&norm.mantissa);
    proof {
        if norm.scale > 0 {
            // the normalized mantissa is not divisible by ten, so its last
            // written digit is not zero
            lemma_digits_mod_ten(digit_chars(ds@));
            assert(digit_chars(ds@).last() == digit_char(ds@[ds@.len() - 1] as nat));
            lemma_digit_char(ds@[ds@.len() - 1] as nat);
        }
    }
    let out = write_numeral(norm.negative, &ds, norm.scale);
    proof {
        if dec_string_scale(out@) > 0 {
            lemma_digits_mod_ten(digit_chars(ds@));
            assert(digit_chars(ds@).last() == digit_char(ds@[ds@.len() - 1] as nat));
            lemma_digit_char(ds@[ds@.len() - 1] as nat);
        }
        finish_value_link(*d, norm, digits_val(digit_chars(ds@)), norm.scale);
    }
    out
}

/// The last digit of a numeral is its value's last digit.
proof fn lemma_digits_mod_ten(s: Seq<char>)
    requires
        s.len() >= 1,
        all_digits(s),
    ensures
        digits_val(s) % 10 == digit_val(s.last()),
{
    assert(is_digit(s.last()));
    assert((digits_val(s.drop_last()) * 10 + digit_val(s.last())) % 10 == digit_val(s.last()))
        by (nonlinear_arith)
        requires
            digit_val(s.last()) < 10,
    ;
}

/// Connects the written mantissa and scale back to the amount that was
/// handed in, through its normalized form.
proof fn finish_value_link(d: DecimalAmount, norm: DecimalAmount, mantissa: nat, scale: u32)
    requires
        norm.scale <= d.scale,
        u256_val(d.mantissa) == u256_val(norm.mantissa) * pow10((d.scale - norm.scale) as nat),
        mantissa == u256_val(norm.mantissa),
        scale == norm.scale,
    ensures
        mantissa * pow10(d.scale as nat) == u256_val(d.mantissa) * pow10(scale as nat),
{
    lemma_pow10_adds(norm.scale as nat, (d.scale - norm.scale) as nat);
    assert(mantissa * pow10(d.scale as nat) == (u256_val(norm.mantissa) * pow10(
        (d.scale - norm.scale) as nat,
    )) * pow10(norm.scale as nat)) by (nonlinear_arith)
        requires
            pow10(d.scale as nat) == pow10(norm.scale as nat) * pow10(
                (d.scale - norm.scale) as nat,
            ),
            mantissa == u256_val(norm.mantissa),
    ;
}

} // verus!
