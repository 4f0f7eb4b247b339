//! The scaled-amount integer: a 256-bit unsigned value, as used by the
//! chain for balances, token amounts and router quotes.
//!
//! A value is four 64-bit limbs, least significant first.  The operations
//! here are exactly the ones the conversion and slippage logic needs:
//! widening multiplication by a small factor, narrowing division by a small
//! divisor, and scaling by powers of ten with truncation toward zero.

use vstd::prelude::*;
use vstd::arithmetic::div_mod::{
    lemma_fundamental_div_mod, lemma_fundamental_div_mod_converse, lemma_div_denominator,
    lemma_mod_division_less_than_divisor,
};
use vstd::arithmetic::mul::{lemma_mul_inequality, lemma_mul_upper_bound};

verus! {

/// A 256-bit unsigned integer: `l0` is the least significant limb.
#[derive(Clone, Copy, Debug, PartialEq, Eq, Structural)]
pub struct U256 {
    pub l0: u64,
    pub l1: u64,
    pub l2: u64,
    pub l3: u64,
}

/// The weight of one limb, 2^64.
pub open spec fn limb_base() -> nat {
    0x10000000000000000
}

/// The first value a `U256` cannot hold, 2^256.
pub open spec fn u256_bound() -> nat {
    limb_base() * limb_base() * limb_base() * limb_base()
}

/// The number a `U256` stands for.
pub open spec fn u256_val(x: U256) -> nat {
    (x.l0 as nat) + (x.l1 as nat) * limb_base() + (x.l2 as nat) * (limb_base() * limb_base()) + (
    x.l3 as nat) * (limb_base() * limb_base() * limb_base())
}

/// 10^k.
pub open spec fn pow10(k: nat) -> nat
    decreases k,
{
    if k == 0 {
        1
    } else {
        10 * pow10((k - 1) as nat)
    }
}

pub proof fn lemma_pow10_pos(k: nat)
    ensures
        pow10(k) >= 1,
    decreases k,
{
    if k > 0 {
        lemma_pow10_pos((k - 1) as nat);
    }
}

pub proof fn lemma_pow10_adds(a: nat, b: nat)
    ensures
        pow10(a + b) == pow10(a) * pow10(b),
    decreases a,
{
    if a == 0 {
        assert(pow10(0) * pow10(b) == pow10(b)) by (nonlinear_arith)
            requires
                pow10(0) == 1,
        ;
    } else {
        lemma_pow10_adds((a - 1) as nat, b);
        assert(pow10(a + b) == 10 * pow10((a + b - 1) as nat));
        assert((a + b - 1) as nat == ((a - 1) as nat) + b);
        assert(pow10(a + b) == 10 * (pow10((a - 1) as nat) * pow10(b)));
        assert(pow10(a) == 10 * pow10((a - 1) as nat));
        assert(pow10(a) * pow10(b) == 10 * (pow10((a - 1) as nat) * pow10(b))) by (nonlinear_arith)
            requires
                pow10(a) == 10 * pow10((a - 1) as nat),
        ;
    }
}

/// Quotient and remainder do not depend on how numerator and divisor are
/// written down.
pub proof fn lemma_div_mod_congruence(x: int, y: int, a: int, b: int)
    requires
        x == y,
        a == b,
        a > 0,
        x >= 0,
    ensures
        x / a == y / b,
        x % a == y % b,
{
    lemma_fundamental_div_mod(x, a);
    lemma_fundamental_div_mod(y, b);
    lemma_mod_division_less_than_divisor(x, a);
    lemma_mod_division_less_than_divisor(y, b);
    assert(x / a == y / b && x % a == y % b) by (nonlinear_arith)
        requires
            x == y,
            a == b,
            a > 0,
            x == a * (x / a) + (x % a),
            y == b * (y / b) + (y % b),
            0 <= x % a < a,
            0 <= y % b < b,
    ;
}

/// Every `U256` value lies below 2^256.
pub proof fn lemma_u256_val_bound(x: U256)
    ensures
        u256_val(x) < u256_bound(),
{
    assert((x.l0 as nat) + (x.l1 as nat) * limb_base() + (x.l2 as nat) * (limb_base()
        * limb_base()) + (x.l3 as nat) * (limb_base() * limb_base() * limb_base()) < limb_base()
        * limb_base() * limb_base() * limb_base()) by (nonlinear_arith)
        requires
            (x.l0 as nat) < limb_base(),
            (x.l1 as nat) < limb_base(),
            (x.l2 as nat) < limb_base(),
            (x.l3 as nat) < limb_base(),
    ;
}

/// Telescoped limb-by-limb multiplication: four division steps with carry
/// recombine into the full product.
proof fn lemma_mul_limbs(
    b: int,
    l0: int,
    l1: int,
    l2: int,
    l3: int,
    m: int,
    d0: int,
    c0: int,
    d1: int,
    c1: int,
    d2: int,
    c2: int,
    d3: int,
    c3: int,
)
    requires
        l0 * m == c0 * b + d0,
        l1 * m + c0 == c1 * b + d1,
        l2 * m + c1 == c2 * b + d2,
        l3 * m + c2 == c3 * b + d3,
    ensures
        (l0 + l1 * b + l2 * (b * b) + l3 * (b * b * b)) * m == d0 + d1 * b + d2 * (b * b) + d3 * (b
            * b * b) + c3 * (b * b * b * b),
{
    assert((l0 + l1 * b + l2 * (b * b) + l3 * (b * b * b)) * m == l0 * m + (l1 * m) * b + (l2 * m)
        * (b * b) + (l3 * m) * (b * b * b)) by (nonlinear_arith);
    assert((l1 * m) * b == c1 * (b * b) + d1 * b - c0 * b) by (nonlinear_arith)
        requires
            l1 * m + c0 == c1 * b + d1,
    ;
    assert((l2 * m) * (b * b) == c2 * (b * b * b) + d2 * (b * b) - c1 * (b * b))
        by (nonlinear_arith)
        requires
            l2 * m + c1 == c2 * b + d2,
    ;
    assert((l3 * m) * (b * b * b) == c3 * (b * b * b * b) + d3 * (b * b * b) - c2 * (b * b * b))
        by (nonlinear_arith)
        requires
            l3 * m + c2 == c3 * b + d3,
    ;
}

/// Telescoped limb-by-limb long division, most significant limb first.
proof fn lemma_div_limbs(
    b: int,
    d: int,
    hi: int,
    l0: int,
    l1: int,
    l2: int,
    l3: int,
    q0: int,
    q1: int,
    q2: int,
    q3: int,
    r0: int,
    r1: int,
    r2: int,
    r3: int,
)
    requires
        q3 * d + r3 == hi * b + l3,
        q2 * d + r2 == r3 * b + l2,
        q1 * d + r1 == r2 * b + l1,
        q0 * d + r0 == r1 * b + l0,
    ensures
        (q0 + q1 * b + q2 * (b * b) + q3 * (b * b * b)) * d + r0 == hi * (b * b * b * b) + l0 + l1
            * b + l2 * (b * b) + l3 * (b * b * b),
{
    assert((q0 + q1 * b + q2 * (b * b) + q3 * (b * b * b)) * d == q0 * d + (q1 * d) * b + (q2 * d)
        * (b * b) + (q3 * d) * (b * b * b)) by (nonlinear_arith);
    assert((q1 * d) * b == r2 * (b * b) + l1 * b - r1 * b) by (nonlinear_arith)
        requires
            q1 * d + r1 == r2 * b + l1,
    ;
    assert((q2 * d) * (b * b) == r3 * (b * b * b) + l2 * (b * b) - r2 * (b * b))
        by (nonlinear_arith)
        requires
            q2 * d + r2 == r3 * b + l2,
    ;
    assert((q3 * d) * (b * b * b) == hi * (b * b * b * b) + l3 * (b * b * b) - r3 * (b * b * b))
        by (nonlinear_arith)
        requires
            q3 * d + r3 == hi * b + l3,
    ;
}

/// Telescoped limb-by-limb addition with carry.
proof fn lemma_add_limbs(
    b: int,
    l0: int,
    l1: int,
    l2: int,
    l3: int,
    v: int,
    s0: int,
    c0: int,
    s1: int,
    c1: int,
    s2: int,
    c2: int,
    s3: int,
    c3: int,
)
    requires
        l0 + v == c0 * b + s0,
        l1 + c0 == c1 * b + s1,
        l2 + c1 == c2 * b + s2,
        l3 + c2 == c3 * b + s3,
    ensures
        s0 + s1 * b + s2 * (b * b) + s3 * (b * b * b) + c3 * (b * b * b * b) == l0 + l1 * b + l2 * (
        b * b) + l3 * (b * b * b) + v,
{
    assert(l1 * b + c0 * b == c1 * (b * b) + s1 * b) by (nonlinear_arith)
        requires
            l1 + c0 == c1 * b + s1,
    ;
    assert(l2 * (b * b) + c1 * (b * b) == c2 * (b * b * b) + s2 * (b * b)) by (nonlinear_arith)
        requires
            l2 + c1 == c2 * b + s2,
    ;
    assert(l3 * (b * b * b) + c2 * (b * b * b) == c3 * (b * b * b * b) + s3 * (b * b * b))
        by (nonlinear_arith)
        requires
            l3 + c2 == c3 * b + s3,
    ;
}

impl U256 {
    /// The zero amount.
    pub fn zero() -> (r: U256)
        ensures
            u256_val(r) == 0,
    {
        U256 { l0: 0, l1: 0, l2: 0, l3: 0 }
    }

    /// Embeds a 128-bit value.
    pub fn from_u128(v: u128) -> (r: U256)
        ensures
            u256_val(r) == v,
    {
        proof {
            lemma_fundamental_div_mod(v as int, 0x10000000000000000);
        }
        U256 {
            l0: (v % 0x10000000000000000) as u64,
            l1: (v / 0x10000000000000000) as u64,
            l2: 0,
            l3: 0,
        }
    }

    /// Whether the value is zero.
    pub fn is_zero(&self) -> (r: bool)
        ensures
            r <==> u256_val(*self) == 0,
    {
        proof {
            assert((((self.l0 as nat) + (self.l1 as nat) * limb_base() + (self.l2 as nat) * (
            limb_base() * limb_base()) + (self.l3 as nat) * (limb_base() * limb_base()
                * limb_base())) == 0) <==> (self.l0 == 0 && self.l1 == 0 && self.l2 == 0 && self.l3
                == 0)) by (nonlinear_arith)
                requires
                    limb_base() >= 1,
            ;
        }
        self.l0 == 0 && self.l1 == 0 && self.l2 == 0 && self.l3 == 0
    }

    /// Addition of a 64-bit value, refused when the sum does not fit in
    /// 256 bits.
    pub fn checked_add_small(&self, v: u64) -> (r: Option<U256>)
        ensures
            r is Some <==> u256_val(*self) + v < u256_bound(),
            r is Some ==> u256_val(r->0) == u256_val(*self) + v,
    {
        let t0: u128 = (self.l0 as u128) + (v as u128);
        let s0: u64 = (t0 % 0x10000000000000000) as u64;
        let c0: u64 = (t0 / 0x10000000000000000) as u64;
        let t1: u128 = (self.l1 as u128) + (c0 as u128);
        let s1: u64 = (t1 % 0x10000000000000000) as u64;
        let c1: u64 = (t1 / 0x10000000000000000) as u64;
        let t2: u128 = (self.l2 as u128) + (c1 as u128);
        let s2: u64 = (t2 % 0x10000000000000000) as u64;
        let c2: u64 = (t2 / 0x10000000000000000) as u64;
        let t3: u128 = (self.l3 as u128) + (c2 as u128);
        let s3: u64 = (t3 % 0x10000000000000000) as u64;
        let c3: u64 = (t3 / 0x10000000000000000) as u64;
        let out = U256 { l0: s0, l1: s1, l2: s2, l3: s3 };
        proof {
            lemma_fundamental_div_mod(t0 as int, 0x10000000000000000);
            lemma_fundamental_div_mod(t1 as int, 0x10000000000000000);
            lemma_fundamental_div_mod(t2 as int, 0x10000000000000000);
            lemma_fundamental_div_mod(t3 as int, 0x10000000000000000);
            lemma_add_limbs(
                0x10000000000000000,
                self.l0 as int,
                self.l1 as int,
                self.l2 as int,
                self.l3 as int,
                v as int,
                s0 as int,
                c0 as int,
                s1 as int,
                c1 as int,
                s2 as int,
                c2 as int,
                s3 as int,
                c3 as int,
            );
            assert(u256_val(out) + (c3 as nat) * u256_bound() == u256_val(*self) + v)
                by (nonlinear_arith)
                requires
                    u256_bound() == (0x10000000000000000 * 0x10000000000000000
                        * 0x10000000000000000 * 0x10000000000000000),
                    u256_val(out) + (c3 as int) * (0x10000000000000000 * 0x10000000000000000
                        * 0x10000000000000000 * 0x10000000000000000) == u256_val(*self) + v,
            ;
        }
        if c3 == 0 {
            proof {
                lemma_u256_val_bound(out);
                assert((c3 as nat) * u256_bound() == 0) by (nonlinear_arith)
                    requires
                        c3 == 0,
                ;
            }
            Some(out)
        } else {
            proof {
                assert((c3 as nat) * u256_bound() >= u256_bound()) by (nonlinear_arith)
                    requires
                        (c3 as nat) >= 1,
                        u256_bound() >= 0,
                ;
            }
            None
        }
    }

    /// Widening multiplication by a 64-bit factor: the 256-bit low part and
    /// a 64-bit carry, together exact.
    pub fn mul_small(&self, m: u64) -> (r: (U256, u64))
        ensures
            u256_val(r.0) + (r.1 as nat) * u256_bound() == u256_val(*self) * m,
    {
        proof {
            lemma_mul_upper_bound(self.l0 as int, 0xffffffffffffffff, m as int, 0xffffffffffffffff);
            lemma_mul_upper_bound(self.l1 as int, 0xffffffffffffffff, m as int, 0xffffffffffffffff);
            lemma_mul_upper_bound(self.l2 as int, 0xffffffffffffffff, m as int, 0xffffffffffffffff);
            lemma_mul_upper_bound(self.l3 as int, 0xffffffffffffffff, m as int, 0xffffffffffffffff);
        }
        let p0: u128 = (self.l0 as u128) * (m as u128);
        let d0: u64 = (p0 % 0x10000000000000000) as u64;
        let c0: u64 = (p0 / 0x10000000000000000) as u64;
        let p1: u128 = (self.l1 as u128) * (m as u128) + (c0 as u128);
        let d1: u64 = (p1 % 0x10000000000000000) as u64;
        let c1: u64 = (p1 / 0x10000000000000000) as u64;
        let p2: u128 = (self.l2 as u128) * (m as u128) + (c1 as u128);
        let d2: u64 = (p2 % 0x10000000000000000) as u64;
        let c2: u64 = (p2 / 0x10000000000000000) as u64;
        let p3: u128 = (self.l3 as u128) * (m as u128) + (c2 as u128);
        let d3: u64 = (p3 % 0x10000000000000000) as u64;
        let c3: u64 = (p3 / 0x10000000000000000) as u64;
        proof {
            lemma_fundamental_div_mod(p0 as int, 0x10000000000000000);
            lemma_fundamental_div_mod(p1 as int, 0x10000000000000000);
            lemma_fundamental_div_mod(p2 as int, 0x10000000000000000);
            lemma_fundamental_div_mod(p3 as int, 0x10000000000000000);
            lemma_mul_limbs(
                0x10000000000000000,
                self.l0 as int,
                self.l1 as int,
                self.l2 as int,
                self.l3 as int,
                m as int,
                d0 as int,
                c0 as int,
                d1 as int,
                c1 as int,
                d2 as int,
                c2 as int,
                d3 as int,
                c3 as int,
            );
        }
        (U256 { l0: d0, l1: d1, l2: d2, l3: d3 }, c3)
    }

    /// Multiplication by a 64-bit factor, refused when the product does not
    /// fit in 256 bits.
    pub fn checked_mul_small(&self, m: u64) -> (r: Option<U256>)
        ensures
            r is Some <==> u256_val(*self) * m < u256_bound(),
            r is Some ==> u256_val(r->0) == u256_val(*self) * m,
    {
        let (lo, carry) = self.mul_small(m);
        if carry == 0 {
            proof {
                lemma_u256_val_bound(lo);
                assert((carry as nat) * u256_bound() == 0) by (nonlinear_arith)
                    requires
                        carry == 0,
                ;
            }
            Some(lo)
        } else {
            proof {
                // A nonzero carry pushes the product past 2^256.
                assert(u256_val(lo) + (carry as nat) * u256_bound() >= u256_bound())
                    by (nonlinear_arith)
                    requires
                        (carry as nat) >= 1,
                        u256_bound() >= 0,
                        u256_val(lo) >= 0,
                ;
            }
            None
        }
    }

    /// Long division of `hi * 2^256 + self` by a 64-bit divisor; `hi < d`
    /// keeps the quotient inside 256 bits.  Returns quotient and remainder.
    pub fn div_small(&self, hi: u64, d: u64) -> (r: (U256, u64))
        requires
            d > 0,
            hi < d,
        ensures
            u256_val(r.0) * (d as nat) + r.1 == (hi as nat) * u256_bound() + u256_val(*self),
            r.1 < d,
    {
        let t3: u128 = (hi as u128) * 0x10000000000000000 + (self.l3 as u128);
        let q3: u64 = Self::div_step_q(t3, d, hi);
        let r3: u64 = (t3 % (d as u128)) as u64;
        let t2: u128 = (r3 as u128) * 0x10000000000000000 + (self.l2 as u128);
        let q2: u64 = Self::div_step_q(t2, d, r3);
        let r2: u64 = (t2 % (d as u128)) as u64;
        let t1: u128 = (r2 as u128) * 0x10000000000000000 + (self.l1 as u128);
        let q1: u64 = Self::div_step_q(t1, d, r2);
        let r1: u64 = (t1 % (d as u128)) as u64;
        let t0: u128 = (r1 as u128) * 0x10000000000000000 + (self.l0 as u128);
        let q0: u64 = Self::div_step_q(t0, d, r1);
        let r0: u64 = (t0 % (d as u128)) as u64;
        let out = U256 { l0: q0, l1: q1, l2: q2, l3: q3 };
        proof {
            lemma_div_limbs(
                0x10000000000000000,
                d as int,
                hi as int,
                self.l0 as int,
                self.l1 as int,
                self.l2 as int,
                self.l3 as int,
                q0 as int,
                q1 as int,
                q2 as int,
                q3 as int,
                r0 as int,
                r1 as int,
                r2 as int,
                r3 as int,
            );
            assert(u256_val(out) * (d as nat) == ((q0 as int) + (q1 as int) * 0x10000000000000000
                + (q2 as int) * (0x10000000000000000 * 0x10000000000000000) + (q3 as int) * (
            0x10000000000000000 * 0x10000000000000000 * 0x10000000000000000)) * (d as int))
                by (nonlinear_arith)
                requires
                    u256_val(out) == (q0 as int) + (q1 as int) * 0x10000000000000000 + (q2 as int)
                        * (0x10000000000000000 * 0x10000000000000000) + (q3 as int) * (
                    0x10000000000000000 * 0x10000000000000000 * 0x10000000000000000),
            ;
        }
        (out, r0)
    }

    /// One step of the long division: the quotient digit of
    /// `hi * 2^64 + low limb`, which fits in 64 bits because `hi < d`.
    fn div_step_q(t: u128, d: u64, hi: u64) -> (q: u64)
        requires
            d > 0,
            hi < d,
            t < (hi as nat + 1) * 0x10000000000000000,
        ensures
            (q as nat) * (d as nat) + ((t as nat) % (d as nat)) == t,
            q == (t as nat) / (d as nat),
    {
        proof {
            lemma_mul_inequality(hi as int + 1, d as int, 0x10000000000000000);
            lemma_fundamental_div_mod(t as int, d as int);
            // t < d * 2^64, so the quotient is below 2^64.
            assert((t as int) / (d as int) < 0x10000000000000000) by (nonlinear_arith)
                requires
                    (d as int) > 0,
                    (t as int) < (d as int) * 0x10000000000000000,
                    (d as int) * ((t as int) / (d as int)) + ((t as int) % (d as int)) == (t as int),
                    (t as int) % (d as int) >= 0,
            ;
        }
        let q: u64 = (t / (d as u128)) as u64;
        proof {
            assert((q as int) * (d as int) == (d as int) * ((t as int) / (d as int)))
                by (nonlinear_arith)
                requires
                    (q as int) == (t as int) / (d as int),
            ;
        }
        q
    }

    /// Division by a 64-bit divisor: quotient (truncated toward zero) and
    /// remainder.
    pub fn div_rem_small(&self, d: u64) -> (r: (U256, u64))
        requires
            d > 0,
        ensures
            u256_val(r.0) == u256_val(*self) / (d as nat),
            r.1 == u256_val(*self) % (d as nat),
            r.1 < d,
    {
        let (q, rem) = self.div_small(0, d);
        proof {
            lemma_fundamental_div_mod_converse(
                u256_val(*self) as int,
                d as int,
                u256_val(q) as int,
                rem as int,
            );
        }
        (q, rem)
    }

    /// Multiplication by 10^k, refused when the product does not fit in 256
    /// bits.
    pub fn checked_mul_pow10(&self, k: u32) -> (r: Option<U256>)
        ensures
            r is Some <==> u256_val(*self) * pow10(k as nat) < u256_bound(),
            r is Some ==> u256_val(r->0) == u256_val(*self) * pow10(k as nat),
    {
        let mut acc = *self;
        let mut i: u32 = 0;
        proof {
            lemma_u256_val_bound(*self);
            assert(u256_val(*self) * pow10(i as nat) == u256_val(*self)) by (nonlinear_arith)
                requires
                    pow10(i as nat) == 1,
            ;
        }
        while i < k
            invariant
                i <= k,
                u256_val(acc) == u256_val(*self) * pow10(i as nat),
                u256_val(acc) < u256_bound(),
            decreases k - i,
        {
            let step = acc.checked_mul_small(10);
            match step {
                Some(next) => {
                    proof {
                        assert(pow10((i + 1) as nat) == 10 * pow10(i as nat));
                        assert(u256_val(*self) * pow10((i + 1) as nat) == 10 * (u256_val(*self)
                            * pow10(i as nat))) by (nonlinear_arith)
                            requires
                                pow10((i + 1) as nat) == 10 * pow10(i as nat),
                        ;
                    }
                    acc = next;
                    i = i + 1;
                },
                None => {
                    proof {
                        assert(pow10((i + 1) as nat) == 10 * pow10(i as nat));
                        assert(u256_val(*self) * pow10((i + 1) as nat) == 10 * (u256_val(*self)
                            * pow10(i as nat))) by (nonlinear_arith)
                            requires
                                pow10((i + 1) as nat) == 10 * pow10(i as nat),
                        ;
                        lemma_pow10_adds((i + 1) as nat, (k - i - 1) as nat);
                        lemma_pow10_pos((k - i - 1) as nat);
                        // Once one more factor of ten overflows, the full
                        // product can only be larger.
                        assert(u256_val(*self) * pow10(k as nat) >= u256_val(*self) * pow10(
                            (i + 1) as nat,
                        )) by (nonlinear_arith)
                            requires
                                pow10(k as nat) == pow10((i + 1) as nat) * pow10(
                                    (k - i - 1) as nat,
                                ),
                                pow10((k - i - 1) as nat) >= 1,
                                u256_val(*self) >= 0,
                                pow10((i + 1) as nat) >= 0,
                        ;
                    }
                    return None;
                },
            }
        }
        Some(acc)
    }

    /// Division by 10^k, truncating toward zero.
    pub fn div_pow10(&self, k: u32) -> (r: U256)
        ensures
            u256_val(r) == u256_val(*self) / pow10(k as nat),
    {
        let mut acc = *self;
        let mut i: u32 = 0;
        proof {
            lemma_pow10_pos(i as nat);
            assert(u256_val(*self) * pow10(i as nat) + 0 == u256_val(*self)) by (nonlinear_arith)
                requires
                    pow10(i as nat) == 1,
            ;
            lemma_fundamental_div_mod_converse(
                u256_val(*self) as int,
                pow10(i as nat) as int,
                u256_val(*self) as int,
                0,
            );
        }
        while i < k
            invariant
                i <= k,
                u256_val(acc) == u256_val(*self) / pow10(i as nat),
            decreases k - i,
        {
            let (q, _rem) = acc.div_rem_small(10);
            proof {
                lemma_pow10_pos(i as nat);
                lemma_pow10_pos((i + 1) as nat);
                lemma_div_denominator(u256_val(*self) as int, pow10(i as nat) as int, 10);
                assert(pow10((i + 1) as nat) == 10 * pow10(i as nat));
                lemma_div_mod_congruence(
                    u256_val(*self) as int,
                    u256_val(*self) as int,
                    pow10(i as nat) as int * 10,
                    pow10((i + 1) as nat) as int,
                );
            }
            acc = q;
            i = i + 1;
        }
        acc
    }

    /// Whether `self <= other`, compared as 256-bit values.
    pub fn le(&self, other: &U256) -> (r: bool)
        ensures
            r <==> u256_val(*self) <= u256_val(*other),
    {
        proof {
            lemma_limb_order(
                0x10000000000000000,
                self.l0 as int,
                self.l1 as int,
                self.l2 as int,
                self.l3 as int,
                other.l0 as int,
                other.l1 as int,
                other.l2 as int,
                other.l3 as int,
            );
        }
        if self.l3 != other.l3 {
            self.l3 < other.l3
        } else if self.l2 != other.l2 {
            self.l2 < other.l2
        } else if self.l1 != other.l1 {
            self.l1 < other.l1
        } else {
            self.l0 <= other.l0
        }
    }
}

/// Whenever the limbs first differ at a higher position, the value with the
/// smaller limb there is strictly smaller.
proof fn lemma_limb_strict(
    b: int,
    a0: int,
    a1: int,
    a2: int,
    a3: int,
    c0: int,
    c1: int,
    c2: int,
    c3: int,
)
    requires
        0 <= a0 < b,
        0 <= a1 < b,
        0 <= a2 < b,
        0 <= a3 < b,
        0 <= c0 < b,
        0 <= c1 < b,
        0 <= c2 < b,
        0 <= c3 < b,
        a3 < c3 || (a3 == c3 && a2 < c2) || (a3 == c3 && a2 == c2 && a1 < c1) || (a3 == c3 && a2
            == c2 && a1 == c1 && a0 < c0),
    ensures
        a0 + a1 * b + a2 * (b * b) + a3 * (b * b * b) < c0 + c1 * b + c2 * (b * b) + c3 * (b * b
            * b),
{
    if a3 < c3 {
        assert(a0 + a1 * b + a2 * (b * b) + a3 * (b * b * b) < c0 + c1 * b + c2 * (b * b) + c3 * (b
            * b * b)) by (nonlinear_arith)
            requires
                0 <= a0 < b,
                0 <= a1 < b,
                0 <= a2 < b,
                0 <= c0,
                0 <= c1,
                0 <= c2,
                a3 < c3,
        ;
    } else if a2 < c2 {
        assert(a0 + a1 * b + a2 * (b * b) + a3 * (b * b * b) < c0 + c1 * b + c2 * (b * b) + c3 * (b
            * b * b)) by (nonlinear_arith)
            requires
                0 <= a0 < b,
                0 <= a1 < b,
                0 <= c0,
                0 <= c1,
                a2 < c2,
                a3 == c3,
        ;
    } else if a1 < c1 {
        assert(a0 + a1 * b + a2 * (b * b) + a3 * (b * b * b) < c0 + c1 * b + c2 * (b * b) + c3 * (b
            * b * b)) by (nonlinear_arith)
            requires
                0 <= a0 < b,
                0 <= c0,
                a1 < c1,
                a2 == c2,
                a3 == c3,
        ;
    } else {
        assert(a0 + a1 * b + a2 * (b * b) + a3 * (b * b * b) < c0 + c1 * b + c2 * (b * b) + c3 * (b
            * b * b)) by (nonlinear_arith)
            requires
                a0 < c0,
                a1 == c1,
                a2 == c2,
                a3 == c3,
        ;
    }
}

/// Limb-by-limb lexicographic comparison agrees with the value order.
proof fn lemma_limb_order(
    b: int,
    a0: int,
    a1: int,
    a2: int,
    a3: int,
    c0: int,
    c1: int,
    c2: int,
    c3: int,
)
    requires
        0 <= a0 < b,
        0 <= a1 < b,
        0 <= a2 < b,
        0 <= a3 < b,
        0 <= c0 < b,
        0 <= c1 < b,
        0 <= c2 < b,
        0 <= c3 < b,
    ensures
        (a0 + a1 * b + a2 * (b * b) + a3 * (b * b * b) <= c0 + c1 * b + c2 * (b * b) + c3 * (b * b
            * b)) <==> (a3 < c3 || (a3 == c3 && (a2 < c2 || (a2 == c2 && (a1 < c1 || (a1 == c1 && a0
            <= c0)))))),
{
    if a3 < c3 || (a3 == c3 && a2 < c2) || (a3 == c3 && a2 == c2 && a1 < c1) || (a3 == c3 && a2
        == c2 && a1 == c1 && a0 < c0) {
        lemma_limb_strict(b, a0, a1, a2, a3, c0, c1, c2, c3);
    } else if !(a3 == c3 && a2 == c2 && a1 == c1 && a0 == c0) {
        lemma_limb_strict(b, c0, c1, c2, c3, a0, a1, a2, a3);
    }
}

} // verus!
