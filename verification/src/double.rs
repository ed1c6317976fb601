//! Double-precision numbers, held as their IEEE 754 bit pattern.
//!
//! Arithmetic is exact-then-rounded: each operation's result is the double
//! nearest to the exact result, ties to even, with the usual rules for
//! infinities, zeros and not-a-number. Values cross the crate's boundary as
//! bit patterns ([`Double::from_bits`], [`Double::bits`]).
use crate::rounding::{
    bit_len, bits_of, lemma_bit_len_bounds, lemma_bit_len_lt, lemma_pow2_le, lemma_round_scale,
    lemma_round_shift, lemma_round_sticky_coarse, lemma_round_sticky_fine, lemma_round_zero, mag_of, pow2_word, round_binary, round_dyadic,
    round_low, BINADE, INF_LOW,
};
use vstd::arithmetic::div_mod::*;
use vstd::arithmetic::mul::*;
use vstd::arithmetic::power2::*;
use vstd::prelude::*;

verus! {

/// The sign bit's weight in a bit pattern.
pub const SIGN: u64 = 0x8000_0000_0000_0000;

/// The magnitude encoding of the not-a-number that operations return.
pub const NAN_LOW: u64 = 0x7FF8_0000_0000_0000;

/// The exponent of the unit that magnitudes are counted in, negated.
pub const UNIT_EXP: u32 = 1074;

/// A double-precision number.
#[derive(Clone, Copy, Debug)]
pub struct Double {
    pub bits: u64,
}

impl Double {
    /// Whether the sign bit is set.
    pub open spec fn neg(self) -> bool {
        self.bits >= SIGN
    }

    /// The magnitude's encoding.
    pub open spec fn low(self) -> nat {
        (self.bits % SIGN) as nat
    }

    pub open spec fn nan(self) -> bool {
        self.low() > INF_LOW
    }

    pub open spec fn finite(self) -> bool {
        self.low() < INF_LOW
    }

    /// The magnitude in units of `2^-1074`. Infinity counts as `2^1024`.
    pub open spec fn mag(self) -> nat {
        mag_of(self.low())
    }

    /// The value in units of `2^-1074`.
    pub open spec fn val(self) -> int {
        if self.neg() {
            -(self.mag() as int)
        } else {
            self.mag() as int
        }
    }
}

/// The number with the given sign and magnitude encoding.
pub open spec fn signed(neg: bool, low: nat) -> Double {
    Double { bits: (low + if neg { SIGN as int } else { 0 }) as u64 }
}

pub open spec fn not_a_number() -> Double {
    Double { bits: NAN_LOW }
}

pub open spec fn infinity() -> Double {
    Double { bits: INF_LOW }
}

/// One, in units of `2^-1074`.
pub open spec fn one_unit() -> nat {
    pow2(UNIT_EXP as nat)
}

/// The double nearest to the whole number of units `v`.
pub open spec fn round_units(v: int) -> Double {
    if v < 0 {
        signed(true, round_low((-v) as nat, 1))
    } else {
        signed(false, round_low(v as nat, 1))
    }
}

pub open spec fn opposite(a: Double) -> Double {
    signed(!a.neg(), a.low())
}

/// `a + b`.
#[verifier::opaque]
pub open spec fn sum(a: Double, b: Double) -> Double {
    if a.nan() || b.nan() {
        not_a_number()
    } else if !a.finite() && !b.finite() && a.neg() != b.neg() {
        not_a_number()
    } else if !a.finite() {
        a
    } else if !b.finite() {
        b
    } else if a.val() + b.val() == 0 {
        signed(a.neg() && b.neg(), 0)
    } else {
        round_units(a.val() + b.val())
    }
}

/// `a - b`.
pub open spec fn diff(a: Double, b: Double) -> Double {
    sum(a, opposite(b))
}

/// `a * b`.
#[verifier::opaque]
pub open spec fn prod(a: Double, b: Double) -> Double {
    let neg = a.neg() != b.neg();
    if a.nan() || b.nan() {
        not_a_number()
    } else if !a.finite() || !b.finite() {
        if a.mag() == 0 || b.mag() == 0 {
            not_a_number()
        } else {
            signed(neg, INF_LOW as nat)
        }
    } else {
        signed(neg, round_low(a.mag() * b.mag(), one_unit()))
    }
}

/// `a / b`.
#[verifier::opaque]
pub open spec fn quot(a: Double, b: Double) -> Double {
    let neg = a.neg() != b.neg();
    if a.nan() || b.nan() || (!a.finite() && !b.finite()) || (a.mag() == 0 && b.mag() == 0) {
        not_a_number()
    } else if !a.finite() || b.mag() == 0 {
        signed(neg, INF_LOW as nat)
    } else if !b.finite() || a.mag() == 0 {
        signed(neg, 0)
    } else {
        signed(neg, round_low(a.mag() * one_unit(), b.mag()))
    }
}

/// The significand and exponent of a magnitude.
pub open spec fn split_low(low: nat) -> (nat, nat) {
    let e = low / BINADE as nat;
    let f = low % BINADE as nat;
    if e == 0 {
        (f, 0)
    } else {
        ((BINADE + f) as nat, (e - 1) as nat)
    }
}

proof fn lemma_split(low: nat)
    ensures
        ({
            let (m, x) = split_low(low);
            &&& mag_of(low) == m * pow2(x)
            &&& m < 2 * BINADE
            &&& x > 0 ==> m >= BINADE
            &&& low <= INF_LOW ==> x <= 2046
            &&& low > 0 ==> m > 0
            &&& low == 0 ==> m == 0
        }),
{
    lemma2_to64();
    lemma_fundamental_div_mod(low as int, BINADE as int);
    assert(pow2(0) == 1);
    let (m, x) = split_low(low);
    assert(m * 1 == m);
}

/// Greater encodings stand for greater magnitudes.
pub proof fn lemma_mag_ordered(a: nat, b: nat)
    ensures
        mag_of(a) < mag_of(b) <==> a < b,
        mag_of(a) == mag_of(b) <==> a == b,
{
    if a < b {
        lemma_mag_less(a, b);
    } else if b < a {
        lemma_mag_less(b, a);
    }
}

proof fn lemma_mag_less(a: nat, b: nat)
    requires
        a < b,
    ensures
        mag_of(a) < mag_of(b),
{
    lemma_split(a);
    lemma_split(b);
    let (m, x) = split_low(a);
    let (n, y) = split_low(b);
    lemma_fundamental_div_mod(a as int, BINADE as int);
    lemma_fundamental_div_mod(b as int, BINADE as int);
    lemma_pow2_pos(x);
    if x == y {
        assert(m < n);
        assert(m * pow2(x) < n * pow2(x)) by (nonlinear_arith)
            requires
                m < n,
                pow2(x) > 0,
        ;
    } else {
        assert(x < y);
        lemma_pow2_unfold(y);
        lemma_pow2_le(x, (y - 1) as nat);
        assert(m * pow2(x) < n * pow2(y)) by (nonlinear_arith)
            requires
                m < 2 * BINADE,
                n >= BINADE,
                pow2(y) >= 2 * pow2(x),
                pow2(x) > 0,
        ;
    }
}

impl Double {
    pub fn from_bits(bits: u64) -> (res: Double)
        ensures
            res.bits == bits,
    {
        Double { bits }
    }

    pub fn is_nan(self) -> (res: bool)
        ensures
            res == self.nan(),
    {
        self.bits % SIGN > INF_LOW
    }

    pub fn is_finite(self) -> (res: bool)
        ensures
            res == self.finite(),
    {
        self.bits % SIGN < INF_LOW
    }

    pub(crate) fn pack(neg: bool, low: u64) -> (res: Double)
        requires
            low < SIGN,
        ensures
            res == signed(neg, low as nat),
            res.neg() == neg,
            res.low() == low,
    {
        if neg {
            Double { bits: low + SIGN }
        } else {
            Double { bits: low }
        }
    }

    /// The magnitude as `m * 2^x` units.
    pub(crate) fn split(self) -> (res: (u64, u32))
        requires
            !self.nan(),
        ensures
            (res.0 as nat, res.1 as nat) == split_low(self.low()),
            self.mag() == res.0 * pow2(res.1 as nat),
            res.0 < 2 * BINADE,
            res.1 > 0 ==> res.0 >= BINADE,
            res.1 <= 2046,
            self.low() > 0 <==> res.0 > 0,
    {
        proof {
            lemma_split(self.low());
        }
        let low: u64 = self.bits % SIGN;
        let e: u64 = low / BINADE;
        let f: u64 = low % BINADE;
        if e == 0 {
            (f, 0)
        } else {
            (BINADE + f, (e - 1) as u32)
        }
    }

    /// `-self`.
    pub fn negated(self) -> (res: Double)
        ensures
            res == opposite(self),
    {
        Double::pack(self.bits < SIGN, self.bits % SIGN)
    }

    /// `self + other`.
    pub fn plus(self, other: Double) -> (res: Double)
        ensures
            res == sum(self, other),
    {
        proof {
            reveal(sum);
            lemma_mag_ordered(self.low(), other.low());
            lemma_mag_ordered(0, self.low());
            lemma_mag_ordered(0, other.low());
        }
        if self.is_nan() || other.is_nan() {
            return Double { bits: NAN_LOW };
        }
        let neg_a: bool = self.bits >= SIGN;
        let neg_b: bool = other.bits >= SIGN;
        if !self.is_finite() {
            if !other.is_finite() && neg_a != neg_b {
                return Double { bits: NAN_LOW };
            }
            return self;
        }
        if !other.is_finite() {
            return other;
        }
        let (big, small): (Double, Double) = if self.bits % SIGN < other.bits % SIGN {
            (other, self)
        } else {
            (self, other)
        };
        let neg: bool = big.bits >= SIGN;
        if neg_a == neg_b {
            if self.bits % SIGN == 0 && other.bits % SIGN == 0 {
                Double::pack(neg, 0)
            } else {
                Double::pack(neg, add_mags(big, small))
            }
        } else if self.bits % SIGN == other.bits % SIGN {
            Double::pack(false, 0)
        } else {
            Double::pack(neg, sub_mags(big, small))
        }
    }

    /// `self - other`.
    pub fn minus(self, other: Double) -> (res: Double)
        ensures
            res == diff(self, other),
    {
        self.plus(other.negated())
    }
}

proof fn lemma_exponents_ordered(a: nat, b: nat)
    requires
        a >= b,
    ensures
        split_low(a).1 >= split_low(b).1,
        split_low(a).1 == split_low(b).1 ==> split_low(a).0 >= split_low(b).0,
{
    lemma_fundamental_div_mod(a as int, BINADE as int);
    lemma_fundamental_div_mod(b as int, BINADE as int);
}

/// What is far below a magnitude `m * 2^x` is less than `2^(x - 12)`.
proof fn lemma_far(n: nat, x: nat, y: nat)
    requires
        n < 2 * BINADE,
        x >= y + 65,
    ensures
        n * pow2(y) < pow2((x - 12) as nat),
        pow2((x - 12) as nat) * 2 == pow2((x - 11) as nat),
        pow2(x) == 2048 * pow2((x - 11) as nat),
{
    lemma2_to64();
    lemma2_to64_rest();
    lemma_pow2_adds(53, y);
    lemma_pow2_le(53 + y, (x - 12) as nat);
    lemma_pow2_pos(y);
    assert(n * pow2(y) < pow2(53) * pow2(y)) by (nonlinear_arith)
        requires
            n < pow2(53),
            pow2(y) > 0,
    ;
    lemma_pow2_unfold((x - 11) as nat);
    lemma_pow2_adds((x - 11) as nat, 11);
}

/// The encoding of the sum of two magnitudes, rounded.
fn add_mags(big: Double, small: Double) -> (low: u64)
    requires
        big.finite(),
        small.finite(),
        big.low() >= small.low(),
        big.low() > 0,
    ensures
        low == round_low(big.mag() + small.mag(), 1),
        low <= INF_LOW,
{
    let (m, x) = big.split();
    let (n, y) = small.split();
    proof {
        lemma_exponents_ordered(big.low(), small.low());
        lemma2_to64();
        lemma2_to64_rest();
    }
    let gap: u32 = x - y;
    if gap <= 64 {
        proof {
            lemma_pow2_adds(gap as nat, y as nat);
            lemma_pow2_le(gap as nat, 64);
            lemma_pow2_pos(gap as nat);
            let w = pow2(gap as nat);
            assert(m * w < 0x40_0000_0000_0000_0000_0000_0000_0000 && m * w > 0) by (nonlinear_arith)
                requires
                    0 < m < 2 * BINADE,
                    0 < w <= 0x1_0000_0000_0000_0000,
            ;
            assert(m * pow2(x as nat) + n * pow2(y as nat) == (m * w + n) * pow2(y as nat))
                by (nonlinear_arith)
                requires
                    pow2(x as nat) == w * pow2(y as nat),
            ;
        }
        let p: u128 = (m as u128) * pow2_word(gap) + n as u128;
        round_binary(p, y as i32)
    } else if n == 0 {
        proof {
            assert(0 * pow2(y as nat) == 0);
        }
        round_binary(m as u128, x as i32)
    } else {
        let p: u128 = (m as u128) * 2048;
        proof {
            lemma_far(n as nat, x as nat, y as nat);
            lemma_pow2_pos(y as nat);
            let k = (x - 11) as nat;
            let total = big.mag() + small.mag();
            assert(n * pow2(y as nat) > 0) by (nonlinear_arith)
                requires
                    n > 0,
                    pow2(y as nat) > 0,
            ;
            assert(m * (2048 * pow2(k)) == (m * 2048) * pow2(k)) by (nonlinear_arith);
            assert(p * pow2(k) < total < (p + 1) * pow2(k)) by (nonlinear_arith)
                requires
                    total == p * pow2(k) + small.mag(),
                    0 < small.mag() < pow2(k),
            ;
            lemma_bit_len_lt(p as nat, 53);
            lemma_round_sticky_coarse(total, 1, p as nat, k);
        }
        round_binary(2 * p + 1, x as i32 - 12)
    }
}

/// The encoding of the difference of two magnitudes, rounded.
fn sub_mags(big: Double, small: Double) -> (low: u64)
    requires
        big.finite(),
        small.finite(),
        big.low() > small.low(),
    ensures
        low == round_low((big.mag() - small.mag()) as nat, 1),
        low <= INF_LOW,
{
    let (m, x) = big.split();
    let (n, y) = small.split();
    proof {
        lemma_exponents_ordered(big.low(), small.low());
        lemma_mag_ordered(small.low(), big.low());
        lemma2_to64();
        lemma2_to64_rest();
    }
    let gap: u32 = x - y;
    if gap <= 64 {
        proof {
            lemma_pow2_adds(gap as nat, y as nat);
            lemma_pow2_le(gap as nat, 64);
            lemma_pow2_pos(gap as nat);
            lemma_pow2_pos(y as nat);
            let w = pow2(gap as nat);
            assert(m * w < 0x40_0000_0000_0000_0000_0000_0000_0000 && m * w > 0) by (nonlinear_arith)
                requires
                    0 < m < 2 * BINADE,
                    0 < w <= 0x1_0000_0000_0000_0000,
            ;
            assert(m * pow2(x as nat) - n * pow2(y as nat) == (m * w - n) * pow2(y as nat))
                by (nonlinear_arith)
                requires
                    pow2(x as nat) == w * pow2(y as nat),
            ;
            assert(m * w - n > 0) by (nonlinear_arith)
                requires
                    (m * w - n) * pow2(y as nat) > 0,
                    pow2(y as nat) > 0,
            ;
        }
        let p: u128 = (m as u128) * pow2_word(gap) - n as u128;
        round_binary(p, y as i32)
    } else if n == 0 {
        proof {
            assert(0 * pow2(y as nat) == 0);
        }
        round_binary(m as u128, x as i32)
    } else {
        let p: u128 = (m as u128) * 2048 - 1;
        proof {
            lemma_far(n as nat, x as nat, y as nat);
            lemma_pow2_pos(y as nat);
            let k = (x - 11) as nat;
            let total = (big.mag() - small.mag()) as nat;
            assert(n * pow2(y as nat) > 0) by (nonlinear_arith)
                requires
                    n > 0,
                    pow2(y as nat) > 0,
            ;
            assert(m * (2048 * pow2(k)) == (m * 2048) * pow2(k)) by (nonlinear_arith);
            assert(p * pow2(k) < total < (p + 1) * pow2(k)) by (nonlinear_arith)
                requires
                    total == (p + 1) * pow2(k) - small.mag(),
                    0 < small.mag() < pow2(k),
            ;
            lemma_bit_len_lt(p as nat, 53);
            lemma_round_sticky_coarse(total, 1, p as nat, k);
        }
        round_binary(2 * p + 1, x as i32 - 12)
    }
}


/// The encoding of the product of two magnitudes, rounded.
fn mul_mags(a: Double, b: Double) -> (low: u64)
    requires
        a.finite(),
        b.finite(),
        a.low() > 0,
        b.low() > 0,
    ensures
        low == round_low(a.mag() * b.mag(), one_unit()),
        low <= INF_LOW,
{
    let (m, x) = a.split();
    let (n, y) = b.split();
    proof {
        lemma_pow2_adds(x as nat, y as nat);
        assert((m * pow2(x as nat)) * (n * pow2(y as nat)) == (m * n) * pow2((x + y) as nat)) by (nonlinear_arith)
            requires
                pow2((x + y) as nat) == pow2(x as nat) * pow2(y as nat),
        ;
        lemma_round_shift((m * n) as nat, (x + y) as nat, UNIT_EXP as nat);
        assert(0 < m * n < 0x400_0000_0000_0000_0000_0000_0000) by (nonlinear_arith)
            requires
                0 < m < 2 * BINADE,
                0 < n < 2 * BINADE,
        ;
    }
    round_binary((m as u128) * (n as u128), x as i32 + y as i32 - UNIT_EXP as i32)
}

/// The significand brought to 53 binary digits, and how far it moved.
pub(crate) fn widen(m: u64) -> (res: (u64, u32))
    requires
        0 < m < 2 * BINADE,
    ensures
        res.0 == m * pow2(res.1 as nat),
        BINADE <= res.0 < 2 * BINADE,
        res.1 <= 52,
{
    let len: u32 = bits_of(m as u128);
    proof {
        lemma_bit_len_bounds(m as nat);
        lemma_bit_len_lt(m as nat, 53);
        lemma2_to64();
        lemma2_to64_rest();
    }
    let s: u32 = 53 - len;
    proof {
        lemma_pow2_adds(s as nat, len as nat);
        lemma_pow2_adds(s as nat, (len - 1) as nat);
        let w = pow2(s as nat);
        let hi = pow2(len as nat);
        let lo = pow2((len - 1) as nat);
        lemma_pow2_pos(s as nat);
        assert(w * lo <= m * w < w * hi) by (nonlinear_arith)
            requires
                lo <= m < hi,
                w > 0,
        ;
        lemma_pow2_le(s as nat, 52);
    }
    let w: u64 = pow2_word(s) as u64;
    (m * w, s)
}

/// The encoding of the quotient of two magnitudes, rounded.
fn div_mags(a: Double, b: Double) -> (low: u64)
    requires
        a.finite(),
        b.finite(),
        a.low() > 0,
        b.low() > 0,
    ensures
        low == round_low(a.mag() * one_unit(), b.mag()),
        low <= INF_LOW,
{
    let (m0, x) = a.split();
    let (n0, y) = b.split();
    let (m, s) = widen(m0);
    let (n, t) = widen(n0);
    proof {
        lemma2_to64();
    }
    let top: u128 = (m as u128) * 0x1_0000_0000_0000_0000;
    let q: u128 = top / (n as u128);
    let r: u128 = top % (n as u128);
    let shift: i32 = x as i32 + UNIT_EXP as i32 + t as i32 - y as i32 - s as i32 - 64;
    let ghost up = (x + UNIT_EXP + t) as nat;
    let ghost down = (y + s) as nat;
    proof {
        lemma_div_setup(a.mag(), b.mag(), m0 as nat, n0 as nat, x as nat, y as nat, s as nat, t as nat);
        lemma_fundamental_div_mod(top as int, n as int);
        assert(0x8000_0000_0000_0000 <= q < 0x4_0000_0000_0000_0000) by (nonlinear_arith)
            requires
                top == n * q + r,
                0 <= r < n,
                top == m * 0x1_0000_0000_0000_0000,
                BINADE <= m < 2 * BINADE,
                BINADE <= n < 2 * BINADE,
        ;
        lemma2_to64_rest();
        lemma_bit_len_lt(q as nat, 53);
    }
    if r == 0 {
        proof {
            lemma_div_exact(m as nat, n as nat, q as nat, up, down);
        }
        round_binary(q, shift)
    } else {
        proof {
            lemma_div_between(m as nat, n as nat, q as nat, r as nat, up, down);
        }
        round_binary(2 * q + 1, shift - 1)
    }
}

proof fn lemma_div_setup(am: nat, bm: nat, m0: nat, n0: nat, x: nat, y: nat, s: nat, t: nat)
    requires
        am == m0 * pow2(x),
        bm == n0 * pow2(y),
        n0 > 0,
    ensures
        round_low(am * one_unit(), bm) == round_low(
            (m0 * pow2(s)) * pow2(x + UNIT_EXP as nat + t),
            (n0 * pow2(t)) * pow2(y + s),
        ),
{
    let u = UNIT_EXP as nat;
    lemma_pow2_adds(s, t);
    lemma_pow2_adds(x, u);
    lemma_pow2_adds(x + u, t);
    lemma_pow2_adds(y, s);
    lemma_pow2_pos(s + t);
    lemma_pow2_pos(y);
    assert(n0 * pow2(y) > 0) by (nonlinear_arith)
        requires
            n0 > 0,
            pow2(y) > 0,
    ;
    lemma_round_scale(am * one_unit(), bm, pow2(s + t));
    let (ps, pt, px, pu, py) = (pow2(s), pow2(t), pow2(x), pow2(u), pow2(y));
    assert(((m0 * px) * pu) * (ps * pt) == (m0 * ps) * ((px * pu) * pt)) by (nonlinear_arith);
    assert((n0 * py) * (ps * pt) == (n0 * pt) * (py * ps)) by (nonlinear_arith);
}

proof fn lemma_div_exact(m: nat, n: nat, q: nat, up: nat, down: nat)
    requires
        n > 0,
        m * pow2(64) == n * q,
    ensures
        round_low(m * pow2(up), n * pow2(down)) == round_dyadic(q, up - down - 64),
{
    lemma_pow2_adds(down, 64);
    lemma_pow2_pos(64);
    lemma_pow2_pos(down);
    lemma_pow2_pos(down + 64);
    assert(n * pow2(down) > 0) by (nonlinear_arith)
        requires
            n > 0,
            pow2(down) > 0,
    ;
    lemma_round_scale(m * pow2(up), n * pow2(down), pow2(64));
    let (w, pu, pd) = (pow2(64), pow2(up), pow2(down));
    assert((m * pu) * w == (q * pu) * n) by (nonlinear_arith)
        requires
            m * w == n * q,
    ;
    assert((n * pd) * w == (pd * w) * n) by (nonlinear_arith);
    lemma_round_scale(q * pu, pd * w, n);
    lemma_round_shift(q, up, down + 64);
}

proof fn lemma_div_between(m: nat, n: nat, q: nat, r: nat, up: nat, down: nat)
    requires
        n > 0,
        m * pow2(64) == n * q + r,
        0 < r < n,
        bit_len(q) >= 54,
    ensures
        round_low(m * pow2(up), n * pow2(down)) == round_dyadic(2 * q + 1, up - down - 65),
{
    let (w, pu, pd) = (pow2(64), pow2(up), pow2(down));
    lemma_pow2_pos(64);
    lemma_pow2_pos(up);
    lemma_pow2_pos(down);
    assert(n * pd > 0) by (nonlinear_arith)
        requires
            n > 0,
            pd > 0,
    ;
    if up < down + 64 {
        let j = (down + 64 - up) as nat;
        lemma_pow2_adds(up, j);
        lemma_pow2_adds(down, 64);
        let pj = pow2(j);
        assert((m * pu) * pj == (m * w) * pd) by (nonlinear_arith)
            requires
                pu * pj == pd * w,
        ;
        assert(q * (n * pd) < (m * w) * pd < (q + 1) * (n * pd)) by (nonlinear_arith)
            requires
                m * w == n * q + r,
                0 < r < n,
                pd > 0,
        ;
        lemma_round_sticky_fine(m * pu, n * pd, q, j);
    } else {
        let k = (up - down - 64) as nat;
        lemma_pow2_adds(k, down);
        lemma_pow2_adds(k + down, 64);
        let pk = pow2(k);
        lemma_pow2_pos(k);
        lemma_pow2_pos(k + down);
        let z = pk * pd;
        assert(m * pu == (m * w) * z) by (nonlinear_arith)
            requires
                pu == z * w,
        ;
        assert((q * pk) * (n * pd) == (n * q) * z && ((q + 1) * pk) * (n * pd) == (n * q + n) * z) by (nonlinear_arith)
            requires
                z == pk * pd,
        ;
        assert((n * q) * z < (m * w) * z < (n * q + n) * z) by (nonlinear_arith)
            requires
                m * w == n * q + r,
                0 < r < n,
                z > 0,
        ;
        lemma_round_sticky_coarse(m * pu, n * pd, q, k);
    }
}

impl Double {
    /// `self * other`.
    pub fn times(self, other: Double) -> (res: Double)
        ensures
            res == prod(self, other),
    {
        proof {
            reveal(prod);
            lemma_mag_ordered(0, self.low());
            lemma_mag_ordered(0, other.low());
            lemma_pow2_pos(UNIT_EXP as nat);
            lemma_round_zero(one_unit());
        }
        if self.is_nan() || other.is_nan() {
            return Double { bits: NAN_LOW };
        }
        let neg: bool = (self.bits >= SIGN) != (other.bits >= SIGN);
        let zero: bool = self.bits % SIGN == 0 || other.bits % SIGN == 0;
        if !self.is_finite() || !other.is_finite() {
            if zero {
                Double { bits: NAN_LOW }
            } else {
                Double::pack(neg, INF_LOW)
            }
        } else if zero {
            proof {
                assert(self.mag() * other.mag() == 0) by (nonlinear_arith)
                    requires
                        self.mag() == 0 || other.mag() == 0,
                ;
            }
            Double::pack(neg, 0)
        } else {
            Double::pack(neg, mul_mags(self, other))
        }
    }

    /// `self / other`.
    pub fn over(self, other: Double) -> (res: Double)
        ensures
            res == quot(self, other),
    {
        proof {
            reveal(quot);
            lemma_mag_ordered(0, self.low());
            lemma_mag_ordered(0, other.low());
        }
        let neg: bool = (self.bits >= SIGN) != (other.bits >= SIGN);
        let zero: bool = self.bits % SIGN == 0;
        let by_zero: bool = other.bits % SIGN == 0;
        if self.is_nan() || other.is_nan() || (!self.is_finite() && !other.is_finite()) || (zero && by_zero) {
            Double { bits: NAN_LOW }
        } else if !self.is_finite() || by_zero {
            Double::pack(neg, INF_LOW)
        } else if !other.is_finite() || zero {
            Double::pack(neg, 0)
        } else {
            Double::pack(neg, div_mags(self, other))
        }
    }
}

} // verus!
