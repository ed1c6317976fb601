//! Square roots and remainders of double-precision numbers.
use crate::double::{lemma_mag_ordered, not_a_number, one_unit, signed, widen, Double, NAN_LOW, SIGN, UNIT_EXP};
use crate::rounding::{
    bit_len, lemma_bit_len_lt, lemma_pow2_le, lemma_round_sticky_coarse, lemma_round_zero, round_binary, round_dyadic,
    round_low, BINADE, INF_LOW,
};
use vstd::arithmetic::div_mod::*;
use vstd::arithmetic::mul::*;
use vstd::arithmetic::power2::*;
use vstd::prelude::*;

verus! {

/// Whether `r` is the square root of `n`, rounded down.
pub open spec fn is_floor_root(n: nat, r: nat) -> bool {
    r * r <= n < (r + 1) * (r + 1)
}

/// The square root of `n`, rounded down.
pub open spec fn floor_root(n: nat) -> nat {
    choose|r: nat| #[trigger] is_floor_root(n, r)
}

/// The encoding of the double magnitude nearest to the square root of `n`
/// units. A root that is not whole lies between two whole numbers of units,
/// and where the root has more than 54 binary digits it rounds as the midpoint
/// of the two does.
pub open spec fn round_root(n: nat) -> nat {
    let r = floor_root(n);
    if r * r == n {
        round_low(r, 1)
    } else {
        round_low(2 * r + 1, 2)
    }
}

/// The square root of `a`.
#[verifier::opaque]
pub open spec fn square_root(a: Double) -> Double {
    if a.nan() || (a.neg() && a.mag() > 0) {
        not_a_number()
    } else if a.mag() == 0 || !a.finite() {
        a
    } else {
        signed(false, round_root(a.mag() * one_unit()))
    }
}

/// What is left of `a` after taking away `b` a whole number of times, rounded
/// toward zero.
#[verifier::opaque]
pub open spec fn remainder(a: Double, b: Double) -> Double {
    if a.nan() || b.nan() || !a.finite() || b.mag() == 0 {
        not_a_number()
    } else if !b.finite() {
        a
    } else {
        signed(a.neg(), round_low(a.mag() % b.mag(), 1))
    }
}

pub proof fn lemma_floor_root_unique(n: nat, r: nat, s: nat)
    requires
        is_floor_root(n, r),
        is_floor_root(n, s),
    ensures
        r == s,
{
    if r < s {
        assert((r + 1) * (r + 1) <= s * s) by (nonlinear_arith)
            requires
                r + 1 <= s,
        ;
    } else if s < r {
        assert((s + 1) * (s + 1) <= r * r) by (nonlinear_arith)
            requires
                s + 1 <= r,
        ;
    }
}

pub proof fn lemma_floor_root_exists(n: nat) -> (r: nat)
    ensures
        is_floor_root(n, r),
    decreases n,
{
    if n == 0 {
        assert(is_floor_root(0, 0)) by (nonlinear_arith);
        0
    } else {
        let r = lemma_floor_root_exists((n - 1) as nat);
        if (r + 1) * (r + 1) <= n {
            let s = r + 1;
            assert((s + 1) * (s + 1) > s * s) by (nonlinear_arith);
            s
        } else {
            r
        }
    }
}

pub proof fn lemma_floor_root(n: nat)
    ensures
        is_floor_root(n, floor_root(n)),
{
    let r = lemma_floor_root_exists(n);
    assert(is_floor_root(n, r));
}

/// The square root of `n`, rounded down.
pub fn whole_root(n: u128) -> (res: u64)
    requires
        n < 0x100_0000_0000_0000_0000_0000_0000_0000,
    ensures
        is_floor_root(n as nat, res as nat),
{
    let mut lo: u64 = 0;
    let mut hi: u64 = 0x1000_0000_0000_0000;
    while hi - lo > 1
        invariant
            lo < hi <= 0x1000_0000_0000_0000,
            lo * lo <= n < hi * hi,
        decreases hi - lo,
    {
        let mid: u64 = lo + (hi - lo) / 2;
        proof {
            assert(mid * mid <= 0x100_0000_0000_0000_0000_0000_0000_0000) by (nonlinear_arith)
                requires
                    0 <= mid <= 0x1000_0000_0000_0000,
            ;
        }
        let square: u128 = (mid as u128) * (mid as u128);
        if square <= n {
            lo = mid;
        } else {
            hi = mid;
        }
    }
    lo
}

proof fn lemma_root_scaled(n: nat, m: nat, t: nat, h: nat)
    requires
        n == m * (pow2(h) * pow2(h)),
        is_floor_root(m, t),
        bit_len(t) >= 54,
    ensures
        round_root(n) == if t * t == m {
            round_dyadic(t, h as int)
        } else {
            round_dyadic(2 * t + 1, h - 1)
        },
{
    let w = pow2(h);
    lemma_pow2_pos(h);
    lemma_floor_root(n);
    let f = floor_root(n);
    assert((t * w) * (t * w) == (t * t) * (w * w)) by (nonlinear_arith);
    assert(((t + 1) * w) * ((t + 1) * w) == ((t + 1) * (t + 1)) * (w * w)) by (nonlinear_arith);
    assert(w * w > 0) by (nonlinear_arith)
        requires
            w > 0,
    ;
    if t * t == m {
        assert((t * w + 1) * (t * w + 1) > (t * w) * (t * w)) by (nonlinear_arith);
        assert(is_floor_root(n, t * w));
        lemma_floor_root_unique(n, f, t * w);
    } else {
        assert((t * t) * (w * w) < n < ((t + 1) * (t + 1)) * (w * w)) by (nonlinear_arith)
            requires
                t * t < m < (t + 1) * (t + 1),
                n == m * (w * w),
                w * w > 0,
        ;
        assert(t * w <= f < (t + 1) * w) by (nonlinear_arith)
            requires
                f * f <= n < (f + 1) * (f + 1),
                (t * w) * (t * w) < n < ((t + 1) * w) * ((t + 1) * w),
        ;
        if f * f == n {
            assert(f > t * w) by (nonlinear_arith)
                requires
                    (t * w) * (t * w) < f * f,
                    f >= 0,
            ;
            lemma_round_sticky_coarse(f, 1, t, h);
        } else {
            lemma_round_sticky_coarse(2 * f + 1, 2, t, h);
        }
    }
}

/// The encoding of the square root of a magnitude, rounded.
fn root_mag(a: Double) -> (low: u64)
    requires
        a.finite(),
        a.low() > 0,
    ensures
        low == round_root(a.mag() * one_unit()),
        low <= INF_LOW,
{
    let (m0, x) = a.split();
    let (m1, s) = widen(m0);
    let e: u32 = x + UNIT_EXP - s - 64;
    let odd: bool = e % 2 == 1;
    let m: u128 = if odd {
        (m1 as u128) * 0x2_0000_0000_0000_0000
    } else {
        (m1 as u128) * 0x1_0000_0000_0000_0000
    };
    let h: u32 = e / 2;
    let t: u64 = whole_root(m);
    proof {
        lemma2_to64();
        lemma2_to64_rest();
        let scaled = a.mag() * one_unit();
        lemma_pow2_adds(x as nat, UNIT_EXP as nat);
        lemma_pow2_adds(s as nat, 64);
        lemma_pow2_adds((s + 64) as nat, e as nat);
        lemma_pow2_adds(h as nat, h as nat);
        lemma_pow2_unfold(e as nat);
        let (px, pu, ps, pe) = (pow2(x as nat), one_unit(), pow2(s as nat), pow2(e as nat));
        let w = pow2(h as nat) * pow2(h as nat);
        assert((m0 * px) * pu == ((m0 * ps) * 0x1_0000_0000_0000_0000) * pe) by (nonlinear_arith)
            requires
                px * pu == (ps * 0x1_0000_0000_0000_0000) * pe,
        ;
        if odd {
            assert(e == 2 * h + 1);
            assert(pe == 2 * w);
            assert(((m1 * 0x1_0000_0000_0000_0000) * pe) == m * w) by (nonlinear_arith)
                requires
                    m == m1 * 0x2_0000_0000_0000_0000,
                    pe == 2 * w,
            ;
        } else {
            assert(e == 2 * h);
        }
        assert(scaled == m * w);
        assert(t >= 0x20_0000_0000_0000) by (nonlinear_arith)
            requires
                m < (t + 1) * (t + 1),
                m >= 0x10_0000_0000_0000_0000_0000_0000_0000,
                t >= 0,
        ;
        lemma_bit_len_lt(t as nat, 53);
        lemma_root_scaled(scaled, m as nat, t as nat, h as nat);
        assert(t * t <= 0x100_0000_0000_0000_0000_0000_0000_0000);
        assert(t < 0x1000_0000_0000_0000) by (nonlinear_arith)
            requires
                t * t <= m,
                m < 0x100_0000_0000_0000_0000_0000_0000_0000,
                t >= 0,
        ;
    }
    let square: u128 = (t as u128) * (t as u128);
    if square == m {
        round_binary(t as u128, h as i32)
    } else {
        round_binary(2 * (t as u128) + 1, h as i32 - 1)
    }
}

/// `(m * 2^k) % n`.
fn shifted_remainder(m: u64, k: u32, n: u64) -> (res: u64)
    requires
        0 < n < 2 * BINADE,
    ensures
        res == (m * pow2(k as nat)) % (n as int),
        res < n,
{
    let mut r: u64 = m % n;
    let mut i: u32 = 0;
    proof {
        lemma2_to64();
        assert(m * pow2(0) == m);
    }
    while i < k
        invariant
            i <= k,
            0 < n < 2 * BINADE,
            r < n,
            r == (m * pow2(i as nat)) % (n as int),
        decreases k - i,
    {
        proof {
            let v = m * pow2(i as nat);
            lemma_pow2_unfold((i + 1) as nat);
            assert(m * pow2((i + 1) as nat) == 2 * v) by (nonlinear_arith)
                requires
                    pow2((i + 1) as nat) == 2 * pow2(i as nat),
                    v == m * pow2(i as nat),
            ;
            lemma_mul_mod_noop_right(2, v, n as int);
        }
        r = (2 * r) % n;
        i = i + 1;
    }
    r
}

/// The encoding of the remainder of two magnitudes.
fn rem_mags(a: Double, b: Double) -> (low: u64)
    requires
        a.finite(),
        b.finite(),
        a.low() > 0,
        b.low() > 0,
    ensures
        low == round_low(a.mag() % b.mag(), 1),
        low <= INF_LOW,
{
    let (m, x) = a.split();
    let (n, y) = b.split();
    let ghost c = pow2(y as nat);
    proof {
        lemma_pow2_pos(y as nat);
        lemma_round_zero(1);
    }
    if x < y {
        proof {
            lemma_pow2_unfold(y as nat);
            lemma_pow2_le(x as nat, (y - 1) as nat);
            lemma_pow2_pos(x as nat);
            assert(m * pow2(x as nat) < n * c) by (nonlinear_arith)
                requires
                    m < 2 * BINADE,
                    n >= BINADE,
                    c >= 2 * pow2(x as nat),
                    pow2(x as nat) > 0,
            ;
            lemma_small_mod(a.mag(), b.mag());
        }
        round_binary(m as u128, x as i32)
    } else {
        let k: u32 = x - y;
        let r: u64 = shifted_remainder(m, k, n);
        proof {
            let v = m * pow2(k as nat);
            lemma_pow2_adds(k as nat, y as nat);
            assert(m * pow2(x as nat) == v * c) by (nonlinear_arith)
                requires
                    pow2(x as nat) == pow2(k as nat) * c,
                    v == m * pow2(k as nat),
            ;
            lemma_truncate_middle(v, c as int, n as int);
            assert(v * c == c * v && n * c == c * n && c * r == r * c) by (nonlinear_arith);
        }
        if r == 0 {
            proof {
                assert(0 * c == 0);
            }
            0
        } else {
            round_binary(r as u128, y as i32)
        }
    }
}

impl Double {
    /// The square root.
    pub fn sqrt(self) -> (res: Double)
        ensures
            res == square_root(self),
    {
        proof {
            reveal(square_root);
            lemma_mag_ordered(0, self.low());
        }
        let low: u64 = self.bits % SIGN;
        if self.is_nan() || (self.bits >= SIGN && low > 0) {
            Double { bits: NAN_LOW }
        } else if low == 0 || !self.is_finite() {
            self
        } else {
            Double::pack(false, root_mag(self))
        }
    }

    /// What is left of the number after taking away `other` a whole number of
    /// times; it has the number's own sign.
    pub fn rem(self, other: Double) -> (res: Double)
        ensures
            res == remainder(self, other),
    {
        proof {
            reveal(remainder);
            lemma_mag_ordered(0, self.low());
            lemma_mag_ordered(0, other.low());
            lemma_round_zero(1);
        }
        let neg: bool = self.bits >= SIGN;
        if self.is_nan() || other.is_nan() || !self.is_finite() || other.bits % SIGN == 0 {
            Double { bits: NAN_LOW }
        } else if !other.is_finite() {
            self
        } else if self.bits % SIGN == 0 {
            proof {
                lemma_small_mod(0, other.mag());
            }
            Double::pack(neg, 0)
        } else {
            Double::pack(neg, rem_mags(self, other))
        }
    }
}

} // verus!
