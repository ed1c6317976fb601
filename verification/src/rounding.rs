//! Rounding of exact rational magnitudes to the 53 significant bits of a
//! double-precision number.
//!
//! Every finite double is a whole number of *units* of `2^-1074`, so a
//! magnitude is a natural number of units and an exact result is a fraction
//! `n / d` of such units. [`round_low`] says which double magnitude is nearest
//! to that fraction, and [`round_binary`] computes it for the dyadic fractions
//! that the arithmetic in [`crate::double`] produces.
use vstd::arithmetic::div_mod::*;
use vstd::arithmetic::mul::*;
use vstd::arithmetic::power2::*;
use vstd::bits::*;
use vstd::prelude::*;

verus! {

/// `2^52`: the distance between the encodings of two doubles one binade apart.
pub const BINADE: u64 = 0x10_0000_0000_0000;

/// The magnitude encoding of infinity.
pub const INF_LOW: u64 = 0x7FF0_0000_0000_0000;

/// The number of binary digits of `n` (none for zero).
pub open spec fn bit_len(n: nat) -> nat
    decreases n,
{
    if n == 0 {
        0
    } else {
        1 + bit_len(n / 2)
    }
}

/// The whole number nearest to `n / d`, ties to the even one.
pub open spec fn nearest(n: nat, d: nat) -> nat {
    let q = n / d;
    let r = n % d;
    if 2 * r < d || (2 * r == d && q % 2 == 0) {
        q
    } else {
        q + 1
    }
}

/// How many low binary digits of a magnitude of `q` whole units a double has
/// no room for.
pub open spec fn excess(q: nat) -> nat {
    if bit_len(q) > 53 {
        (bit_len(q) - 53) as nat
    } else {
        0
    }
}

/// The encoding of the double magnitude nearest to `n / d` units, ties to the
/// one with an even significand; infinity's beyond the largest double.
#[verifier::opaque]
pub open spec fn round_low(n: nat, d: nat) -> nat {
    let x = excess(n / d);
    let low = x * BINADE as nat + nearest(n, d * pow2(x));
    if low < INF_LOW {
        low
    } else {
        INF_LOW as nat
    }
}

/// The magnitude, in units, that the encoding `low` stands for.
pub open spec fn mag_of(low: nat) -> nat {
    let e = low / BINADE as nat;
    let f = low % BINADE as nat;
    if e == 0 {
        f
    } else {
        (BINADE + f) as nat * pow2((e - 1) as nat)
    }
}

pub proof fn lemma_bit_len_bounds(n: nat)
    requires
        n > 0,
    ensures
        bit_len(n) > 0,
        pow2((bit_len(n) - 1) as nat) <= n < pow2(bit_len(n)),
    decreases n,
{
    lemma_pow2_unfold(bit_len(n));
    if n == 1 {
        assert(bit_len(0) == 0);
        assert(bit_len(1) == 1 + bit_len(0)) by {
            assert(1nat / 2 == 0);
        }
        lemma2_to64();
    } else {
        lemma_bit_len_bounds(n / 2);
        let h = bit_len(n / 2);
        lemma_pow2_unfold(h);
        lemma_pow2_unfold(h + 1);
    }
}

pub proof fn lemma_pow2_le(a: nat, b: nat)
    requires
        a <= b,
    ensures
        pow2(a) <= pow2(b),
{
    if a < b {
        lemma_pow2_strictly_increases(a, b);
    }
}

pub proof fn lemma_bit_len_unique(n: nat, k: nat)
    requires
        pow2(k) <= n < pow2(k + 1),
    ensures
        bit_len(n) == k + 1,
{
    lemma_pow2_pos(k);
    lemma_bit_len_bounds(n);
    let l = bit_len(n);
    if l < k + 1 {
        lemma_pow2_le(l, k);
    } else if l > k + 1 {
        lemma_pow2_le(k + 1, (l - 1) as nat);
    }
}

/// `n < 2^k` exactly when `n` has at most `k` binary digits.
pub proof fn lemma_bit_len_lt(n: nat, k: nat)
    ensures
        n < pow2(k) <==> bit_len(n) <= k,
{
    lemma_pow2_pos(k);
    if n > 0 {
        lemma_bit_len_bounds(n);
        if bit_len(n) <= k {
            lemma_pow2_le(bit_len(n), k);
        } else {
            lemma_pow2_le(k, (bit_len(n) - 1) as nat);
        }
    }
}

pub proof fn lemma_bit_len_shl(n: nat, k: nat)
    requires
        n > 0,
    ensures
        bit_len(n * pow2(k)) == bit_len(n) + k,
{
    lemma_bit_len_bounds(n);
    let l = bit_len(n);
    lemma_pow2_pos(k);
    lemma_pow2_adds((l - 1) as nat, k);
    lemma_pow2_adds(l, k);
    assert(pow2((l - 1) as nat) * pow2(k) <= n * pow2(k) < pow2(l) * pow2(k)) by (nonlinear_arith)
        requires
            pow2((l - 1) as nat) <= n < pow2(l),
            pow2(k) > 0,
    ;
    lemma_bit_len_unique(n * pow2(k), (l - 1 + k) as nat);
}

pub proof fn lemma_bit_len_shr(n: nat, k: nat)
    requires
        n > 0,
    ensures
        bit_len(n / pow2(k)) == if bit_len(n) > k {
            (bit_len(n) - k) as nat
        } else {
            0
        },
{
    lemma_bit_len_bounds(n);
    let l = bit_len(n);
    lemma_pow2_pos(k);
    if l > k {
        lemma_pow2_adds((l - 1 - k) as nat, k);
        lemma_pow2_adds((l - k) as nat, k);
        let q = n / pow2(k);
        let a = pow2((l - 1 - k) as nat);
        let b = pow2((l - k) as nat);
        assert(a <= q < b) by (nonlinear_arith)
            requires
                a * pow2(k) <= n < b * pow2(k),
                q == n / pow2(k),
                pow2(k) > 0,
        ;
        lemma_bit_len_unique(q, (l - 1 - k) as nat);
    } else {
        lemma_pow2_le(l, k);
        lemma_basic_div(n as int, pow2(k) as int);
    }
}

/// Rounding depends on the fraction only, not on how it is written.
pub proof fn lemma_nearest_scale(n: nat, d: nat, c: nat)
    requires
        d > 0,
        c > 0,
    ensures
        nearest(n * c, d * c) == nearest(n, d),
        (n * c) / (d * c) == n / d,
{
    let q = (n / d) as int;
    let r = (n % d) as int;
    lemma_fundamental_div_mod(n as int, d as int);
    assert(n * c == (d * c) * q + r * c) by (nonlinear_arith)
        requires
            n == d * q + r,
    ;
    assert(0 <= r * c < d * c) by (nonlinear_arith)
        requires
            0 <= r < d,
            c > 0,
    ;
    assert(d * c > 0) by (nonlinear_arith)
        requires
            d > 0,
            c > 0,
    ;
    lemma_fundamental_div_mod_converse((n * c) as int, (d * c) as int, q, r * c);
    assert((2 * (r * c) < d * c) == (2 * r < d)) by (nonlinear_arith)
        requires
            c > 0,
    ;
    assert((2 * (r * c) == d * c) == (2 * r == d)) by (nonlinear_arith)
        requires
            c > 0,
    ;
}

pub proof fn lemma_round_scale(n: nat, d: nat, c: nat)
    requires
        d > 0,
        c > 0,
    ensures
        round_low(n * c, d * c) == round_low(n, d),
{
    reveal(round_low);
    lemma_nearest_scale(n, d, c);
    let x = excess(n / d);
    lemma_pow2_pos(x);
    assert(d * pow2(x) > 0) by (nonlinear_arith)
        requires
            d > 0,
            pow2(x) > 0,
    ;
    lemma_nearest_scale(n, d * pow2(x), c);
    assert((d * c) * pow2(x) == (d * pow2(x)) * c) by (nonlinear_arith);
}

/// A fraction that is a whole number rounds to itself.
pub proof fn lemma_nearest_exact(q: nat, d: nat)
    requires
        d > 0,
    ensures
        nearest(q * d, d) == q,
        (q * d) / d == q,
{
    assert(q * d == d * q + 0) by (nonlinear_arith);
    lemma_fundamental_div_mod_converse((q * d) as int, d as int, q as int, 0);
}

/// Two fractions strictly between the same two neighbouring multiples of `u`
/// round alike to multiples of `g`, where half of `g` is a multiple of `u`.
proof fn lemma_nearest_between(n: nat, d: nat, p: nat, j: nat)
    requires
        d > 0,
        p * d < n < (p + 1) * d,
        j > 0,
    ensures
        nearest(n, d * (2 * j)) == nearest(2 * p + 1, 2 * (2 * j)),
{
    let g = 2 * j;
    let q = p / g;
    let r = p % g;
    lemma_fundamental_div_mod(p as int, g as int);
    // n = (d * g) * q + s with s strictly between r * d and (r + 1) * d
    let s = n - (d * g) * q;
    assert((d * g) * q == (g * q) * d) by (nonlinear_arith);
    assert(r * d < s < (r + 1) * d) by (nonlinear_arith)
        requires
            p == g * q + r,
            s == n - (g * q) * d,
            p * d < n < (p + 1) * d,
    ;
    assert((r + 1) * d <= g * d) by (nonlinear_arith)
        requires
            r + 1 <= g,
            d > 0,
    ;
    assert(d * g == g * d) by (nonlinear_arith);
    assert(r * d >= 0) by (nonlinear_arith)
        requires
            r >= 0,
            d > 0,
    ;
    assert(n == q * (d * g) + s) by (nonlinear_arith)
        requires
            s == n - (d * g) * q,
    ;
    lemma_fundamental_div_mod_converse(n as int, (d * g) as int, q as int, s);
    assert(2 * p + 1 == (2 * g) * q + (2 * r + 1)) by (nonlinear_arith)
        requires
            p == g * q + r,
    ;
    lemma_fundamental_div_mod_converse(
        (2 * p + 1) as int,
        (2 * g) as int,
        q as int,
        (2 * r + 1) as int,
    );
    // the remainder passes half of the divisor exactly when r does
    if r < j {
        assert(2 * s < d * g) by (nonlinear_arith)
            requires
                s < (r + 1) * d,
                r + 1 <= j,
                g == 2 * j,
                d > 0,
        ;
    } else {
        assert(2 * s > d * g) by (nonlinear_arith)
            requires
                s > r * d,
                r >= j,
                g == 2 * j,
                d > 0,
        ;
    }
}

/// The encoding of the double magnitude nearest to `p * 2^k` units.
pub open spec fn round_dyadic(p: nat, k: int) -> nat {
    if k >= 0 {
        round_low(p * pow2(k as nat), 1)
    } else {
        round_low(p, pow2((-k) as nat))
    }
}

pub proof fn lemma_round_zero(d: nat)
    requires
        d > 0,
    ensures
        round_low(0, d) == 0,
{
    reveal(round_low);
    lemma2_to64();
    assert(0nat / d == 0) by (nonlinear_arith)
        requires
            d > 0,
    ;
    assert(d * pow2(0) == d);
    assert(0nat % d == 0) by {
        lemma_small_mod(0, d);
    }
}

/// `p * 2^a / 2^b` units round as `p * 2^(a - b)` units do.
pub proof fn lemma_round_shift(p: nat, a: nat, b: nat)
    ensures
        round_low(p * pow2(a), pow2(b)) == round_dyadic(p, a - b),
{
    if a >= b {
        let k = (a - b) as nat;
        lemma_pow2_adds(k, b);
        lemma_pow2_pos(b);
        assert(p * pow2(a) == (p * pow2(k)) * pow2(b)) by (nonlinear_arith)
            requires
                pow2(a) == pow2(k) * pow2(b),
        ;
        lemma_round_scale(p * pow2(k), 1, pow2(b));
    } else {
        let k = (b - a) as nat;
        lemma_pow2_adds(k, a);
        lemma_pow2_pos(k);
        lemma_pow2_pos(a);
        lemma_round_scale(p, pow2(k), pow2(a));
    }
}

/// A magnitude strictly between `p` and `p + 1` parts of `2^-j` units rounds
/// as the midpoint of the two does.
pub proof fn lemma_round_sticky_fine(n: nat, d: nat, p: nat, j: nat)
    requires
        d > 0,
        j > 0,
        p * d < n * pow2(j) < (p + 1) * d,
    ensures
        round_low(n, d) == round_dyadic(2 * p + 1, -(j as int) - 1),
{
    reveal(round_low);
    let u = pow2(j);
    lemma_pow2_pos(j);
    let t = p / u;
    lemma_fundamental_div_mod(p as int, u as int);
    assert(t * d <= n && n < (t + 1) * d) by (nonlinear_arith)
        requires
            p == u * t + p % u,
            0 <= p % u < u,
            p * d < n * u < (p + 1) * d,
            u > 0,
            d > 0,
    ;
    assert(n == t * d + (n - t * d) && 0 <= n - t * d < d) by (nonlinear_arith)
        requires
            t * d <= n < (t + 1) * d,
    ;
    lemma_fundamental_div_mod_converse(n as int, d as int, t as int, n - t * d);
    lemma_pow2_unfold(j + 1);
    let r = p % u;
    assert(2 * p + 1 == t * (2 * u) + (2 * r + 1)) by (nonlinear_arith)
        requires
            p == u * t + r,
    ;
    lemma_fundamental_div_mod_converse(
        (2 * p + 1) as int,
        (2 * u) as int,
        t as int,
        (2 * r + 1) as int,
    );
    let x = excess(t);
    lemma_pow2_pos(x);
    assert(d * pow2(x) > 0) by (nonlinear_arith)
        requires
            d > 0,
            pow2(x) > 0,
    ;
    lemma_nearest_scale(n, d * pow2(x), u);
    lemma_pow2_adds(x, j);
    lemma_pow2_unfold(x + j);
    let h = pow2((x + j - 1) as nat);
    lemma_pow2_pos((x + j - 1) as nat);
    lemma_nearest_between(n * u, d, p, h);
    assert((d * pow2(x)) * u == d * (2 * h)) by (nonlinear_arith)
        requires
            pow2(x) * u == 2 * h,
    ;
    assert((2 * u) * pow2(x) == 2 * (2 * h)) by (nonlinear_arith)
        requires
            pow2(x) * u == 2 * h,
    ;
}

/// The same where the parts are `2^k` units and `p` is long enough for them to
/// lie below the last bit that is kept.
pub proof fn lemma_round_sticky_coarse(n: nat, d: nat, p: nat, k: nat)
    requires
        d > 0,
        bit_len(p) >= 54,
        (p * pow2(k)) * d < n < ((p + 1) * pow2(k)) * d,
    ensures
        round_low(n, d) == round_dyadic(2 * p + 1, k - 1),
{
    reveal(round_low);
    let l = bit_len(p);
    let u = pow2(k);
    let q = n / d;
    lemma_pow2_pos(k);
    lemma_bit_len_bounds(p);
    lemma_pow2_adds((l - 1) as nat, k);
    lemma_pow2_adds(l, k);
    lemma_fundamental_div_mod(n as int, d as int);
    assert(p * u <= q < (p + 1) * u) by (nonlinear_arith)
        requires
            (p * u) * d < n < ((p + 1) * u) * d,
            n == d * q + n % d,
            0 <= n % d < d,
    ;
    assert(pow2((l - 1) as nat) * u <= q < pow2(l) * u) by (nonlinear_arith)
        requires
            pow2((l - 1) as nat) <= p,
            p + 1 <= pow2(l),
            p * u <= q < (p + 1) * u,
            u > 0,
    ;
    lemma_bit_len_unique(q, (l - 1 + k) as nat);
    let x = (l + k - 53) as nat;
    assert(excess(q) == x);
    lemma_pow2_unfold((x - k) as nat);
    let h = pow2((x - k - 1) as nat);
    lemma_pow2_pos((x - k - 1) as nat);
    let e = u * d;
    assert(e > 0) by (nonlinear_arith)
        requires
            e == u * d,
            u > 0,
            d > 0,
    ;
    assert(p * e < n < (p + 1) * e) by (nonlinear_arith)
        requires
            (p * u) * d < n < ((p + 1) * u) * d,
            e == u * d,
    ;
    lemma_nearest_between(n, e, p, h);
    lemma_pow2_adds(k, (x - k) as nat);
    assert(d * pow2(x) == e * (2 * h)) by (nonlinear_arith)
        requires
            pow2(x) == u * (2 * h),
            e == u * d,
    ;
    // the midpoint
    if k == 0 {
        lemma2_to64();
        assert((2 * p + 1) / 2 == p);
        assert(u == 1);
        assert(excess(p) == x);
        assert(2 * pow2(x) == 2 * (2 * h));
    } else {
        let v = pow2((k - 1) as nat);
        lemma_pow2_pos((k - 1) as nat);
        lemma_pow2_unfold(k);
        let w = (2 * p + 1) * v;
        assert(pow2((l - 1) as nat) * u <= w < pow2(l) * u) by (nonlinear_arith)
            requires
                pow2((l - 1) as nat) <= p,
                p + 1 <= pow2(l),
                w == (2 * p + 1) * v,
                u == 2 * v,
                v > 0,
        ;
        lemma_bit_len_unique(w, (l - 1 + k) as nat);
        assert(w / 1 == w);
        lemma_nearest_scale(2 * p + 1, 2 * (2 * h), v);
        assert((2 * (2 * h)) * v == 1 * pow2(x)) by (nonlinear_arith)
            requires
                pow2(x) == u * (2 * h),
                u == 2 * v,
        ;
    }
}

/// The significand that `p * 2^k` units round to at an excess of `x` bits.
pub open spec fn dyadic_part(p: nat, k: int, x: int) -> nat {
    if x <= k {
        p * pow2((k - x) as nat)
    } else {
        nearest(p, pow2((x - k) as nat))
    }
}

/// What [`round_dyadic`] comes to, with the excess read off the length of `p`.
pub proof fn lemma_round_dyadic_parts(p: nat, k: int)
    requires
        p > 0,
    ensures
        ({
            let x: int = if bit_len(p) + k > 53 {
                bit_len(p) + k - 53
            } else {
                0
            };
            let m = dyadic_part(p, k, x);
            let low = x * BINADE + m;
            &&& round_dyadic(p, k) == if low < INF_LOW {
                low as nat
            } else {
                INF_LOW as nat
            }
            &&& m <= pow2(53)
            &&& x > 0 ==> m >= pow2(52)
        }),
{
    reveal(round_low);
    let l = bit_len(p);
    let x: int = if l + k > 53 {
        l + k - 53
    } else {
        0
    };
    lemma_bit_len_bounds(p);
    lemma_pow2_pos(x as nat);
    if k >= 0 {
        let n = p * pow2(k as nat);
        lemma_bit_len_shl(p, k as nat);
        assert(n / 1 == n);
        assert(excess(n / 1) == x);
        assert(1 * pow2(x as nat) == pow2(x as nat));
        if x <= k {
            lemma_pow2_adds((k - x) as nat, x as nat);
            assert(n == (p * pow2((k - x) as nat)) * pow2(x as nat)) by (nonlinear_arith)
                requires
                    n == p * pow2(k as nat),
                    pow2(k as nat) == pow2((k - x) as nat) * pow2(x as nat),
            ;
            lemma_nearest_exact(p * pow2((k - x) as nat), pow2(x as nat));
        } else {
            lemma_pow2_adds((x - k) as nat, k as nat);
            lemma_pow2_pos(k as nat);
            lemma_pow2_pos((x - k) as nat);
            lemma_nearest_scale(p, pow2((x - k) as nat), pow2(k as nat));
        }
    } else {
        lemma_bit_len_shr(p, (-k) as nat);
        lemma_pow2_pos((-k) as nat);
        assert(excess(p / pow2((-k) as nat)) == x);
        lemma_pow2_adds((-k) as nat, x as nat);
    }
    // bounds
    if x <= k {
        let j = (k - x) as nat;
        lemma_bit_len_shl(p, j);
        lemma_bit_len_lt(p * pow2(j), 53);
        lemma_bit_len_lt(p * pow2(j), 52);
    } else {
        let j = (x - k) as nat;
        lemma_pow2_pos(j);
        lemma_bit_len_shr(p, j);
        lemma_bit_len_lt(p / pow2(j), 53);
        lemma_bit_len_lt(p / pow2(j), 52);
    }
}

proof fn lemma_shift_fits(p: nat, j: nat)
    requires
        bit_len(p) + j <= 53,
        p > 0,
    ensures
        p * pow2(j) < pow2(53),
        j < 53,
{
    lemma_bit_len_bounds(p);
    lemma_bit_len_shl(p, j);
    lemma_bit_len_lt(p * pow2(j), 53);
}

/// `2^n` as a machine word.
pub fn pow2_word(n: u32) -> (res: u128)
    requires
        n < 128,
    ensures
        res == pow2(n as nat),
{
    if n < 64 {
        proof {
            lemma_u64_pow2_no_overflow(n as nat);
            lemma_u64_shl_is_mul(1, n as u64);
        }
        (1u64 << (n as u64)) as u128
    } else {
        let m: u32 = n - 64;
        proof {
            lemma_u64_pow2_no_overflow(m as nat);
            lemma_u64_shl_is_mul(1, m as u64);
            lemma_pow2_adds(64, m as nat);
            lemma2_to64();
        }
        ((1u64 << (m as u64)) as u128) * 0x1_0000_0000_0000_0000
    }
}

/// The number of binary digits of `p`.
pub fn bits_of(p: u128) -> (res: u32)
    ensures
        res == bit_len(p as nat),
        res <= 128,
{
    let mut q: u128 = p;
    let mut n: u32 = 0;
    proof {
        lemma2_to64();
        lemma2_to64_rest();
    }
    while q >= 0x100
        invariant
            n + bit_len(q as nat) == bit_len(p as nat),
        decreases q,
    {
        proof {
            lemma2_to64();
            lemma_bit_len_shr(q as nat, 8);
            lemma_bit_len_lt(q as nat, 8);
            lemma_pow2_adds(64, 64);
            lemma_bit_len_lt(p as nat, 128);
        }
        q = q / 0x100;
        n = n + 8;
    }
    while q > 0
        invariant
            n + bit_len(q as nat) == bit_len(p as nat),
        decreases q,
    {
        proof {
            lemma2_to64();
            lemma_pow2_adds(64, 64);
            lemma_bit_len_lt(p as nat, 128);
        }
        q = q / 2;
        n = n + 1;
    }
    proof {
        lemma2_to64();
        lemma_pow2_adds(64, 64);
        lemma_bit_len_lt(p as nat, 128);
    }
    n
}

/// The whole number nearest to `p / 2^s`, ties to the even one.
fn nearest_shifted(p: u128, s: u32) -> (res: u128)
    requires
        p < 0x8000_0000_0000_0000_0000_0000_0000_0000,
    ensures
        res == nearest(p as nat, pow2(s as nat)),
{
    proof {
        lemma2_to64();
        lemma_pow2_adds(64, 63);
        lemma2_to64_rest();
    }
    if s >= 128 {
        proof {
            lemma_pow2_adds(64, 63);
            lemma_pow2_le(128, s as nat);
            lemma_pow2_unfold(128);
            lemma_basic_div(p as int, pow2(s as nat) as int);
            lemma_small_mod(p as nat, pow2(s as nat));
        }
        0
    } else {
        let d: u128 = pow2_word(s);
        proof {
            lemma_pow2_pos(s as nat);
        }
        let q: u128 = p / d;
        let r: u128 = p % d;
        let rest: u128 = d - r;
        if r < rest || (r == rest && q % 2 == 0) {
            q
        } else {
            q + 1
        }
    }
}

/// The encoding of the double magnitude nearest to `p * 2^k` units.
pub fn round_binary(p: u128, k: i32) -> (low: u64)
    requires
        0 < p < 0x8000_0000_0000_0000_0000_0000_0000_0000,
        -10000 <= k <= 10000,
    ensures
        low == round_dyadic(p as nat, k as int),
        low <= INF_LOW,
{
    let len: i32 = bits_of(p) as i32;
    let x: i32 = if len + k > 53 {
        len + k - 53
    } else {
        0
    };
    proof {
        lemma_round_dyadic_parts(p as nat, k as int);
        lemma2_to64();
        lemma2_to64_rest();
    }
    if x >= 2046 {
        return INF_LOW;
    }
    let s: i32 = x - k;
    let m: u128 = if s <= 0 {
        proof {
            lemma_shift_fits(p as nat, (-s) as nat);
        }
        p * pow2_word((-s) as u32)
    } else {
        nearest_shifted(p, s as u32)
    };
    let low: u64 = (x as u64) * BINADE + m as u64;
    if low < INF_LOW {
        low
    } else {
        INF_LOW
    }
}

} // verus!
