//! Laws of double-precision arithmetic: rounding keeps what is already a
//! double and never reverses an order, and what follows for sums and products.
use crate::double::{lemma_mag_ordered, one_unit, prod, quot, round_units, sum, Double, UNIT_EXP};
use crate::order::le;
use crate::rounding::{
    bit_len, excess, lemma_bit_len_bounds, lemma_bit_len_lt, lemma_bit_len_shl, lemma_bit_len_unique,
    lemma_nearest_exact, lemma_pow2_le, lemma_round_zero, mag_of, nearest, round_low, BINADE, INF_LOW,
};
use crate::whole::{int_double, ratio};
use vstd::arithmetic::div_mod::*;
use vstd::arithmetic::mul::*;
use vstd::arithmetic::power2::*;
use vstd::prelude::*;

verus! {

/// A magnitude that a double has already rounds to itself.
pub proof fn lemma_round_exact(low: nat)
    requires
        low <= INF_LOW,
    ensures
        round_low(mag_of(low), 1) == low,
{
    reveal(round_low);
    let e = low / BINADE as nat;
    let f = low % BINADE as nat;
    lemma_fundamental_div_mod(low as int, BINADE as int);
    lemma2_to64();
    lemma2_to64_rest();
    let m = mag_of(low);
    assert(m / 1 == m);
    if e == 0 {
        lemma_bit_len_lt(f, 53);
        lemma_nearest_exact(f, 1);
        assert(f * 1 == f);
        assert(1 * pow2(0) == 1);
    } else {
        let x = (e - 1) as nat;
        let g = (BINADE + f) as nat;
        lemma_bit_len_unique(g, 52);
        lemma_bit_len_shl(g, x);
        lemma_pow2_pos(x);
        lemma_nearest_exact(g, pow2(x));
        assert(1 * pow2(x) == pow2(x));
    }
}

proof fn lemma_nearest_monotone(n: nat, d: nat, p: nat, e: nat)
    requires
        d > 0,
        e > 0,
        n * e <= p * d,
    ensures
        n / d <= p / e,
        nearest(n, d) <= nearest(p, e),
{
    lemma_fundamental_div_mod(n as int, d as int);
    lemma_fundamental_div_mod(p as int, e as int);
    let (q, r) = (n / d, n % d);
    let (s, t) = (p / e, p % e);
    assert(q <= s) by (nonlinear_arith)
        requires
            n == d * q + r,
            p == e * s + t,
            0 <= r < d,
            0 <= t < e,
            n * e <= p * d,
    ;
    if q == s {
        assert(r * e <= t * d) by (nonlinear_arith)
            requires
                n == d * q + r,
                p == e * q + t,
                n * e <= p * d,
        ;
        assert(2 * r >= d ==> 2 * t >= e) by (nonlinear_arith)
            requires
                r * e <= t * d,
                d > 0,
                e > 0,
        ;
        assert(2 * r > d ==> 2 * t > e) by (nonlinear_arith)
            requires
                r * e <= t * d,
                d > 0,
                e > 0,
        ;
    }
}

/// Rounding never reverses an order.
pub proof fn lemma_round_monotone(n: nat, d: nat, p: nat, e: nat)
    requires
        d > 0,
        e > 0,
        n * e <= p * d,
    ensures
        round_low(n, d) <= round_low(p, e),
{
    reveal(round_low);
    lemma_nearest_monotone(n, d, p, e);
    let (q, s) = (n / d, p / e);
    let (x, y) = (excess(q), excess(s));
    lemma2_to64();
    lemma2_to64_rest();
    if s > 0 {
        lemma_bit_len_bounds(s);
        if q > 0 {
            lemma_bit_len_bounds(q);
            if bit_len(q) > bit_len(s) {
                lemma_pow2_le(bit_len(s), (bit_len(q) - 1) as nat);
            }
        }
    }
    assert(x <= y);
    let (u, v) = (pow2(x), pow2(y));
    lemma_pow2_pos(x);
    lemma_pow2_pos(y);
    assert(d * u > 0 && e * v > 0) by (nonlinear_arith)
        requires
            d > 0,
            e > 0,
            u > 0,
            v > 0,
    ;
    if x == y {
        assert(n * (e * u) <= p * (d * u)) by (nonlinear_arith)
            requires
                n * e <= p * d,
                u > 0,
        ;
        lemma_nearest_monotone(n, d * u, p, e * u);
    } else {
        // The first is at most `2^53` of its steps, the second at least `2^52` of its.
        lemma_fundamental_div_mod(n as int, d as int);
        lemma_fundamental_div_mod(p as int, e as int);
        lemma_bit_len_lt(q, 53 + x);
        lemma_pow2_adds(53, x);
        lemma_pow2_adds(52, y);
        assert(bit_len(q) <= 53 + x);
        assert(bit_len(s) == 53 + y);
        let top = (2 * BINADE) as nat;
        assert(n * 1 <= top * (d * u)) by (nonlinear_arith)
            requires
                n == d * q + n % d,
                n % d < d,
                q + 1 <= top * u,
                d > 0,
        ;
        lemma_nearest_monotone(n, d * u, top, 1);
        lemma_nearest_exact(top, 1);
        let base = BINADE as nat;
        assert(base * (e * v) <= p * 1) by (nonlinear_arith)
            requires
                p >= e * s,
                s >= base * v,
                e > 0,
        ;
        lemma_nearest_monotone(base, 1, p, e * v);
        lemma_nearest_exact(base, 1);
    }
}

pub proof fn lemma_round_bounded(n: nat, d: nat)
    ensures
        round_low(n, d) <= INF_LOW,
{
    reveal(round_low);
}

/// What an encoding of `m` units of `2^x` stands for, where `m` has the digits
/// that a double has room for.
pub proof fn lemma_encoded(x: nat, m: nat)
    requires
        m <= 2 * BINADE,
        x > 0 ==> m >= BINADE,
    ensures
        mag_of(x * BINADE as nat + m) == m * pow2(x),
{
    let b = BINADE as int;
    let low = (x * BINADE as nat + m) as int;
    lemma_pow2_unfold(x + 1);
    if m < BINADE {
        assert(x == 0);
        assert(low == m);
        lemma_fundamental_div_mod_converse(low, b, 0, m as int);
        lemma2_to64();
        assert(m * pow2(x) == m) by (nonlinear_arith)
            requires
                pow2(x) == 1,
        ;
    } else if m < 2 * BINADE {
        assert(low == (x + 1) * b + (m - b)) by (nonlinear_arith)
            requires
                low == x * b + m,
        ;
        lemma_fundamental_div_mod_converse(low, b, x as int + 1, m - b);
    } else {
        assert(low == (x + 2) * b + 0) by (nonlinear_arith)
            requires
                low == x * b + m,
                m == 2 * b,
        ;
        lemma_fundamental_div_mod_converse(low, b, x as int + 2, 0);
        assert(b * pow2(x + 1) == m * pow2(x)) by (nonlinear_arith)
            requires
                m == 2 * b,
                pow2(x + 1) == 2 * pow2(x),
        ;
    }
}

/// The nearest whole number is at most half away.
proof fn lemma_nearest_is_near(n: nat, d: nat)
    requires
        d > 0,
    ensures
        2 * (nearest(n, d) * d) <= 2 * n + d,
        2 * n <= 2 * (nearest(n, d) * d) + d,
{
    let (q, r) = (n / d, n % d);
    lemma_fundamental_div_mod(n as int, d as int);
    assert(q * d == d * q && (q + 1) * d == d * q + d) by (nonlinear_arith);
}

/// A rounded magnitude is within half of the last digit's place.
pub proof fn lemma_round_is_near(n: nat, d: nat)
    requires
        d > 0,
    ensures
        ({
            let place = d * pow2(excess(n / d));
            let mag = mag_of(round_low(n, d));
            &&& 2 * (mag * d) <= 2 * n + place
            &&& round_low(n, d) < INF_LOW ==> 2 * n <= 2 * (mag * d) + place
            &&& excess(n / d) > 0 ==> place * BINADE <= n
        }),
{
    reveal(round_low);
    let q = n / d;
    let x = excess(q);
    let place = d * pow2(x);
    let m = nearest(n, place);
    lemma_pow2_pos(x);
    lemma2_to64();
    lemma2_to64_rest();
    lemma_fundamental_div_mod(n as int, d as int);
    assert(place > 0) by (nonlinear_arith)
        requires
            d > 0,
            pow2(x) > 0,
            place == d * pow2(x),
    ;
    // The digits fit: n is less than 2^53 places, and at least 2^52 if any
    // digit is cut.
    lemma_bit_len_lt(q, x + 53);
    lemma_pow2_adds(x, 53);
    lemma_pow2_adds(x, 52);
    let top = pow2(x) * (2 * BINADE as nat);
    assert(d * (q + 1) <= d * top) by (nonlinear_arith)
        requires
            q + 1 <= top,
    ;
    assert(d * (q + 1) == d * q + d && d * top == place * (2 * BINADE)) by (nonlinear_arith)
        requires
            top == pow2(x) * (2 * BINADE as nat),
            place == d * pow2(x),
    ;
    lemma_nearest_exact(2 * BINADE as nat, place);
    assert(n * place <= ((2 * BINADE as nat) * place) * place) by (nonlinear_arith)
        requires
            n <= place * (2 * BINADE),
            place > 0,
    ;
    lemma_nearest_monotone(n, place, (2 * BINADE as nat) * place, place);
    if x > 0 {
        lemma_bit_len_bounds(q);
        assert(place * BINADE <= n) by (nonlinear_arith)
            requires
                n == d * q + n % d,
                q >= pow2(x) * BINADE,
                place == d * pow2(x),
        ;
        lemma_nearest_exact(BINADE as nat, place);
        assert((BINADE as nat * place) * place <= n * place) by (nonlinear_arith)
            requires
                place * BINADE <= n,
                place > 0,
        ;
        lemma_nearest_monotone(BINADE as nat * place, place, n, place);
    }
    lemma_encoded(x, m);
    lemma_nearest_is_near(n, place);
    assert((m * pow2(x)) * d == m * place) by (nonlinear_arith)
        requires
            place == d * pow2(x),
    ;
    let low = x * BINADE as nat + m;
    if low >= INF_LOW {
        lemma_mag_ordered(INF_LOW as nat, low);
        assert(mag_of(INF_LOW as nat) * d <= mag_of(low) * d) by (nonlinear_arith)
            requires
                mag_of(INF_LOW as nat) <= mag_of(low),
        ;
    }
}

/// A rounded magnitude is off by no more than a part in `2^16`, give or take
/// one unit. Infinity is never more than that above, either.
pub proof fn lemma_round_close(n: nat, d: nat)
    requires
        d > 0,
    ensures
        0x1_0000 * (mag_of(round_low(n, d)) * d) <= 0x1_0001 * n + 0x1_0000 * d,
        round_low(n, d) < INF_LOW ==> 0xFFFF * n <= 0x1_0000 * (mag_of(round_low(n, d)) * d) + 0x1_0000 * d,
{
    lemma_round_is_near(n, d);
    lemma2_to64();
    let place = d * pow2(excess(n / d));
    if excess(n / d) == 0 {
        assert(place == d) by (nonlinear_arith)
            requires
                place == d * pow2(0),
                pow2(0) == 1,
        ;
    } else {
        assert(0x1_0000 * place <= n) by (nonlinear_arith)
            requires
                place * BINADE <= n,
        ;
    }
}

/// A number of few enough binary digits is a double.
pub proof fn lemma_short_is_double(k: nat, x: nat)
    requires
        k < 0x20_0000_0000_0000,
        52 <= x <= 1900,
    ensures
        round_low(k * pow2(x), 1) < INF_LOW,
        mag_of(round_low(k * pow2(x), 1)) == k * pow2(x),
{
    lemma2_to64_rest();
    if k == 0 {
        lemma_round_exact(0);
        assert(0 * pow2(x) == 0);
    } else {
        lemma_bit_len_bounds(k);
        lemma_bit_len_lt(k, 53);
        let len = bit_len(k);
        let s = (53 - len) as nat;
        let w = pow2(s);
        let y = (x - s) as nat;
        lemma_pow2_adds(s, y);
        lemma_pow2_adds(s, len);
        lemma_pow2_adds(s, (len - 1) as nat);
        lemma_pow2_pos(s);
        let (hi, lo) = (pow2(len), pow2((len - 1) as nat));
        let m = k * w;
        assert(w * lo <= m < w * hi) by (nonlinear_arith)
            requires
                lo <= k < hi,
                w > 0,
                m == k * w,
        ;
        assert(k * (w * pow2(y)) == m * pow2(y)) by (nonlinear_arith)
            requires
                m == k * w,
        ;
        let low = ((y + 1) * BINADE + (m - BINADE)) as nat;
        lemma_fundamental_div_mod_converse(low as int, BINADE as int, (y + 1) as int, m - BINADE);
        assert(mag_of(low) == k * pow2(x));
        lemma_round_exact(low);
    }
}

/// Rounding whole units never reverses an order.
pub proof fn lemma_round_units_monotone(v: int, w: int)
    requires
        v <= w,
    ensures
        !round_units(v).nan(),
        !round_units(w).nan(),
        round_units(v).val() <= round_units(w).val(),
{
    let a = round_low(if v < 0 { (-v) as nat } else { v as nat }, 1);
    let b = round_low(if w < 0 { (-w) as nat } else { w as nat }, 1);
    lemma_round_bounded(if v < 0 { (-v) as nat } else { v as nat }, 1);
    lemma_round_bounded(if w < 0 { (-w) as nat } else { w as nat }, 1);
    lemma_mag_ordered(a, b);
    if v >= 0 {
        lemma_round_monotone(v as nat, 1, w as nat, 1);
    } else if w < 0 {
        lemma_round_monotone((-w) as nat, 1, (-v) as nat, 1);
        lemma_mag_ordered(b, a);
    }
}

/// A number's own units round to the number.
pub proof fn lemma_round_units_exact(a: Double)
    requires
        !a.nan(),
    ensures
        round_units(a.val()).val() == a.val(),
        a.val() != 0 ==> round_units(a.val()) == a,
{
    lemma_round_exact(a.low());
    lemma_mag_ordered(0, a.low());
    if a.val() == 0 {
        lemma_round_exact(0);
    }
}

/// The double nearest to an integer is a number.
pub proof fn lemma_int_double_number(v: int)
    ensures
        !int_double(v).nan(),
{
    lemma_round_units_monotone(v * one_unit(), v * one_unit());
}

/// An integer of at most 53 binary digits is a double itself.
pub proof fn lemma_int_double_exact(v: int)
    requires
        -0x20_0000_0000_0000 <= v <= 0x20_0000_0000_0000,
    ensures
        int_double(v).finite(),
        int_double(v).val() == v * one_unit(),
        int_double(v).neg() <==> v < 0,
{
    let n: nat = if v < 0 {
        (-v) as nat
    } else {
        v as nat
    };
    lemma2_to64();
    lemma2_to64_rest();
    lemma_pow2_pos(UNIT_EXP as nat);
    if n == 0 {
        lemma_round_zero(1);
        assert(0 * one_unit() == 0);
    } else {
        lemma_bit_len_bounds(n);
        lemma_bit_len_lt(n, 54);
        let len = bit_len(n);
        assert(len <= 54);
        // n * 2^1074 == m * 2^k with m of 53 digits.
        let (m, x): (nat, nat) = if len <= 53 {
            (n * pow2((53 - len) as nat), (UNIT_EXP - (53 - len)) as nat)
        } else {
            (n / 2, (UNIT_EXP + 1) as nat)
        };
        if len <= 53 {
            let w = pow2((53 - len) as nat);
            lemma_pow2_adds((53 - len) as nat, x);
            lemma_pow2_adds((53 - len) as nat, len);
            lemma_pow2_adds((53 - len) as nat, (len - 1) as nat);
            lemma_pow2_pos((53 - len) as nat);
            let (hi, lo) = (pow2(len), pow2((len - 1) as nat));
            assert(w * lo <= n * w < w * hi) by (nonlinear_arith)
                requires
                    lo <= n < hi,
                    w > 0,
            ;
            assert(n * (w * pow2(x)) == (n * w) * pow2(x)) by (nonlinear_arith);
        } else {
            assert(n == 0x20_0000_0000_0000);
            lemma_pow2_unfold((UNIT_EXP + 1) as nat);
            assert(n * one_unit() == m * pow2(x)) by (nonlinear_arith)
                requires
                    n == 2 * m,
                    pow2(x) == 2 * one_unit(),
            ;
        }
        assert(BINADE <= m < 2 * BINADE);
        assert(n * one_unit() == m * pow2(x));
        let low = ((x + 1) * BINADE + (m - BINADE)) as nat;
        lemma_fundamental_div_mod_converse(low as int, BINADE as int, (x + 1) as int, m - BINADE);
        assert(mag_of(low) == n * one_unit());
        lemma_round_exact(low);
        lemma_mag_ordered(0, low);
        if v < 0 {
            assert(v * one_unit() < 0 && -(v * one_unit()) == n * one_unit()) by (nonlinear_arith)
                requires
                    v < 0,
                    n == -v,
                    one_unit() > 0,
            ;
        } else {
            assert(v * one_unit() == n * one_unit());
            assert(n * one_unit() >= 0) by (nonlinear_arith);
        }
    }
}

/// Addition is commutative.
pub proof fn lemma_sum_commutes(a: Double, b: Double)
    ensures
        sum(a, b) == sum(b, a),
{
    reveal(sum);
    lemma_mag_ordered(a.low(), b.low());
    if !a.nan() && !b.nan() && !a.finite() && !b.finite() {
        assert(a.low() == INF_LOW && b.low() == INF_LOW);
    }
}

/// The value of a sum is the exact sum, rounded.
pub proof fn lemma_sum_val(a: Double, b: Double)
    requires
        a.finite(),
        b.finite(),
    ensures
        !sum(a, b).nan(),
        sum(a, b).val() == round_units(a.val() + b.val()).val(),
{
    reveal(sum);
    if a.val() + b.val() == 0 {
        lemma_round_zero(1);
        lemma_mag_ordered(0, 0);
    } else {
        lemma_round_units_monotone(a.val() + b.val(), a.val() + b.val());
    }
}

/// Adding a number that is not negative never makes less.
pub proof fn lemma_sum_grows(a: Double, b: Double)
    requires
        a.finite(),
        b.finite(),
        b.val() >= 0,
    ensures
        le(a, sum(a, b)),
{
    lemma_sum_val(a, b);
    lemma_round_units_monotone(a.val(), a.val() + b.val());
    lemma_round_units_exact(a);
}

/// Adding the same number to both sides keeps their order.
pub proof fn lemma_sum_monotone(a: Double, b: Double, c: Double)
    requires
        a.finite(),
        b.finite(),
        c.finite(),
        a.val() <= b.val(),
    ensures
        le(sum(a, c), sum(b, c)),
{
    lemma_sum_val(a, c);
    lemma_sum_val(b, c);
    lemma_round_units_monotone(a.val() + c.val(), b.val() + c.val());
}

/// Multiplication is commutative.
pub proof fn lemma_prod_commutes(a: Double, b: Double)
    ensures
        prod(a, b) == prod(b, a),
{
    reveal(prod);
    assert(a.mag() * b.mag() == b.mag() * a.mag()) by (nonlinear_arith);
}

/// A quotient of two numbers that are not negative is not negative.
pub proof fn lemma_quot_sign(a: Double, b: Double)
    requires
        a.finite(),
        b.finite(),
        !a.neg(),
        !b.neg(),
        b.val() > 0,
    ensures
        !quot(a, b).nan(),
        !quot(a, b).neg(),
{
    reveal(quot);
    lemma_round_bounded(a.mag() * one_unit(), b.mag());
}

/// A sum of two numbers that are not negative is not negative.
pub proof fn lemma_sum_sign(a: Double, b: Double)
    requires
        !a.nan(),
        !b.nan(),
        !a.neg(),
        !b.neg(),
    ensures
        !sum(a, b).nan(),
        !sum(a, b).neg(),
{
    reveal(sum);
    if a.finite() && b.finite() {
        lemma_round_bounded((a.val() + b.val()) as nat, 1);
    }
}

/// Dividing by a positive number keeps an order.
pub proof fn lemma_quot_monotone(a: Double, b: Double, d: Double)
    requires
        a.finite(),
        b.finite(),
        d.finite(),
        !a.neg(),
        !b.neg(),
        !d.neg(),
        a.val() <= b.val(),
        d.val() > 0,
    ensures
        le(quot(a, d), quot(b, d)),
{
    lemma_quot_sign(a, d);
    lemma_quot_sign(b, d);
    let (p, q, m) = (a.mag() * one_unit(), b.mag() * one_unit(), d.mag());
    assert(p * m <= q * m) by (nonlinear_arith)
        requires
            p == a.mag() * one_unit(),
            q == b.mag() * one_unit(),
            a.mag() <= b.mag(),
    ;
    lemma_round_monotone(p, m, q, m);
    lemma_round_bounded(p, m);
    lemma_round_bounded(q, m);
    lemma_round_zero(m);
    assert(0 * one_unit() == 0);
    reveal(quot);
    lemma_mag_ordered(round_low(p, m), round_low(q, m));
    lemma_mag_ordered(0, round_low(q, m));
}

/// A fraction of small integers, up to one, is a positive number up to one.
pub proof fn lemma_fraction(n: int, d: int)
    requires
        0 < n <= d <= 0x20_0000_0000_0000,
    ensures
        !ratio(n, d).nan(),
        ratio(n, d).finite(),
        0 < ratio(n, d).val() <= one_unit(),
{
    reveal(quot);
    lemma_int_double_exact(n);
    lemma_int_double_exact(d);
    lemma_int_double_exact(1);
    lemma2_to64();
    lemma2_to64_rest();
    lemma_pow2_le(64, UNIT_EXP as nat);
    let u = one_unit();
    let (top, bottom) = (int_double(n).mag() * u, int_double(d).mag());
    assert(n * u > 0 && d * u > 0) by (nonlinear_arith)
        requires
            n > 0,
            d > 0,
            u > 0,
    ;
    assert(int_double(n).mag() == n * u && bottom == d * u);
    assert(top * 1 <= u * bottom) by (nonlinear_arith)
        requires
            top == (n * u) * u,
            bottom == d * u,
            0 < n <= d,
            u > 0,
    ;
    assert(1 * bottom <= top * 1) by (nonlinear_arith)
        requires
            top == (n * u) * u,
            bottom == d * u,
            0 < n,
            0 < d <= u,
    ;
    lemma_round_monotone(top, bottom, u, 1);
    lemma_round_monotone(1, 1, top, bottom);
    lemma_round_exact(1);
    assert(mag_of(1) == 1) by {
        lemma2_to64();
    }
    lemma_round_bounded(top, bottom);
    let low = round_low(top, bottom);
    assert(1 * u == u);
    lemma_round_bounded(u, 1);
    assert(int_double(1).low() == round_low(u, 1));
    lemma_mag_ordered(low, round_low(u, 1));
    lemma_mag_ordered(0, low);
}

} // verus!
