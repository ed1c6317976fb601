//! How near the results of arithmetic are to the exact ones. Values are counted
//! in units of `2^-1074`, products of two values in units of its square, so that
//! everything is said in whole numbers.
use crate::arith_laws::{
    lemma_int_double_exact, lemma_round_bounded, lemma_round_exact, lemma_round_is_near, lemma_round_monotone,
    lemma_round_units_exact, lemma_sum_val,
};
use crate::double::{
    diff, lemma_mag_ordered, one_unit, opposite, prod, quot, round_units, signed, sum, Double, UNIT_EXP,
};
use crate::preset_laws::gap;
use crate::rounding::{excess, lemma_round_scale, lemma_round_zero, mag_of, round_low, BINADE};
use crate::whole::int_double;
use vstd::arithmetic::power2::*;
use vstd::prelude::*;

verus! {

/// Whether `a` is `b`, up to one part in `2^50` of `b` and a slack.
pub open spec fn about(a: int, b: int, slack: int) -> bool {
    0x4_0000_0000_0000 * gap(a, b) <= gap(b, 0) + 0x4_0000_0000_0000 * slack
}

/// The product of two values as far as a sign goes.
pub proof fn lemma_gap_of_product(a: int, b: int)
    ensures
        gap(a * b, 0) == gap(a, 0) * gap(b, 0),
{
    assert(gap(a * b, 0) == gap(a, 0) * gap(b, 0)) by (nonlinear_arith);
}

/// A gap scales with its ends.
pub proof fn lemma_gap_scales(a: int, b: int, c: int)
    ensures
        gap(a * c, b * c) == gap(a, b) * gap(c, 0),
        gap(c * a, c * b) == gap(a, b) * gap(c, 0),
{
    assert(a * c - b * c == (a - b) * c && c * a == a * c && c * b == b * c) by (nonlinear_arith);
    lemma_gap_of_product(a - b, c);
    assert(gap(a * c, b * c) == gap((a - b) * c, 0));
    assert(gap(a, b) == gap(a - b, 0));
}

/// A sum is off by half of its last digit at most.
pub proof fn lemma_sum_near(a: Double, b: Double)
    requires
        a.finite(),
        b.finite(),
        sum(a, b).finite(),
    ensures
        0x20_0000_0000_0000 * gap(sum(a, b).val(), a.val() + b.val()) <= gap(a.val() + b.val(), 0),
{
    let v = a.val() + b.val();
    let n = gap(v, 0) as nat;
    lemma_sum_val(a, b);
    lemma_round_is_near(n, 1);
    lemma_round_bounded(n, 1);
    lemma2_to64();
    assert(n / 1 == n);
    let low = round_low(n, 1);
    let r = round_units(v);
    assert(r.low() == low);
    assert(r.val() == if v < 0 {
        -(mag_of(low) as int)
    } else {
        mag_of(low) as int
    });
    lemma_mag_ordered(sum(a, b).low(), low);
    if excess(n) == 0 {
        assert(pow2(0) == 1);
    }
}

/// A difference is off by half of its last digit at most.
pub proof fn lemma_diff_near(a: Double, b: Double)
    requires
        a.finite(),
        b.finite(),
        diff(a, b).finite(),
    ensures
        0x20_0000_0000_0000 * gap(diff(a, b).val(), a.val() - b.val()) <= gap(a.val() - b.val(), 0),
{
    assert(opposite(b).val() == -b.val());
    lemma_sum_near(a, opposite(b));
}

proof fn lemma_half_place(off: int, place: int, n: int, least: int)
    requires
        2 * off <= place,
        0x10_0000_0000_0000 * place <= n + 0x10_0000_0000_0000 * least,
    ensures
        0x20_0000_0000_0000 * off <= n + 0x10_0000_0000_0000 * least,
{
    assert(0x20_0000_0000_0000 * off <= 0x10_0000_0000_0000 * place) by (nonlinear_arith)
        requires
            2 * off <= place,
    ;
}

/// A product is off by half of its last digit at most, or half of the least
/// double.
pub proof fn lemma_prod_near(a: Double, b: Double)
    requires
        a.finite(),
        b.finite(),
        prod(a, b).finite(),
    ensures
        0x20_0000_0000_0000 * gap(prod(a, b).val() * one_unit(), a.val() * b.val()) <= gap(a.val() * b.val(), 0) + 0x10_0000_0000_0000 * one_unit(),
        prod(a, b).neg() == (a.neg() != b.neg()),
{
    let u = one_unit();
    let n = a.mag() * b.mag();
    let p = prod(a, b);
    lemma_pow2_pos(UNIT_EXP as nat);
    lemma2_to64();
    lemma_round_is_near(n, u);
    lemma_round_bounded(n, u);
    assert(p == signed(a.neg() != b.neg(), round_low(n, u))) by {
        reveal(prod);
    }
    let place = u * pow2(excess(n / u));
    if excess(n / u) == 0 {
        assert(place == u) by (nonlinear_arith)
            requires
                place == u * pow2(0),
                pow2(0) == 1,
        ;
    }
    let (m, v) = (p.mag() as int, a.val() * b.val());
    assert(m == mag_of(round_low(n, u)));
    assert(0x10_0000_0000_0000 * place <= n + 0x10_0000_0000_0000 * u);
    assert(2 * gap(m * u, n as int) <= place);
    lemma_half_place(gap(m * u, n as int), place as int, n as int, u as int);
    assert(gap(v, 0) == n && (v == n || v == -n)) by {
        lemma_gap_of_product(a.val(), b.val());
    }
    if a.neg() != b.neg() {
        assert(v == -n) by (nonlinear_arith)
            requires
                v == a.val() * b.val(),
                a.val() == if a.neg() { -(a.mag() as int) } else { a.mag() as int },
                b.val() == if b.neg() { -(b.mag() as int) } else { b.mag() as int },
                n == a.mag() * b.mag(),
                a.neg() != b.neg(),
        ;
        assert((-m) * u == -(m * u)) by (nonlinear_arith);
    } else {
        assert(v == n) by (nonlinear_arith)
            requires
                v == a.val() * b.val(),
                a.val() == if a.neg() { -(a.mag() as int) } else { a.mag() as int },
                b.val() == if b.neg() { -(b.mag() as int) } else { b.mag() as int },
                n == a.mag() * b.mag(),
                a.neg() == b.neg(),
        ;
    }
}

/// A quotient is off by half of its last digit at most, or half of the least
/// double.
pub proof fn lemma_quot_near(a: Double, b: Double)
    requires
        a.finite(),
        b.finite(),
        b.val() != 0,
        quot(a, b).finite(),
    ensures
        0x20_0000_0000_0000 * gap(quot(a, b).val() * b.val(), a.val() * one_unit()) <= gap(a.val() * one_unit(), 0) + 0x10_0000_0000_0000 * gap(b.val(), 0),
        quot(a, b).neg() == (a.neg() != b.neg()),
{
    let u = one_unit();
    let (n, d) = (a.mag() * u, b.mag());
    let q = quot(a, b);
    lemma_pow2_pos(UNIT_EXP as nat);
    lemma2_to64();
    lemma_round_is_near(n, d);
    lemma_round_bounded(n, d);
    lemma_round_zero(d);
    assert(a.mag() == 0 ==> n == 0) by (nonlinear_arith)
        requires
            n == a.mag() * u,
    ;
    assert(q == signed(a.neg() != b.neg(), round_low(n, d))) by {
        reveal(quot);
    }
    let place = d * pow2(excess(n / d));
    if excess(n / d) == 0 {
        assert(place == d) by (nonlinear_arith)
            requires
                place == d * pow2(0),
                pow2(0) == 1,
        ;
    }
    let (m, x, y) = (q.mag() as int, q.val() * b.val(), a.val() * u);
    assert(m == mag_of(round_low(n, d)));
    assert(0x10_0000_0000_0000 * place <= n + 0x10_0000_0000_0000 * d);
    assert(2 * gap(m * d, n as int) <= place);
    lemma_half_place(gap(m * d, n as int), place as int, n as int, d as int);
    lemma_gap_of_product(a.val(), u as int);
    assert(gap(y, 0) == n);
    if a.neg() {
        assert(y == -n && x == -(m * d)) by (nonlinear_arith)
            requires
                y == a.val() * u,
                x == q.val() * b.val(),
                a.val() == -(a.mag() as int),
                n == a.mag() * u,
                b.neg() ==> b.val() == -(d as int) && q.val() == m,
                !b.neg() ==> b.val() == d && q.val() == -m,
        ;
    } else {
        assert(y == n && x == m * d) by (nonlinear_arith)
            requires
                y == a.val() * u,
                x == q.val() * b.val(),
                a.val() == a.mag(),
                n == a.mag() * u,
                b.neg() ==> b.val() == -(d as int) && q.val() == -m,
                !b.neg() ==> b.val() == d && q.val() == m,
        ;
    }
}

/// A number times one is the number.
pub proof fn lemma_times_one(a: Double)
    requires
        !a.nan(),
    ensures
        prod(a, int_double(1)) == a,
        prod(int_double(1), a) == a,
        quot(a, int_double(1)) == a,
{
    let u = one_unit();
    lemma_int_double_exact(1);
    lemma_pow2_pos(UNIT_EXP as nat);
    lemma_round_scale(a.mag(), 1, u);
    lemma_round_exact(a.low());
    lemma_round_zero(u);
    lemma_mag_ordered(0, a.low());
    assert(u * a.mag() == a.mag() * u) by (nonlinear_arith);
    assert(mag_of(0) == 0) by {
        assert(0nat / BINADE as nat == 0);
    }
    assert(1 * u == u);
    assert(prod(a, int_double(1)) == a && prod(int_double(1), a) == a) by {
        reveal(prod);
    }
    assert(quot(a, int_double(1)) == a) by {
        reveal(quot);
    }
}

/// A number times nothing is nothing.
pub proof fn lemma_times_zero(a: Double, z: Double)
    requires
        a.finite(),
        z.finite(),
        z.val() == 0,
    ensures
        prod(a, z).finite(),
        prod(a, z).val() == 0,
        prod(z, a).finite(),
        prod(z, a).val() == 0,
{
    let u = one_unit();
    lemma_pow2_pos(UNIT_EXP as nat);
    lemma_round_zero(u);
    assert(mag_of(0) == 0) by {
        assert(0nat / BINADE as nat == 0);
    }
    assert(z.mag() == 0);
    assert(a.mag() * z.mag() == 0 && z.mag() * a.mag() == 0) by (nonlinear_arith)
        requires
            z.mag() == 0,
    ;
    reveal(prod);
}

/// A number and nothing come to the number.
pub proof fn lemma_plus_zero(a: Double, z: Double)
    requires
        a.finite(),
        z.finite(),
        z.val() == 0,
    ensures
        sum(a, z).finite(),
        sum(a, z).val() == a.val(),
        sum(z, a).finite(),
        sum(z, a).val() == a.val(),
        diff(a, z).finite(),
        diff(a, z).val() == a.val(),
        a.val() != 0 ==> sum(a, z) == a && sum(z, a) == a,
{
    assert(opposite(z).val() == 0 && opposite(z).finite());
    lemma_sum_val(a, z);
    lemma_sum_val(z, a);
    lemma_sum_val(a, opposite(z));
    lemma_round_units_exact(a);
    lemma_mag_ordered(sum(a, z).low(), a.low());
    lemma_mag_ordered(sum(z, a).low(), a.low());
    lemma_mag_ordered(diff(a, z).low(), a.low());
    if a.val() != 0 {
        reveal(sum);
    }
}

/// The double with the value of a finite one is that one, but for a zero's
/// sign.
pub proof fn lemma_same_value(a: Double, b: Double)
    requires
        !a.nan(),
        !b.nan(),
        a.val() == b.val(),
        a.val() != 0,
    ensures
        a == b,
{
    lemma_mag_ordered(a.low(), b.low());
    lemma_mag_ordered(0, a.low());
}

/// Exact results: where the exact sum is a double, it is the sum.
pub proof fn lemma_sum_exact(a: Double, b: Double, c: Double)
    requires
        a.finite(),
        b.finite(),
        c.finite(),
        a.val() + b.val() == c.val(),
    ensures
        sum(a, b).finite(),
        sum(a, b).val() == c.val(),
{
    lemma_sum_val(a, b);
    lemma_round_units_exact(c);
    lemma_mag_ordered(sum(a, b).low(), c.low());
}

/// A number over a whole one: times the whole one it is the number again.
#[verifier::rlimit(50)]
pub proof fn lemma_quot_by_int(a: Double, w: int)
    requires
        a.finite(),
        1 <= w <= 0x20_0000_0000_0000,
    ensures
        quot(a, int_double(w)).finite(),
        quot(a, int_double(w)).neg() == a.neg(),
        0x20_0000_0000_0000 * gap(quot(a, int_double(w)).val() * w, a.val()) <= gap(a.val(), 0) + 0x10_0000_0000_0000 * w,
        a.mag() <= w * one_unit() ==> quot(a, int_double(w)).mag() <= one_unit(),
        a.mag() >= w * one_unit() ==> quot(a, int_double(w)).mag() >= one_unit(),
{
    let (u, m) = (one_unit(), a.mag());
    let b = int_double(w);
    let q = quot(a, b);
    lemma_int_double_exact(w);
    lemma_int_double_exact(1);
    lemma_pow2_pos(UNIT_EXP as nat);
    let (n, d) = (m * u, (w * u) as nat);
    assert(d > 0 && n * 1 <= m * d) by (nonlinear_arith)
        requires
            n == m * u,
            d == w * u,
            w >= 1,
            u > 0,
    ;
    lemma_round_monotone(n, d, m, 1);
    lemma_round_exact(a.low());
    lemma_round_zero(d);
    assert(m == 0 ==> n == 0) by (nonlinear_arith)
        requires
            n == m * u,
    ;
    lemma_mag_ordered(0, a.low());
    assert(q == signed(a.neg(), round_low(n, d))) by {
        reveal(quot);
    }
    lemma_quot_near(a, b);
    let (x, y) = (q.val() * w, a.val());
    assert(q.val() * b.val() == x * u) by (nonlinear_arith)
        requires
            x == q.val() * w,
            b.val() == w * u,
    ;
    lemma_gap_scales(x, y, u as int);
    lemma_gap_of_product(y, u as int);
    assert(0x20_0000_0000_0000 * (gap(x, y) * u) <= gap(y, 0) * u + 0x10_0000_0000_0000 * (w * u));
    assert(0x20_0000_0000_0000 * gap(x, y) <= gap(y, 0) + 0x10_0000_0000_0000 * w) by (nonlinear_arith)
        requires
            0x20_0000_0000_0000 * (gap(x, y) * u) <= gap(y, 0) * u + 0x10_0000_0000_0000 * (w * u),
            u > 0,
    ;
    lemma_round_exact(int_double(1).low());
    lemma_mag_ordered(q.low(), int_double(1).low());
    if m <= w * u {
        assert(n * 1 <= u * d) by (nonlinear_arith)
            requires
                n == m * u,
                m <= d,
        ;
        lemma_round_monotone(n, d, u, 1);
    }
    if m >= w * u {
        assert(u * d <= n * 1) by (nonlinear_arith)
            requires
                n == m * u,
                m >= d,
        ;
        lemma_round_monotone(u, 1, n, d);
    }
}

/// Twice the half of a number is the number, up to the least double.
#[verifier::rlimit(50)]
pub proof fn lemma_half_near(a: Double)
    requires
        a.finite(),
    ensures
        quot(a, int_double(2)).finite(),
        quot(a, int_double(2)).neg() == a.neg(),
        gap(2 * quot(a, int_double(2)).val(), a.val()) <= 1,
        a.mag() >= 0x20_0000_0000_0000 ==> 2 * quot(a, int_double(2)).val() == a.val(),
{
    let (u, m) = (one_unit(), a.mag());
    let h = quot(a, int_double(2));
    lemma_quot_by_int(a, 2);
    lemma_int_double_exact(2);
    lemma_pow2_pos(UNIT_EXP as nat);
    lemma2_to64();
    lemma_round_scale(m, 2, u);
    lemma_round_zero((2 * u) as nat);
    lemma_mag_ordered(0, a.low());
    assert(m == 0 ==> m * u == 0) by (nonlinear_arith);
    assert(h.low() == round_low(m, 2)) by {
        reveal(quot);
        lemma_round_bounded(m * u, (2 * u) as nat);
    }
    let b = BINADE as nat;
    if a.low() >= 2 * b {
        let low = (a.low() - b) as nat;
        let e = a.low() / b;
        vstd::arithmetic::div_mod::lemma_fundamental_div_mod(a.low() as int, b as int);
        let f = a.low() % b;
        assert(e >= 2) by (nonlinear_arith)
            requires
                a.low() == b * e + f,
                a.low() >= 2 * b,
                f < b,
        ;
        assert(low == (e - 1) * b + f) by (nonlinear_arith)
            requires
                a.low() == b * e + f,
                low == a.low() - b,
        ;
        vstd::arithmetic::div_mod::lemma_fundamental_div_mod_converse(low as int, b as int, e - 1, f as int);
        lemma_pow2_unfold((e - 1) as nat);
        let k = (b + f) as nat;
        assert(m == k * pow2((e - 1) as nat));
        assert(mag_of(low) == k * pow2((e - 2) as nat));
        assert(m == 2 * mag_of(low)) by (nonlinear_arith)
            requires
                m == k * pow2((e - 1) as nat),
                mag_of(low) == k * pow2((e - 2) as nat),
                pow2((e - 1) as nat) == 2 * pow2((e - 2) as nat),
        ;
        lemma_round_scale(mag_of(low), 1, 2);
        lemma_round_exact(low);
    } else {
        // The magnitude has so few digits that half of it has room.
        lemma_round_is_near(m, 2);
        let place = 2 * pow2(excess(m / 2));
        crate::arith_laws::lemma_encoded(1, b);
        lemma_mag_ordered(a.low(), 2 * b);
        assert(mag_of(2 * b) == 2 * b);
        if excess(m / 2) > 0 {
            assert(place * BINADE <= m);
            lemma_pow2_unfold(excess(m / 2));
            lemma_pow2_pos((excess(m / 2) - 1) as nat);
            assert(false);
        }
        assert(place == 2);
    }
}

/// Multiplying by what is farther from zero leads farther from zero.
#[verifier::rlimit(50)]
pub proof fn lemma_prod_monotone(a: Double, b: Double, c: Double)
    requires
        a.finite(),
        b.finite(),
        c.finite(),
        b.mag() <= c.mag(),
    ensures
        !prod(a, b).nan(),
        !prod(a, c).nan(),
        prod(a, b).neg() == (a.neg() != b.neg()),
        prod(a, c).neg() == (a.neg() != c.neg()),
        prod(a, b).mag() <= prod(a, c).mag(),
        prod(a, c).finite() ==> prod(a, b).finite(),
{
    let u = one_unit();
    let (p, q) = (a.mag() * b.mag(), a.mag() * c.mag());
    lemma_pow2_pos(UNIT_EXP as nat);
    assert(p * u <= q * u) by (nonlinear_arith)
        requires
            p == a.mag() * b.mag(),
            q == a.mag() * c.mag(),
            b.mag() <= c.mag(),
            u > 0,
    ;
    lemma_round_monotone(p, u, q, u);
    lemma_round_bounded(p, u);
    lemma_round_bounded(q, u);
    lemma_mag_ordered(round_low(p, u), round_low(q, u));
    assert(prod(a, b) == signed(a.neg() != b.neg(), round_low(p, u))) by {
        reveal(prod);
    }
    assert(prod(a, c) == signed(a.neg() != c.neg(), round_low(q, u))) by {
        reveal(prod);
    }
}

/// What a number times a share comes to is the number at most.
pub proof fn lemma_prod_shrinks(a: Double, b: Double)
    requires
        a.finite(),
        b.finite(),
        b.mag() <= one_unit(),
    ensures
        prod(a, b).finite(),
        prod(a, b).neg() == (a.neg() != b.neg()),
        prod(a, b).mag() <= a.mag(),
{
    lemma_int_double_exact(1);
    lemma_times_one(a);
    lemma_prod_monotone(a, b, int_double(1));
}

/// What a number times one or more comes to is the number at least.
pub proof fn lemma_prod_stretches(a: Double, b: Double)
    requires
        a.finite(),
        b.finite(),
        b.val() >= one_unit(),
    ensures
        !prod(a, b).nan(),
        prod(a, b).neg() == a.neg(),
        prod(a, b).mag() >= a.mag(),
{
    lemma_pow2_pos(UNIT_EXP as nat);
    lemma_int_double_exact(1);
    lemma_times_one(a);
    lemma_prod_monotone(a, int_double(1), b);
}

/// A number times a whole one.
pub proof fn lemma_prod_by_int(a: Double, w: int)
    requires
        a.finite(),
        0 <= w <= 0x20_0000_0000_0000,
        prod(a, int_double(w)).finite(),
    ensures
        0x20_0000_0000_0000 * gap(prod(a, int_double(w)).val(), a.val() * w) <= gap(a.val() * w, 0)
            + 0x10_0000_0000_0000,
        prod(a, int_double(w)).neg() == a.neg(),
{
    let (u, b) = (one_unit() as int, int_double(w));
    let p = prod(a, b);
    lemma_int_double_exact(w);
    lemma_pow2_pos(UNIT_EXP as nat);
    lemma_prod_near(a, b);
    let exact = a.val() * w;
    assert(a.val() * b.val() == exact * u) by (nonlinear_arith)
        requires
            b.val() == w * u,
            exact == a.val() * w,
    ;
    lemma_gap_scales(p.val(), exact, u);
    lemma_gap_of_product(exact, u);
    assert(0x20_0000_0000_0000 * gap(p.val(), exact) <= gap(exact, 0) + 0x10_0000_0000_0000) by (nonlinear_arith)
        requires
            0x20_0000_0000_0000 * (gap(p.val(), exact) * u) <= gap(exact, 0) * u + 0x10_0000_0000_0000 * u,
            u > 0,
    ;
}

/// The middle of a stretch.
pub proof fn lemma_middle_near(start: Double, extent: Double)
    requires
        start.finite(),
        extent.finite(),
        sum(start, quot(extent, int_double(2))).finite(),
    ensures
        about(2 * sum(start, quot(extent, int_double(2))).val(), 2 * start.val() + extent.val(), 2),
{
    lemma_half_near(extent);
    lemma_sum_near(start, quot(extent, int_double(2)));
}

} // verus!
