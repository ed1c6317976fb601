//! What palettes promise: swatches that spread evenly around the color they
//! start from, or around its complement the more it is asked for.
use crate::arith_laws::{
    lemma_fraction, lemma_int_double_exact, lemma_prod_commutes, lemma_round_units_exact, lemma_round_units_monotone,
    lemma_short_is_double, lemma_sum_val,
};
use crate::double::{diff, lemma_mag_ordered, one_unit, opposite, prod, signed, sum, Double, UNIT_EXP};
use crate::model::background::ColorStrategy;
use crate::model::geometry::pi;
use crate::near_laws::{
    lemma_diff_near, lemma_gap_of_product, lemma_gap_scales, lemma_plus_zero, lemma_prod_monotone, lemma_prod_near,
    lemma_prod_shrinks, lemma_quot_by_int, lemma_same_value, lemma_sum_near, lemma_times_one, lemma_times_zero,
};
use crate::order::{le, within};
use crate::palette::{hue_band, inverted, lightness_band, palette_of, share, swatch_place, Oklch};
use crate::preset_laws::gap;
use crate::rounding::{lemma_round_scale, round_low};
use crate::turn_laws::lemma_turns;
use crate::whole::{int_double, ratio};
use vstd::arithmetic::power2::*;
use vstd::prelude::*;

verus! {

/// A sum of small numbers is finite.
pub proof fn lemma_small_sum(a: Double, b: Double)
    requires
        a.finite(),
        b.finite(),
        -0x10_0000 * one_unit() <= a.val() + b.val() <= 0x10_0000 * one_unit(),
    ensures
        sum(a, b).finite(),
{
    let n = int_double(0x10_0000);
    lemma_int_double_exact(0x10_0000);
    lemma_int_double_exact(-0x10_0000);
    lemma_sum_val(a, b);
    lemma_round_units_monotone(-0x10_0000 * one_unit(), a.val() + b.val());
    lemma_round_units_monotone(a.val() + b.val(), 0x10_0000 * one_unit() as int);
    lemma_round_units_exact(n);
    lemma_round_units_exact(int_double(-0x10_0000));
    lemma_mag_ordered(sum(a, b).low(), n.low());
}

/// A product of moderate numbers is finite.
pub proof fn lemma_small_product(a: Double, b: Double)
    requires
        a.finite(),
        b.finite(),
        a.mag() <= 0x1_0000_0000 * one_unit(),
        b.mag() <= 0x1_0000_0000 * one_unit(),
    ensures
        prod(a, b).finite(),
        prod(b, a).finite(),
{
    let n = int_double(0x1_0000_0000);
    lemma_int_double_exact(0x1_0000_0000);
    lemma_prod_monotone(n, b, n);
    lemma_prod_monotone(b, a, n);
    lemma_prod_commutes(n, b);
    lemma_prod_commutes(a, b);
    lemma_big_square();
}

proof fn lemma_big_square()
    ensures
        prod(int_double(0x1_0000_0000), int_double(0x1_0000_0000)).finite(),
{
    let (n, u) = (int_double(0x1_0000_0000), one_unit());
    lemma_int_double_exact(0x1_0000_0000);
    lemma_pow2_pos(UNIT_EXP as nat);
    lemma2_to64();
    lemma2_to64_rest();
    let k = 0x1_0000_0000_0000_0000nat;
    assert((0x1_0000_0000 * u) * (0x1_0000_0000 * u) == (k * u) * u) by (nonlinear_arith)
        requires
            k == 0x1_0000_0000_0000_0000,
    ;
    lemma_round_scale(k * u, 1, u);
    lemma_short_is_double(1, (UNIT_EXP + 64) as nat);
    lemma_pow2_adds(UNIT_EXP as nat, 64);
    assert(k * u == 1 * pow2((UNIT_EXP + 64) as nat)) by (nonlinear_arith)
        requires
            k == pow2(64),
            u * pow2(64) == pow2((UNIT_EXP + 64) as nat),
    ;
    assert(prod(n, n) == signed(false, round_low(k * u, 1))) by {
        reveal(prod);
    }
}

/// A fraction of whole numbers is what it says: times its denominator it is the
/// numerator.
pub proof fn lemma_ratio_near(n: int, d: int)
    requires
        0 <= n <= 0x10_0000,
        1 <= d <= 0x10_0000,
    ensures
        ratio(n, d).finite(),
        !ratio(n, d).neg(),
        0x20_0000_0000_0000 * gap(ratio(n, d).val() * d, n * one_unit()) <= n * one_unit() + 0x10_0000_0000_0000 * d,
{
    lemma_int_double_exact(n);
    lemma_pow2_pos(UNIT_EXP as nat);
    lemma_quot_by_int(int_double(n), d);
    assert(n * one_unit() >= 0) by (nonlinear_arith)
        requires
            n >= 0,
    ;
}

/// Four swatches lie evenly between minus a half and a half.
proof fn lemma_places(i: int)
    requires
        0 <= i < 4,
    ensures
        swatch_place(i, 4).finite(),
        0x20_0000_0000_0000 * gap(6 * swatch_place(i, 4).val(), (2 * i - 3) * one_unit()) <= 64 * one_unit(),
        gap(swatch_place(i, 4).val(), 0) <= one_unit(),
{
    let u = one_unit() as int;
    let (q, h) = (ratio(i, 3), ratio(5, 10));
    lemma2_to64();
    lemma2_to64_rest();
    crate::rounding::lemma_pow2_le(64, UNIT_EXP as nat);
    lemma_ratio_near(i, 3);
    lemma_ratio_near(5, 10);
    assert(opposite(h).val() == -h.val() && opposite(h).finite());
    let iu = i * u;
    assert(0 <= iu <= 3 * u && (2 * i - 3) * u == 2 * iu - 3 * u) by (nonlinear_arith)
        requires
            iu == i * u,
            0 <= i < 4,
            u > 0,
    ;
    lemma_small_sum(q, opposite(h));
    lemma_diff_near(q, h);
}

/// Whether a lightness is that of the `i`th of four swatches which spread over
/// so many hundredths around a middle, counted in squares of a unit: on its
/// place up to rounding, or at an end of the range that it would leave.
pub open spec fn is_spread(lightness: Double, middle: int, hundredths: int, i: int) -> bool {
    let u = one_unit() as int;
    let place = (2 * i - 3) * hundredths * (u * u);
    ||| 0x1_0000_0000 * gap(600 * (lightness.val() * u - middle), place) <= u * u
    ||| lightness == ratio(5, 100) && 600 * middle + place <= 31 * (u * u)
    ||| lightness == ratio(95, 100) && 600 * middle + place >= 569 * (u * u)
}

proof fn lemma_expanded(x: int, a: int, y: int, b: int)
    ensures
        (x + a) * (y + b) == x * y + a * y + b * x + a * b,
{
    assert((x + a) * (y + b) == x * y + a * y + b * x + a * b) by (nonlinear_arith);
}

/// The place of a swatch in whole numbers: `p` is its place in the band, `w` the
/// width of the band, `t` their product, `l` the lightness at that place, `mid`
/// the middle, which stands for `m`, and `k` and `e` what `p` and `w` stand for.
#[verifier::rlimit(50)]
proof fn lemma_spread(u: int, p: int, w: int, t: int, l: int, mid: int, m: int, k: int, e: int)
    requires
        u >= 0x1_0000_0000_0000_0000,
        -3 <= k <= 3,
        0 <= e <= 100,
        gap(p, 0) <= u,
        0 <= w <= u,
        gap(mid, 0) <= 3 * u,
        0x20_0000_0000_0000 * gap(6 * p, k * u) <= 64 * u,
        0x20_0000_0000_0000 * gap(100 * w, e * u) <= 256 * u,
        0x20_0000_0000_0000 * gap(t * u, p * w) <= gap(p * w, 0) + 0x10_0000_0000_0000 * u,
        0x20_0000_0000_0000 * gap(l, mid + t) <= gap(mid + t, 0),
        gap(t, 0) <= u,
        0x4_0000_0000_0000 * gap(mid * u, m) <= 16 * (u * u),
    ensures
        0x1_0000_0000 * gap(600 * (l * u - m), k * e * (u * u)) <= u * u,
{
    let uu = u * u;
    let (a, b) = (6 * p - k * u, 100 * w - e * u);
    let (ga, gb) = (gap(a, 0), gap(b, 0));
    assert(0x20_0000_0000_0000 * ga <= 64 * u && 0x20_0000_0000_0000 * gb <= 256 * u);
    let (x, y) = (k * u, e * u);
    lemma_expanded(x, a, y, b);
    assert((x + a) * (y + b) == 600 * (p * w)) by (nonlinear_arith)
        requires
            x + a == 6 * p,
            y + b == 100 * w,
    ;
    assert(x * y == k * e * uu) by (nonlinear_arith)
        requires
            x == k * u,
            y == e * u,
            uu == u * u,
    ;
    assert(0x20_0000_0000_0000 * gap(a * (e * u), 0) <= 6400 * uu) by (nonlinear_arith)
        requires
            0x20_0000_0000_0000 * ga <= 64 * u,
            ga == gap(a, 0),
            0 <= e <= 100,
            u > 0,
            uu == u * u,
    ;
    assert(0x20_0000_0000_0000 * gap(b * (k * u), 0) <= 768 * uu) by (nonlinear_arith)
        requires
            0x20_0000_0000_0000 * gb <= 256 * u,
            gb == gap(b, 0),
            -3 <= k <= 3,
            u > 0,
            uu == u * u,
    ;
    assert(0x20_0000_0000_0000 * gap(a * b, 0) <= 256 * uu) by {
        lemma_gap_of_product(a, b);
        assert(ga <= u);
        assert(0x20_0000_0000_0000 * (ga * gb) <= 256 * uu) by (nonlinear_arith)
            requires
                0 <= ga <= u,
                0x20_0000_0000_0000 * gb <= 256 * u,
                gb >= 0,
                uu == u * u,
        ;
    }
    assert(gap(p * w, 0) <= uu) by {
        lemma_gap_of_product(p, w);
        assert(gap(p, 0) * gap(w, 0) <= uu) by (nonlinear_arith)
            requires
                0 <= gap(p, 0) <= u,
                0 <= gap(w, 0) <= u,
                uu == u * u,
        ;
    }
    assert(0x1_0000_0000_0000_0000 * u <= uu) by (nonlinear_arith)
        requires
            uu == u * u,
            u >= 0x1_0000_0000_0000_0000,
    ;
    // The sum, scaled by the unit.
    assert(gap(mid + t, 0) <= 4 * u);
    lemma_gap_scales(l, mid + t, u);
    let g = gap(l, mid + t);
    assert(0x20_0000_0000_0000 * (g * u) <= 4 * uu) by (nonlinear_arith)
        requires
            0x20_0000_0000_0000 * g <= 4 * u,
            u > 0,
            uu == u * u,
    ;
    assert((mid + t) * u == mid * u + t * u) by (nonlinear_arith);
    lemma_spread_sums(l * u, mid * u, t * u, p * w, m, k * e * uu, uu);
}

proof fn lemma_spread_sums(lu: int, midu: int, tu: int, pw: int, m: int, place: int, uu: int)
    requires
        uu > 0,
        0x20_0000_0000_0000 * gap(600 * pw, place) <= 7424 * uu,
        0x20_0000_0000_0000 * gap(tu, pw) <= 2 * uu,
        0x20_0000_0000_0000 * gap(lu, midu + tu) <= 4 * uu,
        0x4_0000_0000_0000 * gap(midu, m) <= 16 * uu,
    ensures
        0x1_0000_0000 * gap(600 * (lu - m), place) <= uu,
{
    assert(gap(600 * (lu - m), place) <= 600 * gap(lu, midu + tu) + 600 * gap(midu, m) + 600 * gap(tu, pw) + gap(
        600 * pw,
        place,
    ));
}

/// The swatches of a band lie evenly around its middle.
#[verifier::rlimit(50)]
proof fn lemma_band(hue: Double, lightness: Double, chroma: Double, spread: Double, m: int, hundredths: int, i: int)
    requires
        0 <= i < 4,
        0 <= hundredths <= 100,
        lightness.finite(),
        gap(lightness.val(), 0) <= 3 * one_unit(),
        0x4_0000_0000_0000 * gap(lightness.val() * one_unit(), m) <= 16 * (one_unit() as int * one_unit()),
        spread.finite(),
        !spread.neg(),
        spread.val() <= one_unit(),
        0x20_0000_0000_0000 * gap(100 * spread.val(), hundredths * one_unit()) <= 256 * one_unit(),
    ensures
        is_spread(lightness_band(hue, lightness, chroma, spread, 4)[i].lightness, m, hundredths, i),
{
    let u = one_unit() as int;
    let p = swatch_place(i, 4);
    let t = prod(p, spread);
    let l = sum(lightness, t);
    lemma2_to64();
    lemma2_to64_rest();
    crate::rounding::lemma_pow2_le(64, UNIT_EXP as nat);
    lemma_places(i);
    lemma_prod_shrinks(p, spread);
    lemma_prod_near(p, spread);
    lemma_small_sum(lightness, t);
    lemma_sum_near(lightness, t);
    lemma_spread(u, p.val(), spread.val(), t.val(), l.val(), lightness.val(), m, 2 * i - 3, hundredths);
    let (lo, hi) = (ratio(5, 100), ratio(95, 100));
    lemma_ratio_near(5, 100);
    lemma_ratio_near(95, 100);
    let (x, uu) = (l.val(), u * u);
    assert(0x1_0000_0000_0000_0000 * u <= uu) by (nonlinear_arith)
        requires
            uu == u * u,
            u >= 0x1_0000_0000_0000_0000,
    ;
    if x < lo.val() {
        assert(x * u <= lo.val() * u) by (nonlinear_arith)
            requires
                x < lo.val(),
                u > 0,
        ;
        lemma_end_scaled(lo.val(), u, 5);
    }
    if x > hi.val() {
        assert(x * u >= hi.val() * u) by (nonlinear_arith)
            requires
                x > hi.val(),
                u > 0,
        ;
        lemma_end_scaled(hi.val(), u, 95);
    }
}

proof fn lemma_end_scaled(a: int, u: int, n: int)
    requires
        u >= 0x1_0000_0000_0000_0000,
        0 <= n <= 100,
        0x20_0000_0000_0000 * gap(a * 100, n * u) <= n * u + 0x10_0000_0000_0000 * 100,
    ensures
        0x8_0000_0000_0000 * gap(100 * (a * u), n * (u * u)) <= 100 * (u * u),
{
    lemma_gap_scales(a * 100, n * u, u);
    assert((a * 100) * u == 100 * (a * u) && (n * u) * u == n * (u * u)) by (nonlinear_arith);
    let (g, uu) = (gap(a * 100, n * u), u * u);
    assert(n * u <= 100 * u) by (nonlinear_arith)
        requires
            n <= 100,
            u > 0,
    ;
    assert(0x20_0000_0000_0000 * g <= 101 * u);
    assert(0x20_0000_0000_0000 * (g * u) <= 101 * uu) by (nonlinear_arith)
        requires
            0x20_0000_0000_0000 * g <= 101 * u,
            u > 0,
            uu == u * u,
    ;
}

/// Where a share stands.
pub proof fn lemma_share_ends(v: Double)
    requires
        !v.nan(),
    ensures
        share(v).finite(),
        0 <= share(v).val() <= one_unit(),
        le(v, int_double(0)) ==> share(v).val() == 0,
        le(int_double(1), v) ==> share(v) == int_double(1),
        0 <= v.val() <= one_unit() ==> share(v) == v,
{
    lemma_int_double_exact(0);
    lemma_int_double_exact(1);
    lemma_pow2_pos(UNIT_EXP as nat);
    assert(0 * one_unit() == 0);
    lemma_mag_ordered(v.low(), int_double(1).low());
    if le(int_double(1), v) {
        lemma_same_value(share(v), int_double(1));
    }
}

/// What is left to one.
pub proof fn lemma_rest(v: Double)
    requires
        v.finite(),
        0 <= v.val() <= one_unit(),
    ensures
        ({
            let rest = diff(int_double(1), v);
            &&& rest.finite()
            &&& 0 <= rest.val() <= one_unit()
            &&& 0x20_0000_0000_0000 * gap(rest.val(), one_unit() - v.val()) <= one_unit() - v.val()
        }),
{
    let one = int_double(1);
    lemma_int_double_exact(0);
    lemma_int_double_exact(1);
    lemma_pow2_pos(UNIT_EXP as nat);
    assert(0 * one_unit() == 0);
    assert(opposite(v).val() == -v.val() && opposite(v).finite());
    lemma_small_sum(one, opposite(v));
    lemma_diff_near(one, v);
    lemma_sum_val(one, opposite(v));
    lemma_round_units_monotone(0, one.val() - v.val());
    lemma_round_units_monotone(one.val() - v.val(), one.val());
    lemma_round_units_exact(one);
    lemma_round_units_exact(int_double(0));
}

/// A product of two shares, in squares of a unit.
pub proof fn lemma_share_product(a: Double, b: Double)
    requires
        a.finite(),
        b.finite(),
        0 <= a.val() <= one_unit(),
        0 <= b.val() <= one_unit(),
    ensures
        prod(a, b).finite(),
        gap(prod(a, b).val(), 0) <= one_unit(),
        0x20_0000_0000_0000 * gap(prod(a, b).val() * one_unit(), a.val() * b.val()) <= 2 * (one_unit() as int
            * one_unit()),
{
    let u = one_unit() as int;
    lemma2_to64();
    lemma2_to64_rest();
    crate::rounding::lemma_pow2_le(64, UNIT_EXP as nat);
    lemma_prod_shrinks(a, b);
    lemma_prod_near(a, b);
    let (ab, uu) = (a.val() * b.val(), u * u);
    assert(0 <= ab <= uu && 0x10_0000_0000_0000 * u <= uu) by (nonlinear_arith)
        requires
            ab == a.val() * b.val(),
            0 <= a.val() <= u,
            0 <= b.val() <= u,
            uu == u * u,
            u >= 0x1_0000_0000_0000_0000,
    ;
}

/// A lightness is moved toward its inverse in proportion to the strength: at
/// none it stays, at the full one it is one minus itself, and half way between
/// at a half.
#[verifier::rlimit(50)]
pub proof fn law_inversion_is_in_proportion(lightness: Double, strength: Double)
    requires
        lightness.finite(),
        strength.finite(),
        0 <= lightness.val() <= one_unit(),
        0 <= strength.val() <= one_unit(),
    ensures
        ({
            let (l, s, u) = (lightness.val(), strength.val(), one_unit() as int);
            let r = inverted(lightness, strength);
            &&& r.finite()
            &&& gap(r.val(), 0) <= 3 * u
            &&& 0x4_0000_0000_0000 * gap(r.val() * u, l * (u - s) + (u - l) * s) <= 16 * (u * u)
        }),
{
    let (l, s, u) = (lightness.val(), strength.val(), one_unit() as int);
    let (a, b) = (diff(int_double(1), strength), diff(int_double(1), lightness));
    let (p, q) = (prod(lightness, a), prod(b, strength));
    let r = inverted(lightness, strength);
    lemma_pow2_pos(UNIT_EXP as nat);
    lemma_rest(strength);
    lemma_rest(lightness);
    lemma_share_product(lightness, a);
    lemma_share_product(b, strength);
    lemma_small_sum(p, q);
    lemma_sum_near(p, q);
    let uu = u * u;
    assert(uu > 0) by (nonlinear_arith)
        requires
            uu == u * u,
            u > 0,
    ;
    lemma_gap_scales(a.val(), u - s, l);
    lemma_gap_scales(b.val(), u - l, s);
    let (ga, gb) = (gap(a.val(), u - s), gap(b.val(), u - l));
    assert(0x20_0000_0000_0000 * (ga * l) <= uu && 0x20_0000_0000_0000 * (gb * s) <= uu) by (nonlinear_arith)
        requires
            0x20_0000_0000_0000 * ga <= u,
            0x20_0000_0000_0000 * gb <= u,
            0 <= l <= u,
            0 <= s <= u,
            uu == u * u,
    ;
    lemma_gap_scales(r.val(), p.val() + q.val(), u);
    assert((p.val() + q.val()) * u == p.val() * u + q.val() * u) by (nonlinear_arith);
    let g = gap(r.val(), p.val() + q.val());
    assert(0x20_0000_0000_0000 * (g * u) <= 2 * uu) by (nonlinear_arith)
        requires
            0x20_0000_0000_0000 * g <= 2 * u,
            u > 0,
            uu == u * u,
    ;
    lemma_inversion_sums(
        r.val() * u,
        p.val() * u,
        q.val() * u,
        l * a.val(),
        b.val() * s,
        l * (u - s),
        (u - l) * s,
        uu,
    );
}

proof fn lemma_inversion_sums(ru: int, pu: int, qu: int, la: int, bs: int, x: int, y: int, uu: int)
    requires
        uu > 0,
        0x20_0000_0000_0000 * gap(ru, pu + qu) <= 2 * uu,
        0x20_0000_0000_0000 * gap(pu, la) <= 2 * uu,
        0x20_0000_0000_0000 * gap(qu, bs) <= 2 * uu,
        0x20_0000_0000_0000 * gap(la, x) <= uu,
        0x20_0000_0000_0000 * gap(bs, y) <= uu,
    ensures
        0x4_0000_0000_0000 * gap(ru, x + y) <= 16 * uu,
{
    assert(gap(ru, x + y) <= gap(ru, pu + qu) + gap(pu, la) + gap(qu, bs) + gap(la, x) + gap(bs, y));
}

/// A palette from the screenshots keeps to the color that it starts from at no
/// inverse contrast: every swatch has its hue, and they lie evenly around its
/// lightness. At the full one they have the opposite hue and lie around one
/// minus the lightness. Between the two the middle moves in proportion. The
/// band is fifteen hundredths wide.
#[verifier::rlimit(50)]
pub proof fn law_palettes_turn_to_the_complement(base: Oklch, inverse_contrast: Double, seed: u64, i: int)
    requires
        0 <= i < 4,
        base.lightness.finite(),
        0 <= base.lightness.val() <= one_unit(),
        base.hue.finite(),
        !inverse_contrast.nan(),
    ensures
        ({
            let swatch = palette_of(ColorStrategy::FromScreenshots, base, inverse_contrast, seed)[i];
            let (l, s, u) = (base.lightness.val(), share(inverse_contrast).val(), one_unit() as int);
            &&& is_spread(swatch.lightness, l * (u - s) + (u - l) * s, 15, i)
            &&& le(inverse_contrast, int_double(0)) ==> {
                &&& swatch.hue.val() == base.hue.val()
                &&& is_spread(swatch.lightness, l * u, 15, i)
            }
            &&& le(int_double(1), inverse_contrast) ==> {
                &&& swatch.hue == sum(base.hue, pi())
                &&& is_spread(swatch.lightness, (u - l) * u, 15, i)
            }
        }),
{
    let strength = share(inverse_contrast);
    let (l, s, u) = (base.lightness.val(), strength.val(), one_unit() as int);
    lemma2_to64();
    lemma2_to64_rest();
    crate::rounding::lemma_pow2_le(64, UNIT_EXP as nat);
    lemma_share_ends(inverse_contrast);
    lemma_int_double_exact(1);
    law_inversion_is_in_proportion(base.lightness, strength);
    lemma_ratio_near(15, 100);
    lemma_fraction(15, 100);
    lemma_turns();
    lemma_band(
        sum(base.hue, prod(pi(), strength)),
        inverted(base.lightness, strength),
        within(prod(base.chroma, ratio(8, 10)), ratio(3, 100), ratio(16, 100)),
        ratio(15, 100),
        l * (u - s) + (u - l) * s,
        15,
        i,
    );
    if le(inverse_contrast, int_double(0)) {
        lemma_times_zero(pi(), strength);
        lemma_plus_zero(base.hue, prod(pi(), strength));
        assert(l * (u - s) + (u - l) * s == l * u) by (nonlinear_arith)
            requires
                s == 0,
        ;
    }
    if le(int_double(1), inverse_contrast) {
        lemma_times_one(pi());
        assert(l * (u - s) + (u - l) * s == (u - l) * u) by (nonlinear_arith)
            requires
                s == u,
        ;
    }
}

/// A gray palette lies evenly around the lightness that it starts from, over
/// eighty hundredths.
pub proof fn law_gray_palettes_surround_the_lightness(base: Oklch, inverse_contrast: Double, seed: u64, i: int)
    requires
        0 <= i < 4,
        base.lightness.finite(),
        0 <= base.lightness.val() <= one_unit(),
    ensures
        is_spread(
            palette_of(ColorStrategy::Grayscale, base, inverse_contrast, seed)[i].lightness,
            base.lightness.val() * one_unit(),
            80,
            i,
        ),
{
    let u = one_unit() as int;
    lemma2_to64();
    lemma2_to64_rest();
    crate::rounding::lemma_pow2_le(64, UNIT_EXP as nat);
    lemma_ratio_near(8, 10);
    lemma_fraction(8, 10);
    assert(u * u >= 0) by (nonlinear_arith);
    lemma_band(
        int_double(0),
        base.lightness,
        int_double(0),
        ratio(8, 10),
        base.lightness.val() * u,
        80,
        i,
    );
}

/// The swatches of a random palette share their lightness and chroma, and their
/// hues lie evenly around the one that was drawn, over the spread that was drawn.
#[verifier::rlimit(50)]
pub proof fn law_random_palettes_spread_the_hue(hue: Double, lightness: Double, chroma: Double, spread: Double, i: int)
    requires
        0 <= i < 4,
        hue.finite(),
        gap(hue.val(), 0) <= 8 * one_unit(),
        spread.finite(),
        0 <= spread.val() <= 8 * one_unit(),
    ensures
        ({
            let swatch = hue_band(hue, lightness, chroma, spread, 4)[i];
            &&& swatch.lightness == lightness && swatch.chroma == chroma
            &&& 0x1_0000_0000 * gap(6 * (swatch.hue.val() - hue.val()), (2 * i - 3) * spread.val()) <= one_unit()
        }),
{
    let u = one_unit() as int;
    let p = swatch_place(i, 4);
    let t = prod(p, spread);
    let l = sum(hue, t);
    lemma2_to64();
    lemma2_to64_rest();
    crate::rounding::lemma_pow2_le(64, UNIT_EXP as nat);
    lemma_places(i);
    lemma_prod_commutes(p, spread);
    lemma_prod_shrinks(spread, p);
    lemma_prod_near(p, spread);
    lemma_small_sum(hue, t);
    lemma_sum_near(hue, t);
    let (pv, sv, tv, k) = (p.val(), spread.val(), t.val(), 2 * i - 3);
    let uu = u * u;
    lemma_gap_scales(6 * pv, k * u, sv);
    let g = gap(6 * pv, k * u);
    assert(0x20_0000_0000_0000 * (g * sv) <= 512 * uu && 0x10_0000_0000_0000 * u <= uu) by (nonlinear_arith)
        requires
            0x20_0000_0000_0000 * g <= 64 * u,
            0 <= sv <= 8 * u,
            g >= 0,
            uu == u * u,
            u >= 0x1_0000_0000_0000_0000,
    ;
    assert(gap(pv * sv, 0) <= 8 * uu) by {
        lemma_gap_of_product(pv, sv);
        assert(gap(pv, 0) * gap(sv, 0) <= 8 * uu) by (nonlinear_arith)
            requires
                0 <= gap(pv, 0) <= u,
                0 <= gap(sv, 0) <= 8 * u,
                uu == u * u,
        ;
    }
    let ks = k * sv;
    assert((6 * pv) * sv == 6 * (pv * sv) && (k * u) * sv == ks * u && 6 * (tv * u) == (6 * tv) * u)
        by (nonlinear_arith)
        requires
            ks == k * sv,
    ;
    assert(gap((6 * tv) * u, ks * u) <= 6 * gap(tv * u, pv * sv) + gap(6 * (pv * sv), ks * u));
    lemma_gap_scales(6 * tv, ks, u);
    let e = gap(6 * tv, ks);
    assert(0x20_0000_0000_0000 * e <= 600 * u) by (nonlinear_arith)
        requires
            0x20_0000_0000_0000 * (e * u) <= 600 * uu,
            uu == u * u,
            u > 0,
    ;
}

} // verus!
