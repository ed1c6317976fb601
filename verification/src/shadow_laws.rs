//! What shadow bitmaps promise: however large a shape is and however far it is
//! scaled up, its bitmap stays small, and the blur stays inside of it.
use crate::arith_laws::{
    lemma_int_double_exact, lemma_round_bounded, lemma_round_close, lemma_round_exact, lemma_round_monotone,
    lemma_round_units_exact, lemma_round_units_monotone, lemma_sum_val,
};
use crate::blur::{whole_radius, PASSES};
use crate::double::{lemma_mag_ordered, one_unit, prod, quot, signed, sum, Double, UNIT_EXP};
use crate::model::ShadowParams;
use crate::order::{larger, le};
use crate::render::{bitmap_scale, blur_margin, shadow_plan_of};
use crate::rounding::{lemma_pow2_le, lemma_round_scale, lemma_round_zero, mag_of, round_low, BINADE, INF_LOW};
use crate::shadow_cache::MAX_SHADOW_SURFACE_DIM;
use crate::whole::{int_double, whole, Rounding};
use vstd::arithmetic::div_mod::*;
use vstd::arithmetic::power2::*;
use vstd::prelude::*;

verus! {

/// The product of two positive numbers, as its magnitude.
proof fn lemma_prod_parts(a: Double, b: Double)
    requires
        a.finite(),
        b.finite(),
        !a.neg(),
        !b.neg(),
    ensures
        !prod(a, b).neg(),
        !prod(a, b).nan(),
        prod(a, b).low() == round_low(a.mag() * b.mag(), one_unit()),
{
    reveal(prod);
    lemma_round_bounded(a.mag() * b.mag(), one_unit());
}

/// Magnitudes that finite numbers have are small against the square of one.
proof fn lemma_finite_is_small(a: Double)
    requires
        a.finite(),
    ensures
        0x1_0000 * a.mag() <= 4096 * one_unit() * one_unit(),
{
    lemma2_to64();
    lemma_mag_ordered(a.low(), INF_LOW as nat);
    assert(mag_of(INF_LOW as nat) == BINADE as nat * pow2(2046)) by {
        lemma_fundamental_div_mod_converse(INF_LOW as int, BINADE as int, 2047, 0);
    }
    lemma2_to64_rest();
    lemma_pow2_adds(52, 2046);
    lemma_pow2_adds(16, 2098);
    lemma_pow2_adds(UNIT_EXP as nat, UNIT_EXP as nat);
    lemma_pow2_adds(12, 2148);
    lemma_pow2_le(2114, 2160);
    let u = one_unit();
    assert(4096 * u * u == 4096 * (u * u)) by (nonlinear_arith);
}

/// A whole number of pixels that a magnitude takes.
proof fn lemma_ceiling(a: Double, most: int)
    requires
        !a.nan(),
        a.neg() || a.mag() <= most * one_unit(),
        most >= 0,
    ensures
        whole(a, Rounding::Up) <= most,
{
    lemma_pow2_pos(UNIT_EXP as nat);
    let u = one_unit() as int;
    let m = a.mag() as int;
    lemma_fundamental_div_mod(m, u);
    let (w, part) = (m / u, m % u);
    assert(w >= 0) by (nonlinear_arith)
        requires
            m == u * w + part,
            m >= 0,
            u > 0,
            part < u,
    ;
    if !a.neg() {
        assert(w <= most && (part > 0 ==> w < most)) by (nonlinear_arith)
            requires
                m == u * w + part,
                m <= most * u,
                u > 0,
                0 <= part < u,
        ;
    }
}

proof fn lemma_added_up(a: int, b: int, c: int, most: int, extra: int)
    requires
        0xFFFF * a <= 0x1_0001 * b,
        0x1_0000 * b <= 0x1_0002 * most,
        0x1_0000 * c <= 0x1_0001 * a + extra,
        extra <= most,
        most >= 0,
    ensures
        0x1_0000 * c <= 0x1_0007 * most,
{
}

/// Reducing the scale brings the longer side down to the greatest bitmap: the
/// four roundings on the way add less than a pixel. `u` is one, `long` the
/// longer side, `s` the scale, `l` the scaled length, `t` the reduction, `r`
/// the reduced scale and `p` a reduced side.
proof fn lemma_reduced_side(u: int, long: int, side: int, s: int, l: int, t: int, r: int, p: int)
    requires
        u >= 0x1_0000,
        0 <= side <= long,
        s >= 0,
        t >= 0,
        r >= 0,
        l >= 4096 * u,
        0x1_0000 * l <= 4096 * u * u,
        0x1_0000 * long <= 4096 * u * u,
        0xFFFF * (long * s) <= 0x1_0000 * (l * u) + 0x1_0000 * u,
        0x1_0000 * (t * l) <= 0x1_0001 * ((4096 * u) * u) + 0x1_0000 * l,
        0x1_0000 * (r * u) <= 0x1_0001 * (s * t) + 0x1_0000 * u,
        0x1_0000 * (p * u) <= 0x1_0001 * (side * r) + 0x1_0000 * u,
    ensures
        p <= 4097 * u,
{
    let m = 4096 * u * u;
    assert((4096 * u) * u == m) by (nonlinear_arith)
        requires
            m == 4096 * u * u,
    ;
    // The length before it was rounded.
    let ls = long * s;
    assert(0xFFFF * ls <= 0x1_0001 * (l * u)) by (nonlinear_arith)
        requires
            0xFFFF * ls <= 0x1_0000 * (l * u) + 0x1_0000 * u,
            l >= 0x1_0000,
            u > 0,
    ;
    // The reduction times the length.
    let tl = t * l;
    assert(0x1_0000 * tl <= 0x1_0002 * m);
    // The length before it was rounded, reduced.
    let lst = ls * t;
    assert(0xFFFF * lst <= 0x1_0001 * (tl * u)) by (nonlinear_arith)
        requires
            0xFFFF * ls <= 0x1_0001 * (l * u),
            t >= 0,
            lst == ls * t,
            tl == t * l,
    ;
    assert(0x1_0000 * (tl * u) <= 0x1_0002 * (m * u)) by (nonlinear_arith)
        requires
            0x1_0000 * tl <= 0x1_0002 * m,
            u > 0,
    ;
    // The longer side at the reduced scale.
    let lr = long * r;
    assert(0x1_0000 * (lr * u) <= 0x1_0001 * lst + 0x1_0000 * (long * u)) by (nonlinear_arith)
        requires
            0x1_0000 * (r * u) <= 0x1_0001 * (s * t) + 0x1_0000 * u,
            long >= 0,
            lr == long * r,
            lst == (long * s) * t,
    ;
    assert(0x1_0000 * (long * u) <= m * u) by (nonlinear_arith)
        requires
            0x1_0000 * long <= m,
            u > 0,
    ;
    assert(m * u >= 0) by (nonlinear_arith)
        requires
            m == 4096 * u * u,
            u > 0,
    ;
    lemma_added_up(lst, tl * u, lr * u, m * u, 0x1_0000 * (long * u));
    assert(0x1_0000 * lr <= 0x1_0007 * m) by (nonlinear_arith)
        requires
            0x1_0000 * (lr * u) <= 0x1_0007 * (m * u),
            u > 0,
    ;
    // The side at the reduced scale.
    assert(side * r <= lr) by (nonlinear_arith)
        requires
            side <= long,
            r >= 0,
            lr == long * r,
    ;
    let pu = p * u;
    assert(0x1_0000 * pu <= 0x1_0001 * lr + 0x1_0000 * u);
    assert(p <= 4097 * u) by (nonlinear_arith)
        requires
            0x1_0000 * (p * u) <= 0x1_0001 * lr + 0x1_0000 * u,
            0x1_0000 * lr <= 0x1_0007 * (4096 * u * u),
            u >= 0x1_0000,
    ;
}

/// A side at a scale of zero takes no room.
proof fn lemma_no_room(side: Double, scale: Double)
    requires
        scale.nan() || scale.mag() == 0,
    ensures
        whole(prod(side, scale), Rounding::Up) <= 0,
{
    reveal(prod);
    lemma_pow2_pos(UNIT_EXP as nat);
    if !side.nan() && side.finite() && !scale.nan() {
        lemma_mag_ordered(scale.low(), 0);
        assert(mag_of(0) == 0) by {
            assert(0nat / BINADE as nat == 0);
        }
        assert(side.mag() * scale.mag() == 0) by (nonlinear_arith)
            requires
                scale.mag() == 0,
        ;
        lemma_round_zero(one_unit());
        lemma_ceiling(prod(side, scale), 0);
    }
}

/// A side takes no more pixels than the longer side takes, which was not
/// reduced.
proof fn lemma_unreduced(side: Double, long: Double, scale: Double)
    requires
        side.finite(),
        long.finite(),
        scale.finite(),
        !side.neg(),
        !long.neg(),
        !scale.neg(),
        side.mag() <= long.mag(),
        prod(long, scale).mag() <= 4096 * one_unit(),
    ensures
        whole(prod(side, scale), Rounding::Up) <= 4096,
{
    lemma_prod_parts(side, scale);
    lemma_prod_parts(long, scale);
    lemma_pow2_pos(UNIT_EXP as nat);
    let u = one_unit();
    assert((side.mag() * scale.mag()) * u <= (long.mag() * scale.mag()) * u) by (nonlinear_arith)
        requires
            side.mag() <= long.mag(),
    ;
    lemma_round_monotone(side.mag() * scale.mag(), u, long.mag() * scale.mag(), u);
    lemma_mag_ordered(prod(long, scale).low(), prod(side, scale).low());
    lemma_ceiling(prod(side, scale), 4096);
}

/// The reduction is at most one, so the reduced scale is at most the scale.
proof fn lemma_reduction(scale: Double, length: Double)
    requires
        scale.finite(),
        length.finite(),
        !scale.neg(),
        !length.neg(),
        length.mag() > 4096 * one_unit(),
    ensures
        ({
            let t = quot(int_double(4096), length);
            let r = prod(scale, t);
            &&& t.finite() && !t.neg()
            &&& t.low() == round_low((4096 * one_unit()) * one_unit(), length.mag())
            &&& r.finite() && !r.neg()
        }),
{
    let u = one_unit();
    let most = int_double(4096);
    let t = quot(most, length);
    lemma_pow2_pos(UNIT_EXP as nat);
    lemma_int_double_exact(4096);
    lemma_int_double_exact(1);
    lemma_round_bounded(most.mag() * u, length.mag());
    assert(most.mag() == 4096 * u);
    assert(t == signed(false, round_low(most.mag() * u, length.mag()))) by {
        reveal(quot);
    }
    // At most one, as the greatest side is at most the length.
    assert((most.mag() * u) * 1 <= u * length.mag()) by (nonlinear_arith)
        requires
            most.mag() <= length.mag(),
    ;
    lemma_round_monotone(most.mag() * u, length.mag(), u, 1);
    lemma_round_exact(int_double(1).low());
    assert(int_double(1).mag() == u);
    lemma_mag_ordered(int_double(1).low(), t.low());
    // So the reduced scale is at most the scale.
    lemma_prod_parts(scale, t);
    assert((scale.mag() * t.mag()) * u <= (scale.mag() * u) * u) by (nonlinear_arith)
        requires
            t.mag() <= u,
    ;
    lemma_round_monotone(scale.mag() * t.mag(), u, scale.mag() * u, u);
    lemma_round_scale(scale.mag(), 1, u);
    assert(1 * u == u);
    lemma_round_exact(scale.low());
}

proof fn lemma_reduced(side: Double, long: Double, scale: Double)
    requires
        side.finite(),
        long.finite(),
        scale.finite(),
        !side.neg(),
        !long.neg(),
        !scale.neg(),
        side.mag() <= long.mag(),
        prod(long, scale).finite(),
        prod(long, scale).mag() > 4096 * one_unit(),
    ensures
        whole(prod(side, prod(scale, quot(int_double(4096), prod(long, scale)))), Rounding::Up) <= 4097,
{
    let u = one_unit();
    let length = prod(long, scale);
    let t = quot(int_double(4096), length);
    let r = prod(scale, t);
    let p = prod(side, r);
    lemma2_to64();
    lemma_pow2_le(16, UNIT_EXP as nat);
    lemma_prod_parts(long, scale);
    lemma_reduction(scale, length);
    lemma_prod_parts(scale, t);
    lemma_prod_parts(side, r);
    lemma_finite_is_small(length);
    lemma_finite_is_small(long);
    lemma_round_close(long.mag() * scale.mag(), u);
    lemma_round_close((4096 * u) * u, length.mag());
    lemma_round_close(scale.mag() * t.mag(), u);
    lemma_round_close(side.mag() * r.mag(), u);
    lemma_reduced_side(
        u as int,
        long.mag() as int,
        side.mag() as int,
        scale.mag() as int,
        length.mag() as int,
        t.mag() as int,
        r.mag() as int,
        p.mag() as int,
    );
    lemma_ceiling(p, 4097);
}

/// A side of a shape takes at most one pixel more than the greatest bitmap has.
proof fn lemma_side_fits(side: Double, width: Double, height: Double, scale: Double)
    requires
        side == width || side == height,
        le(scale, int_double(0)) || !(le(width, int_double(0)) || le(height, int_double(0))),
    ensures
        whole(prod(side, bitmap_scale(width, height, scale)), Rounding::Up) <= MAX_SHADOW_SURFACE_DIM + 1,
{
    lemma_int_double_exact(0);
    lemma_int_double_exact(4096);
    lemma_pow2_pos(UNIT_EXP as nat);
    let r = bitmap_scale(width, height, scale);
    let long = larger(width, height);
    let length = prod(long, scale);
    let most = int_double(MAX_SHADOW_SURFACE_DIM as int);
    if le(scale, int_double(0)) {
        lemma_no_room(side, r);
    } else if scale.nan() {
        assert(length.nan() && r.nan()) by {
            reveal(prod);
        }
        lemma_no_room(side, r);
    } else if side.nan() {
        assert(prod(side, r).nan()) by {
            reveal(prod);
        }
    } else if !long.finite() || !scale.finite() {
        assert(!length.finite() && !length.nan() && !length.neg()) by {
            reveal(prod);
            lemma_mag_ordered(long.low(), 0);
            lemma_mag_ordered(scale.low(), 0);
        }
        lemma_overlong(side, scale, length);
    } else {
        lemma_prod_parts(long, scale);
        lemma_mag_ordered(long.low(), side.low());
        if le(length, most) {
            lemma_unreduced(side, long, scale);
        } else if !length.finite() {
            lemma_overlong(side, scale, length);
        } else {
            lemma_reduced(side, long, scale);
        }
    }
}

/// A length beyond all numbers is reduced to nothing.
proof fn lemma_overlong(side: Double, scale: Double, length: Double)
    requires
        !length.finite(),
        !length.nan(),
        !length.neg(),
        !scale.nan(),
    ensures
        !le(length, int_double(4096)),
        whole(prod(side, prod(scale, quot(int_double(4096), length))), Rounding::Up) <= 0,
{
    lemma_int_double_exact(4096);
    lemma_mag_ordered(int_double(4096).low(), length.low());
    let t = quot(int_double(4096), length);
    let r = prod(scale, t);
    assert(t.low() == 0 && !t.nan()) by {
        reveal(quot);
    }
    assert(mag_of(0) == 0) by {
        assert(0nat / BINADE as nat == 0);
    }
    assert(r.nan() || r.mag() == 0) by {
        reveal(prod);
        lemma_pow2_pos(UNIT_EXP as nat);
        lemma_round_zero(one_unit());
        assert(scale.mag() * t.mag() == 0) by (nonlinear_arith)
            requires
                t.mag() == 0,
        ;
    }
    lemma_no_room(side, r);
}

/// The steps toward a margin are numbers that are not negative.
proof fn lemma_margin_parts(spread: Double)
    requires
        !spread.nan(),
        spread.val() >= 0,
    ensures
        ({
            let tripled = prod(spread, int_double(3));
            let padded = sum(tripled, int_double(4));
            &&& !tripled.nan() && tripled.val() >= 0
            &&& !padded.nan() && !padded.neg()
        }),
{
    lemma_int_double_exact(3);
    lemma_int_double_exact(4);
    lemma_pow2_pos(UNIT_EXP as nat);
    let tripled = prod(spread, int_double(3));
    let padded = sum(tripled, int_double(4));
    lemma_mag_ordered(spread.low(), 0);
    assert(mag_of(0) == 0) by {
        assert(0nat / BINADE as nat == 0);
    }
    assert(!tripled.nan() && tripled.val() >= 0) by {
        reveal(prod);
        lemma_round_bounded(spread.mag() * int_double(3).mag(), one_unit());
        if spread.mag() == 0 {
            assert(spread.mag() * int_double(3).mag() == 0) by (nonlinear_arith)
                requires
                    spread.mag() == 0,
            ;
            lemma_round_zero(one_unit());
        }
    }
    assert(!padded.nan() && !padded.neg()) by {
        reveal(sum);
        if tripled.finite() {
            lemma_round_bounded((tripled.val() + int_double(4).val()) as nat, 1);
        } else {
            lemma_mag_ordered(tripled.low(), 0);
        }
    }
}

/// The margin of a bitmap is never negative.
proof fn lemma_margin(blur: Double, scale: Double)
    ensures
        blur_margin(blur, scale) >= 0,
{
    lemma_int_double_exact(0);
    lemma_pow2_pos(UNIT_EXP as nat);
    let spread = larger(prod(blur, scale), int_double(0));
    let padded = sum(prod(spread, int_double(3)), int_double(4));
    lemma_margin_parts(spread);
    lemma_up_at_least(padded, 0);
}

/// A number that is at least a whole one is no less when it is rounded up.
proof fn lemma_up_at_least(a: Double, least: int)
    requires
        !a.nan(),
        !a.neg(),
        a.mag() >= least * one_unit(),
    ensures
        whole(a, Rounding::Up) >= least,
{
    lemma_pow2_pos(UNIT_EXP as nat);
    let u = one_unit() as int;
    let m = a.mag() as int;
    let (w, part) = (m / u, m % u);
    lemma_fundamental_div_mod(m, u);
    assert(w >= least) by (nonlinear_arith)
        requires
            m == u * w + part,
            m >= least * u,
            part < u,
            u > 0,
    ;
}

/// What a radius in whole pixels says of the radius: it is at most half a pixel
/// less.
proof fn lemma_radius_is_near(b: Double)
    requires
        whole_radius(b) > 0,
    ensures
        !b.nan(),
        !b.neg(),
        2 * b.mag() >= (2 * whole_radius(b) - 1) * one_unit(),
{
    lemma_pow2_pos(UNIT_EXP as nat);
    let u = one_unit() as int;
    let m = b.mag() as int;
    let (w, part) = (m / u, m % u);
    let r = whole_radius(b);
    lemma_fundamental_div_mod(m, u);
    lemma_mod_bound(m, u);
    lemma_div_pos_is_pos(m, u);
    assert(2 * m >= (2 * r - 1) * u) by (nonlinear_arith)
        requires
            m == u * w + part,
            0 <= part < u,
            r <= w || (r <= w + 1 && 2 * part >= u),
            u > 0,
    ;
}

/// The margin holds what the blur spreads: each of the passes spreads by the
/// radius in whole pixels at most, and all of them together stay inside.
pub proof fn law_margin_holds_what_the_blur_spreads(blur: Double, render_scale: Double)
    requires
        blur_margin(blur, render_scale) < i32::MAX,
    ensures
        PASSES * whole_radius(prod(blur, render_scale)) < blur_margin(blur, render_scale),
{
    let b = prod(blur, render_scale);
    let r = whole_radius(b);
    let u = one_unit();
    let least = if r > 0 {
        3 * r - 2
    } else {
        0
    };
    let spread = larger(b, int_double(0));
    let tripled = prod(spread, int_double(3));
    let padded = sum(tripled, int_double(4));
    lemma_pow2_pos(UNIT_EXP as nat);
    lemma_int_double_exact(0);
    lemma_int_double_exact(3);
    lemma_int_double_exact(4);
    lemma_int_double_exact(least);
    lemma_int_double_exact(least + 4);
    lemma_margin_parts(spread);
    if r > 0 {
        lemma_radius_is_near(b);
    }
    // Three radii are at least that many pixels.
    assert(tripled.mag() >= least * u) by {
        if spread.finite() {
            let n = spread.mag() * int_double(3).mag();
            assert((least * u) * u <= n * 1) by (nonlinear_arith)
                requires
                    n == spread.mag() * (3 * u),
                    least == 0 || 2 * spread.mag() >= (2 * r - 1) * u,
                    least == 0 || least == 3 * r - 2,
                    u > 0,
            ;
            lemma_round_monotone((least * u) as nat, 1, n, u);
            lemma_round_exact(int_double(least).low());
            assert(tripled.low() == round_low(n, u)) by {
                reveal(prod);
                lemma_round_bounded(n, u);
            }
        } else {
            lemma_mag_ordered(spread.low(), 0);
            assert(tripled.low() == INF_LOW) by {
                reveal(prod);
            }
        }
        lemma_mag_ordered(tripled.low(), int_double(least).low());
    }
    assert((least + 4) * u == least * u + 4 * u) by (nonlinear_arith);
    assert(padded.mag() >= (least + 4) * u) by {
        if tripled.finite() {
            lemma_sum_val(tripled, int_double(4));
            lemma_round_units_monotone(int_double(least + 4).val(), tripled.val() + int_double(4).val());
            lemma_round_units_exact(int_double(least + 4));
        } else {
            assert(padded.low() == INF_LOW) by {
                reveal(sum);
            }
            lemma_mag_ordered(padded.low(), int_double(least + 4).low());
        }
    }
    lemma_up_at_least(padded, least + 4);
}

/// However large a shape is and however far it is scaled up, its shadow's
/// bitmap is no larger than the greatest one, rounded up by a pixel at most,
/// and the margin that the blur needs. A shape with no extent on one side is
/// left out: its other side is not reduced.
pub proof fn law_shadow_bitmaps_stay_bounded(width: Double, height: Double, shadow: ShadowParams, scale: Double)
    requires
        le(scale, int_double(0)) || !(le(width, int_double(0)) || le(height, int_double(0))),
    ensures
        ({
            let plan = shadow_plan_of(width, height, shadow, scale);
            &&& plan.surface_width <= MAX_SHADOW_SURFACE_DIM + 1 + 2 * plan.pad
            &&& plan.surface_height <= MAX_SHADOW_SURFACE_DIM + 1 + 2 * plan.pad
        }),
{
    let r = bitmap_scale(width, height, scale);
    lemma_side_fits(width, width, height, scale);
    lemma_side_fits(height, width, height, scale);
    lemma_margin(shadow.blur, r);
}

} // verus!
