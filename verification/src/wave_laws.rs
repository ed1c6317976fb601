//! What the layers of a generated background promise: how far they reach, how
//! they are spaced and shaped, and what shows through them.
use crate::arith_laws::{lemma_fraction, lemma_int_double_exact, lemma_prod_commutes, lemma_short_is_double};
use crate::color_laws::{lemma_large_unit, lemma_pi_moderate, lemma_times_ratio};
use crate::double::{diff, lemma_mag_ordered, one_unit, opposite, prod, quot, signed, sum, Double, UNIT_EXP};
use crate::export::lemma_exact_quotient;
use crate::generator::{
    canvas_corners, cut_direction, cut_share, distance, edge_radius, fan_of, farthest_corner, focus_of, half,
    line_across, point_from, shift, wave_turn, Point, WaveLayer,
};
use crate::layout::{greatest, lemma_greatest, lemma_greatest_finite};
use crate::model::background::GeneratedBackgroundView;
use crate::model::geometry::pi;
use crate::near_laws::{
    about, lemma_diff_near, lemma_gap_of_product, lemma_gap_scales, lemma_half_near, lemma_plus_zero,
    lemma_prod_by_int, lemma_prod_near, lemma_prod_shrinks, lemma_prod_stretches, lemma_quot_by_int, lemma_sum_near,
    lemma_times_one, lemma_times_zero,
};
use crate::order::{larger, le};
use crate::palette::{drawn, share};
use crate::palette_laws::{lemma_ratio_near, lemma_share_ends, lemma_small_product, lemma_small_sum};
use crate::pointer_laws::lemma_nearest_pixels;
use crate::preset_laws::gap;
use crate::rng::{fraction, in_range, law_range_respects_bounds, lemma_fraction_val, output, picked};
use crate::rounding::{lemma_round_scale, round_low};
use crate::whole::{clip, int_double, ratio, whole, Rounding};
use vstd::arithmetic::power2::*;
use vstd::prelude::*;

verus! {

/// A half is a double.
pub proof fn lemma_one_half()
    ensures
        ratio(5, 10).finite(),
        !ratio(5, 10).neg(),
        2 * ratio(5, 10).val() == one_unit(),
{
    let u = one_unit();
    let x = (UNIT_EXP - 1) as nat;
    lemma_int_double_exact(5);
    lemma_int_double_exact(10);
    lemma_pow2_pos(UNIT_EXP as nat);
    lemma_pow2_adds(x, 1);
    lemma2_to64();
    lemma_short_is_double(1, x);
    let k = 1 * pow2(x);
    assert(2 * k == u && (5 * u) * u == k * (10 * u)) by (nonlinear_arith)
        requires
            k == 1 * pow2(x),
            u == pow2(x) * 2,
    ;
    lemma_round_scale(k, 1, 10 * u);
    assert(ratio(5, 10) == signed(false, round_low(k, 1))) by {
        reveal(quot);
    }
}

/// A shift of the focus is in proportion to the offset and the canvas: none
/// where there is no offset, half the canvas where the offset is one, and
/// against the direction where it is negative.
#[verifier::rlimit(50)]
pub proof fn law_offsets_shift_by_half_the_canvas(offset: Double, extent: Double)
    requires
        !offset.nan(),
        extent.finite(),
    ensures
        ({
            let u = one_unit() as int;
            let o = clip(offset.val(), -u, u);
            let s = shift(offset, extent);
            &&& s.finite()
            &&& 0x4_0000_0000_0000 * gap(2 * (s.val() * u), o * extent.val()) <= gap(o * extent.val(), 0)
                + 0x4_0000_0000_0000 * (2 * u)
        }),
{
    let u = one_unit() as int;
    let (lo, hi) = (int_double(-1), int_double(1));
    lemma_pow2_pos(UNIT_EXP as nat);
    lemma_int_double_exact(-1);
    lemma_int_double_exact(1);
    lemma_mag_ordered(offset.low(), hi.low());
    let o = crate::order::within(offset, lo, hi);
    assert(o.finite() && o.val() == clip(offset.val(), -u, u));
    assert(o.mag() <= u);
    lemma_prod_commutes(o, extent);
    lemma_prod_shrinks(extent, o);
    lemma_prod_near(o, extent);
    let (p, h) = (prod(o, extent), ratio(5, 10));
    lemma_one_half();
    lemma_prod_shrinks(p, h);
    lemma_prod_near(p, h);
    let s = prod(p, h);
    assert(2 * (p.val() * h.val()) == p.val() * u) by (nonlinear_arith)
        requires
            2 * h.val() == u,
    ;
    let exact = o.val() * extent.val();
    let (su, ph, pu) = (s.val() * u, p.val() * h.val(), p.val() * u);
    assert(gap(2 * su, exact) <= 2 * gap(su, ph) + gap(pu, exact));
    assert(2 * gap(ph, 0) <= gap(exact, 0) + gap(pu, exact));
}

/// The fan reaches every corner of the canvas where it is not made smaller: at
/// a scale of one or more no corner is farther from the focus than the
/// outermost layer.
pub proof fn law_fan_reaches_every_corner(bg: GeneratedBackgroundView, corner: Point, width: Double, height: Double, k: int)
    requires
        0 <= k < 4,
        bg.scale.finite(),
        le(int_double(1), bg.scale),
        ({
            let focus = focus_of(bg, corner, width, height);
            forall|j: int|
                0 <= j < 4 ==> distance(
                    diff((#[trigger] canvas_corners(width, height)[j]).x, focus.x),
                    diff(canvas_corners(width, height)[j].y, focus.y),
                ).finite()
        }),
    ensures
        ({
            let (fan, c) = (fan_of(bg, corner, width, height), canvas_corners(width, height)[k]);
            le(distance(diff(c.x, fan.focus.x), diff(c.y, fan.focus.y)), fan.max_radius)
        }),
{
    let focus = focus_of(bg, corner, width, height);
    let corners = canvas_corners(width, height);
    let values = corners.map_values(|c: Point| distance(diff(c.x, focus.x), diff(c.y, focus.y)));
    lemma_pow2_pos(UNIT_EXP as nat);
    lemma_int_double_exact(0);
    lemma_int_double_exact(1);
    assert(0 * one_unit() == 0);
    lemma_ratio_near(5, 100);
    lemma_fraction(5, 100);
    assert forall|j: int| 0 <= j < values.len() implies (#[trigger] values[j]).finite() by {
        assert(values[j] == distance(diff(corners[j].x, focus.x), diff(corners[j].y, focus.y)));
    }
    lemma_greatest(values, k);
    lemma_greatest_finite(values);
    let far = larger(greatest(values), int_double(1));
    assert(farthest_corner(focus, width, height) == greatest(values));
    assert(larger(bg.scale, ratio(5, 100)) == bg.scale);
    lemma_prod_stretches(far, bg.scale);
    assert(values[k] == distance(diff(corners[k].x, focus.x), diff(corners[k].y, focus.y)));
}

/// The outermost layer is as far out as the farthest corner times the scale, and
/// the innermost one at fifteen hundredths of that.
pub proof fn law_fan_grows_with_the_scale(bg: GeneratedBackgroundView, corner: Point, width: Double, height: Double)
    requires
        bg.scale.finite(),
        le(ratio(5, 100), bg.scale),
        ({
            let far = farthest_corner(focus_of(bg, corner, width, height), width, height);
            far.finite() && le(int_double(1), far) && prod(far, bg.scale).finite()
        }),
    ensures
        ({
            let fan = fan_of(bg, corner, width, height);
            let (far, u) = (farthest_corner(fan.focus, width, height), one_unit() as int);
            let max = fan.max_radius.val();
            &&& about(max * u, far.val() * bg.scale.val(), u)
            &&& 0x1_0000_0000 * gap(100 * fan.min_radius.val(), 15 * max) <= gap(max, 0) + 0x1_0000_0000 * 100
        }),
{
    let fan = fan_of(bg, corner, width, height);
    let far = farthest_corner(fan.focus, width, height);
    let u = one_unit() as int;
    lemma2_to64();
    lemma2_to64_rest();
    crate::rounding::lemma_pow2_le(64, UNIT_EXP as nat);
    lemma_int_double_exact(1);
    lemma_ratio_near(5, 100);
    lemma_prod_near(far, bg.scale);
    let (m, w) = (fan.max_radius, ratio(15, 100));
    lemma_fraction(15, 100);
    lemma_ratio_near(15, 100);
    lemma_prod_shrinks(m, w);
    lemma_part(m, w, 15);
}

/// A number of hundredths of a number.
#[verifier::rlimit(50)]
pub proof fn lemma_part(m: Double, w: Double, n: int)
    requires
        m.finite(),
        w.finite(),
        0 <= n <= 100,
        0 <= w.val() <= one_unit(),
        0x20_0000_0000_0000 * gap(w.val() * 100, n * one_unit()) <= n * one_unit() + 0x10_0000_0000_0000 * 100,
        prod(m, w).finite(),
    ensures
        0x1_0000_0000 * gap(100 * prod(m, w).val(), n * m.val()) <= gap(m.val(), 0) + 0x1_0000_0000 * 100,
{
    let u = one_unit() as int;
    lemma2_to64();
    lemma2_to64_rest();
    crate::rounding::lemma_pow2_le(64, UNIT_EXP as nat);
    lemma_prod_near(m, w);
    let (p, mv, wv) = (prod(m, w).val(), m.val(), w.val());
    let (mw, gm) = (mv * wv, gap(mv, 0));
    lemma_gap_scales(wv * 100, n * u, mv);
    let g = gap(wv * 100, n * u);
    assert(n * u <= 100 * u) by (nonlinear_arith)
        requires
            n <= 100,
            u > 0,
    ;
    assert(0x20_0000_0000_0000 * (g * gm) <= 101 * (gm * u)) by (nonlinear_arith)
        requires
            0x20_0000_0000_0000 * g <= 101 * u,
            gm >= 0,
    ;
    assert(gap(mw, 0) <= gm * u) by {
        lemma_gap_of_product(mv, wv);
        assert(gm * gap(wv, 0) <= gm * u) by (nonlinear_arith)
            requires
                gm >= 0,
                gap(wv, 0) <= u,
        ;
    }
    let (x, y) = (100 * p, n * mv);
    assert((wv * 100) * mv == 100 * mw && (n * u) * mv == y * u && 100 * (p * u) == x * u) by (nonlinear_arith)
        requires
            mw == mv * wv,
            x == 100 * p,
            y == n * mv,
    ;
    assert(gap(x * u, y * u) <= 100 * gap(p * u, mw) + gap(100 * mw, y * u));
    lemma_gap_scales(x, y, u);
    let e = gap(x, y);
    assert(0x1_0000_0000 * e <= gm + 0x1_0000_0000 * 100) by (nonlinear_arith)
        requires
            0x20_0000_0000_0000 * (e * u) <= 201 * (gm * u) + 0x10_0000_0000_0000 * 100 * u,
            u > 0,
            gm >= 0,
            e >= 0,
    ;
}

/// The denser a background, the more layers it has: four at no density, ten at
/// the full one, and in proportion between, to the nearest whole one. The more
/// it varies, the more bumps its layers have: one without, four at the full
/// variation.
#[verifier::rlimit(50)]
pub proof fn law_density_and_variation_count_up(bg: GeneratedBackgroundView, corner: Point, width: Double, height: Double)
    requires
        !bg.density.nan(),
        !bg.variation.nan(),
    ensures
        ({
            let fan = fan_of(bg, corner, width, height);
            let u = one_unit() as int;
            let (d, v) = (clip(bg.density.val(), 0, u), clip(bg.variation.val(), 0, u));
            &&& 0x1_0000_0000 * (2 * gap((fan.layer_count - 4) * u, 6 * d) - u) <= u
            &&& exists|n: int| #[trigger]
                int_double(1 + n) == fan.freq && 0 <= n <= 3 && 0x1_0000_0000 * (2 * gap(n * u, 3 * v) - u) <= u
        }),
{
    let u = one_unit() as int;
    let fan = fan_of(bg, corner, width, height);
    lemma2_to64();
    lemma2_to64_rest();
    crate::rounding::lemma_pow2_le(64, UNIT_EXP as nat);
    lemma_share_val(bg.density);
    lemma_share_val(bg.variation);
    lemma_prod_commutes(int_double(6), share(bg.density));
    lemma_count(share(bg.density), 6);
    lemma_count(share(bg.variation), 3);
    let n = whole(prod(share(bg.variation), int_double(3)), Rounding::Nearest);
    lemma_int_double_exact(1);
    lemma_int_double_exact(n);
    lemma_int_double_exact(1 + n);
    assert(u + n * u == (1 + n) * u) by (nonlinear_arith);
    crate::near_laws::lemma_sum_exact(int_double(1), int_double(n), int_double(1 + n));
    assert((1 + n) * u > 0) by (nonlinear_arith)
        requires
            n >= 0,
            u > 0,
    ;
    crate::near_laws::lemma_same_value(fan.freq, int_double(1 + n));
}

proof fn lemma_share_val(v: Double)
    requires
        !v.nan(),
    ensures
        share(v).finite(),
        share(v).val() == clip(v.val(), 0, one_unit() as int),
{
    lemma_share_ends(v);
    lemma_int_double_exact(0);
    lemma_int_double_exact(1);
    lemma_pow2_pos(UNIT_EXP as nat);
    assert(0 * one_unit() == 0);
}

/// A share of a small whole number, to the nearest whole one.
proof fn lemma_count(s: Double, most: int)
    requires
        s.finite(),
        0 <= s.val() <= one_unit(),
        0 <= most <= 10,
    ensures
        ({
            let n = whole(prod(s, int_double(most)), Rounding::Nearest);
            &&& 0 <= n <= most
            &&& !prod(s, int_double(most)).nan()
            &&& 0x1_0000_0000 * (2 * gap(n * one_unit(), most * s.val()) - one_unit()) <= one_unit()
        }),
{
    let u = one_unit() as int;
    lemma2_to64();
    lemma2_to64_rest();
    crate::rounding::lemma_pow2_le(64, UNIT_EXP as nat);
    lemma_int_double_exact(most);
    assert(most * u <= 0x1_0000_0000 * u && most * u >= 0) by (nonlinear_arith)
        requires
            0 <= most <= 10,
            u > 0,
    ;
    lemma_small_product(s, int_double(most));
    lemma_prod_by_int(s, most);
    let p = prod(s, int_double(most));
    crate::generator::lemma_share_of(most, s);
    crate::generator::lemma_whole_at_most(p, most, Rounding::Nearest);
    let exact = s.val() * most;
    assert(exact == most * s.val() && 0 <= exact <= 10 * u) by (nonlinear_arith)
        requires
            exact == s.val() * most,
            0 <= s.val() <= u,
            0 <= most <= 10,
    ;
    lemma_nearest_of(p);
    assert(gap(whole(p, Rounding::Nearest) * u, exact) <= gap(whole(p, Rounding::Nearest) * u, p.val()) + gap(
        p.val(),
        exact,
    ));
}

proof fn lemma_nearest_of(p: Double)
    requires
        p.finite(),
        p.val() >= 0,
    ensures
        2 * gap(whole(p, Rounding::Nearest) * one_unit(), p.val()) <= one_unit(),
{
    lemma_pow2_pos(UNIT_EXP as nat);
    if !p.neg() {
        lemma_nearest_pixels(p);
    } else {
        assert(p.mag() == 0);
        let u = one_unit() as int;
        vstd::arithmetic::div_mod::lemma_fundamental_div_mod_converse(0, u, 0, 0);
    }
}

/// A number that is drawn from a range is never outside it.
pub proof fn law_draws_stay_in_range(state: u64, lo: Double, hi: Double)
    requires
        lo.finite(),
        hi.finite(),
        le(lo, hi),
        diff(hi, lo).finite(),
    ensures
        le(lo, drawn(state, lo, hi)),
        le(drawn(state, lo, hi), hi),
{
    law_range_respects_bounds(output(state), lo, hi);
}

/// A draw falls in a range where its output falls among all outputs: at the
/// beginning for the least ones, at the end for the greatest.
#[verifier::rlimit(50)]
pub proof fn law_draws_are_in_proportion(out: u64, lo: Double, hi: Double)
    requires
        lo.finite(),
        hi.finite(),
        le(lo, hi),
        diff(hi, lo).finite(),
        in_range(out, lo, hi).finite(),
    ensures
        fraction(out).val() * 0x20_0000_0000_0000 == (out >> 11) * one_unit(),
        ({
            let (l, h, f, u) = (lo.val(), hi.val(), fraction(out).val(), one_unit() as int);
            0x4_0000_0000_0000 * gap((in_range(out, lo, hi).val() - l) * u, f * (h - l)) <= gap(l * u, 0) + 2 * gap(
                h * u,
                0,
            ) + 0x4_0000_0000_0000 * u
        }),
{
    let (l, h, f, u) = (lo.val(), hi.val(), fraction(out).val(), one_unit() as int);
    let w = diff(hi, lo);
    lemma_pow2_pos(UNIT_EXP as nat);
    lemma_fraction_val(out);
    lemma_pow2_adds(53, 1021);
    lemma2_to64_rest();
    let k = (out >> 11) as int;
    assert((k * pow2(1021)) * 0x20_0000_0000_0000 == k * u) by (nonlinear_arith)
        requires
            u == 0x20_0000_0000_0000 * pow2(1021),
    ;
    lemma_diff_near(hi, lo);
    lemma_prod_commutes(fraction(out), w);
    lemma_prod_shrinks(w, fraction(out));
    lemma_prod_near(fraction(out), w);
    let p = prod(fraction(out), w);
    let r = in_range(out, lo, hi);
    lemma_sum_near(lo, p);
    lemma_draw(l, h, w.val(), f, p.val(), r.val(), u);
}

proof fn lemma_draw(l: int, h: int, w: int, f: int, p: int, r: int, u: int)
    requires
        u > 0,
        0 <= f <= u,
        0x20_0000_0000_0000 * gap(w, h - l) <= gap(h - l, 0),
        0x20_0000_0000_0000 * gap(p * u, f * w) <= gap(f * w, 0) + 0x10_0000_0000_0000 * u,
        0x20_0000_0000_0000 * gap(r, l + p) <= gap(l + p, 0),
    ensures
        0x4_0000_0000_0000 * gap((r - l) * u, f * (h - l)) <= gap(l * u, 0) + 2 * gap(h * u, 0) + 0x4_0000_0000_0000
            * u,
{
    let (lu, hu) = (l * u, h * u);
    lemma_gap_scales(w, h - l, f);
    lemma_gap_of_product(h - l, u);
    let g = gap(w, h - l);
    let span = gap(h - l, 0);
    assert(0x20_0000_0000_0000 * (g * f) <= span * u) by (nonlinear_arith)
        requires
            0x20_0000_0000_0000 * g <= span,
            0 <= f <= u,
            g >= 0,
    ;
    assert((h - l) * u == hu - lu && (r - l) * u == r * u - lu && (l + p) * u == lu + p * u) by (nonlinear_arith)
        requires
            lu == l * u,
            hu == h * u,
    ;
    assert(gap(f * (h - l), 0) <= span * u) by {
        lemma_gap_of_product(f, h - l);
        assert(f * span <= span * u) by (nonlinear_arith)
            requires
                0 <= f <= u,
                span >= 0,
        ;
    }
    lemma_gap_scales(r, l + p, u);
    lemma_gap_of_product(l + p, u);
    let e = gap(r, l + p);
    assert(0x20_0000_0000_0000 * (e * u) <= gap(l + p, 0) * u) by (nonlinear_arith)
        requires
            0x20_0000_0000_0000 * e <= gap(l + p, 0),
            u > 0,
    ;
    assert(f * w == w * f && f * (h - l) == (h - l) * f) by (nonlinear_arith);
    lemma_draw_sums(r * u - lu, p * u, f * w, f * (h - l), lu, hu, span * u, u);
}

proof fn lemma_draw_sums(d: int, pu: int, fw: int, exact: int, lu: int, hu: int, span: int, u: int)
    requires
        u > 0,
        span == gap(hu - lu, 0),
        gap(exact, 0) <= span,
        0x20_0000_0000_0000 * gap(fw, exact) <= span,
        0x20_0000_0000_0000 * gap(pu, fw) <= gap(fw, 0) + 0x10_0000_0000_0000 * u,
        0x20_0000_0000_0000 * gap(d, pu) <= gap(lu + pu, 0),
    ensures
        0x4_0000_0000_0000 * gap(d, exact) <= gap(lu, 0) + 2 * gap(hu, 0) + 0x4_0000_0000_0000 * u,
{
    assert(gap(d, exact) <= gap(d, pu) + gap(pu, fw) + gap(fw, exact));
    assert(gap(fw, 0) <= gap(exact, 0) + gap(fw, exact));
    assert(gap(lu + pu, 0) <= gap(lu, 0) + gap(pu, fw) + gap(fw, 0));
    assert(span <= gap(lu, 0) + gap(hu, 0));
}

/// The cuts of a layer's edge go evenly over the sweep, from half of it before
/// the middle direction to half of it behind.
#[verifier::rlimit(50)]
pub proof fn law_cuts_go_over_the_sweep(base_angle: Double, sweep: Double, s: int)
    requires
        0 <= s <= 24,
        base_angle.finite(),
        gap(base_angle.val(), 0) <= 8 * one_unit(),
        sweep.finite(),
        0 <= sweep.val() <= 8 * one_unit(),
    ensures
        0x1_0000_0000 * gap(
            24 * (cut_direction(base_angle, sweep, s).val() - base_angle.val()),
            (s - 12) * sweep.val(),
        ) <= one_unit(),
{
    let u = one_unit() as int;
    let (p, h) = (prod(cut_share(s), sweep), half(sweep));
    lemma_large_unit();
    lemma_cut_part(sweep, s);
    lemma_half_near(sweep);
    assert(opposite(h).val() == -h.val() && opposite(h).finite());
    lemma_small_sum(base_angle, opposite(h));
    lemma_diff_near(base_angle, h);
    let d = diff(base_angle, h);
    lemma_small_sum(d, p);
    lemma_sum_near(d, p);
    let ss = s * sweep.val();
    assert((s - 12) * sweep.val() == ss - 12 * sweep.val()) by (nonlinear_arith)
        requires
            ss == s * sweep.val(),
    ;
    lemma_cut_sums(sum(d, p).val(), d.val(), p.val(), h.val(), base_angle.val(), sweep.val(), ss, u);
}

proof fn lemma_cut_sums(c: int, d: int, p: int, h: int, base: int, sweep: int, ss: int, u: int)
    requires
        u >= 0x10_0000_0000_0000_0000_0000,
        gap(base, 0) <= 8 * u,
        0 <= sweep <= 8 * u,
        gap(p, 0) <= 9 * u,
        gap(2 * h, sweep) <= 1,
        0x20_0000_0000_0000 * gap(24 * p, ss) <= 1024 * u,
        0x20_0000_0000_0000 * gap(d, base - h) <= gap(base - h, 0),
        0x20_0000_0000_0000 * gap(c, d + p) <= gap(d + p, 0),
    ensures
        0x1_0000_0000 * gap(24 * (c - base), ss - 12 * sweep) <= u,
{
    assert(gap(base - h, 0) <= 13 * u);
    assert(gap(d + p, 0) <= 23 * u);
    assert(gap(24 * (c - base), ss - 12 * sweep) <= 24 * gap(c, d + p) + 24 * gap(d, base - h) + gap(24 * p, ss) + 12
        * gap(2 * h, sweep));
}

proof fn lemma_cut_part(sweep: Double, s: int)
    requires
        0 <= s <= 24,
        sweep.finite(),
        0 <= sweep.val() <= 8 * one_unit(),
    ensures
        prod(cut_share(s), sweep).finite(),
        gap(prod(cut_share(s), sweep).val(), 0) <= 9 * one_unit(),
        0x20_0000_0000_0000 * gap(24 * prod(cut_share(s), sweep).val(), s * sweep.val()) <= 1024 * one_unit(),
{
    let u = one_unit() as int;
    let q = cut_share(s);
    lemma_large_unit();
    let (ss, us) = (s * sweep.val(), s * u);
    assert(0 <= us <= 24 * u && 0 <= ss <= 24 * sweep.val()) by (nonlinear_arith)
        requires
            ss == s * sweep.val(),
            us == s * u,
            0 <= s <= 24,
            u > 0,
            sweep.val() >= 0,
    ;
    if s == 0 {
        lemma_int_double_exact(0);
        assert(0 * u == 0);
        lemma_quot_by_int(int_double(0), 24);
        lemma_mag_ordered(q.low(), 0);
        lemma_times_zero(sweep, q);
    } else {
        lemma_times_ratio(sweep, s, 24);
    }
}

/// The wave of a layer begins at its phase, and over the whole edge it goes
/// through as many turns as it has bumps.
#[verifier::rlimit(50)]
pub proof fn law_waves_turn_once_for_each_bump(phase: Double, n: int)
    requires
        1 <= n <= 4,
        phase.finite(),
        gap(phase.val(), 0) <= 8 * one_unit(),
    ensures
        wave_turn(int_double(n), phase, 0).val() == phase.val(),
        0x1_0000_0000 * gap(wave_turn(int_double(n), phase, 24).val(), phase.val() + 2 * (n * pi().val()))
            <= one_unit(),
{
    let u = one_unit() as int;
    let freq = int_double(n);
    lemma_large_unit();
    lemma_int_double_exact(n);
    lemma_int_double_exact(0);
    lemma_int_double_exact(2);
    assert(0 * u == 0);
    lemma_pi_moderate();
    // No turn at the beginning.
    let q = cut_share(0);
    lemma_quot_by_int(int_double(0), 24);
    lemma_mag_ordered(q.low(), 0);
    lemma_times_zero(freq, q);
    let a = prod(q, freq);
    lemma_times_zero(pi(), a);
    lemma_times_zero(int_double(2), prod(a, pi()));
    lemma_plus_zero(phase, prod(prod(a, pi()), int_double(2)));
    // All turns at the end.
    lemma_exact_quotient(1, 24);
    lemma_times_one(freq);
    assert(n * u <= 0x1_0000_0000 * u && n * u >= 0) by (nonlinear_arith)
        requires
            1 <= n <= 4,
            u > 0,
    ;
    lemma_small_product(freq, pi());
    lemma_prod_commutes(freq, pi());
    lemma_prod_by_int(pi(), n);
    let b = prod(freq, pi());
    let np = pi().val() * n;
    assert(np == n * pi().val() && 0 <= np <= 16 * u) by (nonlinear_arith)
        requires
            np == pi().val() * n,
            0 <= pi().val() <= 4 * u,
            1 <= n <= 4,
    ;
    lemma_small_product(b, int_double(2));
    lemma_prod_by_int(b, 2);
    let c = prod(b, int_double(2));
    lemma_small_sum(c, phase);
    lemma_sum_near(c, phase);
}

/// The edge of a layer is at its radius where the wave is level, and farther
/// out or in by the amplitude where it is highest or lowest, but never nearer
/// to the focus than one.
pub proof fn law_edges_swing_around_the_radius(layer: WaveLayer, wave: Double)
    requires
        layer.radius.finite(),
        layer.amplitude.finite(),
        wave.finite(),
        wave.mag() <= one_unit(),
        sum(layer.radius, prod(wave, layer.amplitude)).finite(),
    ensures
        ({
            let (r, u) = (edge_radius(layer, wave), one_unit() as int);
            let swing = wave.val() * layer.amplitude.val();
            &&& le(int_double(1), r)
            &&& r == int_double(1) || 0x4_0000_0000_0000 * gap((r.val() - layer.radius.val()) * u, swing) <= gap(
                layer.radius.val() * u,
                0,
            ) + 2 * gap(swing, 0) + 0x4_0000_0000_0000 * u
        }),
{
    let u = one_unit() as int;
    lemma_pow2_pos(UNIT_EXP as nat);
    lemma_int_double_exact(1);
    lemma_prod_commutes(wave, layer.amplitude);
    lemma_prod_shrinks(layer.amplitude, wave);
    lemma_prod_near(wave, layer.amplitude);
    let (p, s) = (prod(wave, layer.amplitude), sum(layer.radius, prod(wave, layer.amplitude)));
    lemma_sum_near(layer.radius, p);
    lemma_swing(layer.radius.val(), p.val(), s.val(), wave.val() * layer.amplitude.val(), u);
}

proof fn lemma_swing(r: int, p: int, s: int, swing: int, u: int)
    requires
        u > 0,
        0x20_0000_0000_0000 * gap(p * u, swing) <= gap(swing, 0) + 0x10_0000_0000_0000 * u,
        0x20_0000_0000_0000 * gap(s, r + p) <= gap(r + p, 0),
    ensures
        0x4_0000_0000_0000 * gap((s - r) * u, swing) <= gap(r * u, 0) + 2 * gap(swing, 0) + 0x4_0000_0000_0000 * u,
{
    lemma_gap_scales(s, r + p, u);
    lemma_gap_of_product(r + p, u);
    let e = gap(s, r + p);
    assert(0x20_0000_0000_0000 * (e * u) <= gap(r + p, 0) * u) by (nonlinear_arith)
        requires
            0x20_0000_0000_0000 * e <= gap(r + p, 0),
            u > 0,
    ;
    assert((s - r) * u == s * u - r * u && (r + p) * u == r * u + p * u) by (nonlinear_arith);
    lemma_swing_sums(s * u, r * u, p * u, swing, u);
}

proof fn lemma_swing_sums(su: int, ru: int, pu: int, swing: int, u: int)
    requires
        u > 0,
        0x20_0000_0000_0000 * gap(pu, swing) <= gap(swing, 0) + 0x10_0000_0000_0000 * u,
        0x20_0000_0000_0000 * gap(su, ru + pu) <= gap(ru + pu, 0),
    ensures
        0x4_0000_0000_0000 * gap(su - ru, swing) <= gap(ru, 0) + 2 * gap(swing, 0) + 0x4_0000_0000_0000 * u,
{
    assert(gap(su - ru, swing) <= gap(su, ru + pu) + gap(pu, swing));
    assert(gap(ru + pu, 0) <= gap(ru, 0) + gap(swing, 0) + gap(pu, swing));
}

/// A point of an edge lies from the focus in its direction: by the distance
/// times the cosine to the side and times the sine up or down.
pub proof fn law_edges_lie_in_their_direction(focus: Point, r: Double, cosine: Double, sine: Double)
    requires
        focus.x.finite(),
        focus.y.finite(),
        r.finite(),
        cosine.finite(),
        sine.finite(),
        prod(cosine, r).finite(),
        prod(sine, r).finite(),
        point_from(focus, r, cosine, sine).x.finite(),
        point_from(focus, r, cosine, sine).y.finite(),
    ensures
        ({
            let (p, u) = (point_from(focus, r, cosine, sine), one_unit() as int);
            let (cx, sy) = (cosine.val() * r.val(), sine.val() * r.val());
            &&& 0x4_0000_0000_0000 * gap((p.x.val() - focus.x.val()) * u, cx) <= gap(focus.x.val() * u, 0) + 2 * gap(
                cx,
                0,
            ) + 0x4_0000_0000_0000 * u
            &&& 0x4_0000_0000_0000 * gap((p.y.val() - focus.y.val()) * u, sy) <= gap(focus.y.val() * u, 0) + 2 * gap(
                sy,
                0,
            ) + 0x4_0000_0000_0000 * u
        }),
{
    let (p, u) = (point_from(focus, r, cosine, sine), one_unit() as int);
    lemma_pow2_pos(UNIT_EXP as nat);
    lemma_prod_near(cosine, r);
    lemma_prod_near(sine, r);
    lemma_sum_near(focus.x, prod(cosine, r));
    lemma_sum_near(focus.y, prod(sine, r));
    lemma_swing(focus.x.val(), prod(cosine, r).val(), p.x.val(), cosine.val() * r.val(), u);
    lemma_swing(focus.y.val(), prod(sine, r).val(), p.y.val(), sine.val() * r.val(), u);
}

/// A gradient line that spans a canvas has its middle in the middle of the
/// canvas, and its ends lie as far from it as the cosine and sine of its
/// direction take half the diagonal, the second one in that direction.
pub proof fn law_gradient_lines_span_the_canvas(width: Double, height: Double, cosine: Double, sine: Double)
    requires
        ({
            let ends = line_across(width, height, cosine, sine);
            let reach = half(distance(width, height));
            &&& width.finite() && height.finite() && cosine.finite() && sine.finite() && reach.finite()
            &&& prod(cosine, reach).finite() && prod(sine, reach).finite()
            &&& ends.0.x.finite() && ends.0.y.finite() && ends.1.x.finite() && ends.1.y.finite()
        }),
    ensures
        ({
            let ends = line_across(width, height, cosine, sine);
            let reach = half(distance(width, height));
            let (px, py) = (prod(cosine, reach).val(), prod(sine, reach).val());
            &&& spans(ends.0.x, ends.1.x, width, px)
            &&& spans(ends.0.y, ends.1.y, height, py)
        }),
{
    let reach = half(distance(width, height));
    lemma_half_near(width);
    lemma_half_near(height);
    let (px, py) = (prod(cosine, reach), prod(sine, reach));
    lemma_diff_near(half(width), px);
    lemma_sum_near(half(width), px);
    lemma_diff_near(half(height), py);
    lemma_sum_near(half(height), py);
}

/// Whether two ends lie around the middle of an extent, a step before it and a
/// step behind, up to rounding.
pub open spec fn spans(first: Double, last: Double, extent: Double, step: int) -> bool {
    let room = gap(extent.val(), 0) + gap(step, 0) + 0x4_0000_0000_0000 * 2;
    &&& 0x4_0000_0000_0000 * gap(2 * first.val(), extent.val() - 2 * step) <= room
    &&& 0x4_0000_0000_0000 * gap(2 * last.val(), extent.val() + 2 * step) <= room
}

/// The more a background flows, the higher its waves: a twentieth of the
/// outermost radius at the full flow, three tenths of that without any, and in
/// proportion between.
pub proof fn law_waves_rise_with_the_flow(bg: GeneratedBackgroundView, corner: Point, width: Double, height: Double)
    requires
        !bg.flow.nan(),
        fan_of(bg, corner, width, height).max_radius.finite(),
        fan_of(bg, corner, width, height).amplitude.finite(),
    ensures
        ({
            let (fan, u) = (fan_of(bg, corner, width, height), one_unit() as int);
            let (max, f) = (fan.max_radius.val(), clip(bg.flow.val(), 0, u));
            0x10_0000 * gap(200 * (fan.amplitude.val() * u), max * (3 * u + 7 * f)) <= gap(max, 0) * u + 0x10_0000
                * (4000 * u)
        }),
{
    let u = one_unit() as int;
    let fan = fan_of(bg, corner, width, height);
    let (m, w, f) = (fan.max_radius, ratio(5, 100), share(bg.flow));
    lemma_large_unit();
    lemma_share_val(bg.flow);
    lemma_fraction(5, 100);
    lemma_ratio_near(5, 100);
    lemma_prod_shrinks(m, w);
    lemma_part(m, w, 5);
    lemma_flow(f);
    let (a, s) = (prod(m, w), sum(ratio(3, 10), prod(f, ratio(7, 10))));
    lemma_prod_near(a, s);
    lemma_amplitude(m.val(), a.val(), s.val(), f.val(), fan.amplitude.val(), u);
}

/// What a flow is worth.
proof fn lemma_flow(f: Double)
    requires
        f.finite(),
        0 <= f.val() <= one_unit(),
    ensures
        ({
            let s = sum(ratio(3, 10), prod(f, ratio(7, 10)));
            &&& s.finite()
            &&& 0 <= s.val() <= 2 * one_unit()
            &&& 0x1_0000_0000_0000 * gap(10 * s.val(), 3 * one_unit() + 7 * f.val()) <= 32 * one_unit()
        }),
{
    let u = one_unit() as int;
    let (a, w) = (ratio(3, 10), ratio(7, 10));
    lemma_large_unit();
    lemma_ratio_near(3, 10);
    lemma_ratio_near(7, 10);
    lemma_fraction(3, 10);
    lemma_fraction(7, 10);
    lemma_times_ratio(f, 7, 10);
    let p = prod(f, w);
    lemma_prod_commutes(f, w);
    lemma_prod_shrinks(w, f);
    lemma_small_sum(a, p);
    lemma_sum_near(a, p);
}

#[verifier::rlimit(50)]
proof fn lemma_amplitude(max: int, a: int, s: int, f: int, amp: int, u: int)
    requires
        u >= 0x10_0000_0000_0000_0000_0000,
        0 <= f <= u,
        0 <= s <= 2 * u,
        0x1_0000_0000 * gap(100 * a, 5 * max) <= gap(max, 0) + 0x1_0000_0000 * 100,
        0x1_0000_0000_0000 * gap(10 * s, 3 * u + 7 * f) <= 32 * u,
        0x20_0000_0000_0000 * gap(amp * u, a * s) <= gap(a * s, 0) + 0x10_0000_0000_0000 * u,
    ensures
        0x10_0000 * gap(200 * (amp * u), max * (3 * u + 7 * f)) <= gap(max, 0) * u + 0x10_0000 * (4000 * u),
{
    let (t, gm) = (3 * u + 7 * f, gap(max, 0));
    let (mu, e, h) = (gm * u, gap(20 * a, max), gap(10 * s, t));
    assert(5 * e == gap(100 * a, 5 * max));
    lemma_gap_scales(20 * a, max, 10 * s);
    lemma_gap_scales(10 * s, t, max);
    assert(0x1_0000_0000 * (e * (10 * s)) <= 4 * mu + 0x1_0000_0000 * (400 * u)) by (nonlinear_arith)
        requires
            0x1_0000_0000 * (5 * e) <= gm + 0x1_0000_0000 * 100,
            e >= 0,
            0 <= s <= 2 * u,
            mu == gm * u,
    ;
    assert(0x1_0000_0000_0000 * (h * gm) <= 32 * mu) by (nonlinear_arith)
        requires
            0x1_0000_0000_0000 * h <= 32 * u,
            gm >= 0,
            mu == gm * u,
    ;
    let (x, y) = (a * s, max * t);
    assert((20 * a) * (10 * s) == 200 * x && max * (10 * s) == (10 * s) * max && t * max == y) by (nonlinear_arith)
        requires
            x == a * s,
            y == max * t,
    ;
    assert(mu >= 0 && gap(x, 0) <= 2 * (gap(a, 0) * u)) by (nonlinear_arith)
        requires
            mu == gm * u,
            gm >= 0,
            x == a * s,
            0 <= s <= 2 * u,
    ;
    assert(gap(a, 0) * u <= mu + 100 * u) by (nonlinear_arith)
        requires
            20 * gap(a, 0) <= gm + e,
            0x1_0000_0000 * (5 * e) <= gm + 0x1_0000_0000 * 100,
            e >= 0,
            gm >= 0,
            mu == gm * u,
            u > 0,
    ;
    lemma_amplitude_sums(200 * (amp * u), amp * u, x, max * (10 * s), y, mu, u, e * (10 * s), h * gm);
}

proof fn lemma_amplitude_sums(all: int, au: int, x: int, between: int, y: int, mu: int, u: int, p: int, q: int)
    requires
        u > 0,
        mu >= 0,
        all == 200 * au,
        gap(200 * x, between) == p,
        gap(between, y) == q,
        gap(x, 0) <= 2 * mu + 200 * u,
        0x20_0000_0000_0000 * gap(au, x) <= gap(x, 0) + 0x10_0000_0000_0000 * u,
        0x1_0000_0000 * p <= 4 * mu + 0x1_0000_0000 * (400 * u),
        0x1_0000_0000_0000 * q <= 32 * mu,
    ensures
        0x10_0000 * gap(all, y) <= mu + 0x10_0000 * (4000 * u),
{
    assert(gap(all, y) <= 200 * gap(au, x) + p + q);
}


/// A pick among so many falls where its output falls among all outputs, so that
/// each has the same part of them.
#[verifier::rlimit(50)]
pub proof fn law_picks_are_in_proportion(out: u64, len: usize)
    requires
        1 <= len <= 0x10_0000,
    ensures
        ({
            let (n, f, u) = (picked(out, len) as int, fraction(out).val(), one_unit() as int);
            &&& n < len
            &&& 0x1_0000_0000 * (n * u - f * len) <= u
            &&& n == len - 1 || 0x1_0000_0000 * (f * len - (n + 1) * u) <= u
        }),
{
    let u = one_unit() as int;
    let (f, l) = (fraction(out), len as int);
    lemma_large_unit();
    lemma_fraction_val(out);
    lemma_int_double_exact(l);
    assert(0 <= l * u <= 0x1_0000_0000 * u && l * u <= 0x10_0000 * u) by (nonlinear_arith)
        requires
            0 <= l <= 0x10_0000,
            u > 0,
    ;
    lemma_small_product(f, int_double(l));
    lemma_prod_by_int(f, l);
    let p = prod(f, int_double(l));
    let fl = f.val() * l;
    assert(0 <= fl <= l * u) by (nonlinear_arith)
        requires
            fl == f.val() * l,
            0 <= f.val() <= u,
            l >= 0,
    ;
    let m = p.mag() as int;
    vstd::arithmetic::div_mod::lemma_fundamental_div_mod(m, u);
    vstd::arithmetic::div_mod::lemma_mod_bound(m, u);
    vstd::arithmetic::div_mod::lemma_div_pos_is_pos(m, u);
    let w = m / u;
    assert(u * w == w * u && (w + 1) * u == w * u + u) by (nonlinear_arith);
    let n = picked(out, len) as int;
    assert(n <= w);
    assert(n * u <= w * u) by (nonlinear_arith)
        requires
            n <= w,
            u > 0,
    ;
}

} // verus!
