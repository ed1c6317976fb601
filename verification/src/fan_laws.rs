//! What a generated background promises: where its fan of layers sits, how far
//! it reaches, and what each of the knobs changes.
use crate::arith_laws::{
    lemma_fraction, lemma_int_double_exact, lemma_round_bounded, lemma_round_units_exact, lemma_round_units_monotone,
    lemma_sum_monotone, lemma_sum_val,
};
use crate::double::{diff, lemma_mag_ordered, one_unit, opposite, prod, quot, sum, Double, UNIT_EXP};
use crate::generator::{canvas_corners, distance, focus_of, half, outward, shift, squared, Point};
use crate::model::background::GeneratedBackgroundView;
use crate::near_laws::{
    lemma_gap_of_product, lemma_gap_scales, lemma_half_near, lemma_plus_zero, lemma_prod_by_int, lemma_prod_monotone,
    lemma_prod_near, lemma_quot_near, lemma_same_value, lemma_sum_exact, lemma_sum_near, lemma_times_one,
    lemma_times_zero,
};
use crate::order::{le, same};
use crate::palette::share;
use crate::palette_laws::lemma_share_ends;
use crate::preset_laws::gap;
use crate::whole::{int_double, ratio};
use vstd::arithmetic::power2::*;
use vstd::prelude::*;

verus! {

/// How far the lean to the corner lets the focus out: all the way at none, not
/// at all at a full one, and ever less between.
#[verifier::rlimit(50)]
pub proof fn lemma_way_out(bias: Double)
    requires
        !bias.nan(),
    ensures
        ({
            let way = diff(int_double(1), share(bias));
            &&& way.finite()
            &&& !way.neg()
            &&& 0 <= way.val() <= one_unit()
            &&& le(bias, int_double(0)) ==> way == int_double(1)
            &&& le(int_double(1), bias) ==> way.val() == 0
        }),
{
    let (s, one) = (share(bias), int_double(1));
    let way = diff(one, s);
    lemma_int_double_exact(0);
    lemma_int_double_exact(1);
    lemma_pow2_pos(UNIT_EXP as nat);
    assert(0 * one_unit() == 0);
    lemma_mag_ordered(bias.low(), one.low());
    assert(s.finite() && 0 <= s.val() <= one_unit());
    assert(opposite(s).val() == -s.val() && opposite(s).finite());
    lemma_sum_val(one, opposite(s));
    lemma_round_units_monotone(0, one.val() - s.val());
    lemma_round_units_monotone(one.val() - s.val(), one.val());
    lemma_round_units_exact(one);
    lemma_round_units_exact(int_double(0));
    lemma_mag_ordered(way.low(), one.low());
    assert(!way.neg()) by {
        reveal(sum);
        lemma_round_bounded((one.val() - s.val()) as nat, 1);
    }
    if le(bias, int_double(0)) {
        lemma_plus_zero(one, s);
        lemma_same_value(way, one);
    }
    if le(one, bias) {
        lemma_sum_exact(one, opposite(s), int_double(0));
    }
}

/// A focus that is not shifted.
proof fn lemma_no_shift(offset: Double, extent: Double)
    requires
        offset.finite(),
        offset.val() == 0,
        extent.finite(),
    ensures
        shift(offset, extent).finite(),
        shift(offset, extent).val() == 0,
{
    lemma_int_double_exact(-1);
    lemma_int_double_exact(1);
    lemma_pow2_pos(UNIT_EXP as nat);
    lemma_times_zero(extent, offset);
    lemma_fraction(5, 10);
    lemma_times_zero(ratio(5, 10), prod(offset, extent));
}

/// Whether a canvas and a background's numbers are ones to draw with: all
/// finite, the diagonal too.
pub open spec fn drawable(bg: GeneratedBackgroundView, corner: Point, width: Double, height: Double) -> bool {
    let d = distance(half(width), half(height));
    let out = outward(corner, Point { x: half(width), y: half(height) });
    let reach = prod(d, int_double(6));
    &&& width.finite() && height.finite() && corner.x.finite() && corner.y.finite()
    &&& bg.corner_bias.finite() && bg.offset_x.finite() && bg.offset_y.finite()
    &&& d.finite() && !d.neg() && reach.finite() && !reach.neg()
    &&& out.x.finite() && out.y.finite()
    &&& prod(out.x, reach).finite() && prod(out.y, reach).finite()
}

/// A background that leans to the corner fully has its focus in the corner.
pub proof fn law_full_lean_puts_the_focus_in_the_corner(
    bg: GeneratedBackgroundView,
    corner: Point,
    width: Double,
    height: Double,
)
    requires
        drawable(bg, corner, width, height),
        bg.offset_x.val() == 0,
        bg.offset_y.val() == 0,
        le(int_double(1), bg.corner_bias),
    ensures
        same(focus_of(bg, corner, width, height).x, corner.x),
        same(focus_of(bg, corner, width, height).y, corner.y),
{
    let out = outward(corner, Point { x: half(width), y: half(height) });
    let way = diff(int_double(1), share(bg.corner_bias));
    let far = prod(distance(half(width), half(height)), int_double(6));
    lemma_way_out(bg.corner_bias);
    lemma_no_shift(bg.offset_x, width);
    lemma_no_shift(bg.offset_y, height);
    lemma_times_zero(far, way);
    let reach = prod(far, way);
    lemma_times_zero(out.x, reach);
    lemma_times_zero(out.y, reach);
    lemma_plus_zero(corner.x, prod(out.x, reach));
    lemma_plus_zero(corner.y, prod(out.y, reach));
    lemma_plus_zero(sum(corner.x, prod(out.x, reach)), shift(bg.offset_x, width));
    lemma_plus_zero(sum(corner.y, prod(out.y, reach)), shift(bg.offset_y, height));
}

/// Whether `v` lies between `a` and `b`, in either order.
pub open spec fn between(a: Double, v: Double, b: Double) -> bool {
    (le(a, v) && le(v, b)) || (le(b, v) && le(v, a))
}

#[verifier::rlimit(50)]
proof fn lemma_lean_draws_in(start: Double, out: Double, far: Double, near: Double, shift: Double)
    requires
        start.finite(),
        out.finite(),
        far.finite(),
        near.finite(),
        shift.finite(),
        !far.neg(),
        !near.neg(),
        near.val() <= far.val(),
        prod(out, far).finite(),
        sum(start, prod(out, far)).finite(),
        sum(sum(start, prod(out, far)), shift).finite(),
    ensures
        between(
            sum(start, shift),
            sum(sum(start, prod(out, near)), shift),
            sum(sum(start, prod(out, far)), shift),
        ),
{
    let (p, q) = (prod(out, near), prod(out, far));
    let (a, b) = (sum(start, p), sum(start, q));
    lemma_prod_monotone(out, near, far);
    lemma_sum_val(start, p);
    lemma_sum_val(start, q);
    lemma_round_units_exact(start);
    lemma_mag_ordered(a.low(), b.low());
    lemma_mag_ordered(a.low(), start.low());
    if out.neg() {
        lemma_round_units_monotone(start.val() + q.val(), start.val() + p.val());
        lemma_round_units_monotone(start.val() + p.val(), start.val());
    } else {
        lemma_round_units_monotone(start.val() + p.val(), start.val() + q.val());
        lemma_round_units_monotone(start.val(), start.val() + p.val());
    }
    assert(a.finite());
    if out.neg() {
        lemma_sum_monotone(b, a, shift);
        lemma_sum_monotone(a, start, shift);
    } else {
        lemma_sum_monotone(a, b, shift);
        lemma_sum_monotone(start, a, shift);
    }
}

/// The more a background leans to the corner, the nearer its focus is to it:
/// with more lean the focus lies, in both directions, between where it lay and
/// the corner, with the shift that both have.
#[verifier::rlimit(50)]
pub proof fn law_lean_draws_the_focus_to_the_corner(
    more: GeneratedBackgroundView,
    less: GeneratedBackgroundView,
    corner: Point,
    width: Double,
    height: Double,
)
    requires
        drawable(more, corner, width, height),
        drawable(less, corner, width, height),
        le(less.corner_bias, more.corner_bias),
        more.offset_x == less.offset_x,
        more.offset_y == less.offset_y,
        shift(more.offset_x, width).finite(),
        shift(more.offset_y, height).finite(),
        ({
            let out = outward(corner, Point { x: half(width), y: half(height) });
            let far = prod(distance(half(width), half(height)), int_double(6));
            sum(corner.x, prod(out.x, prod(far, diff(int_double(1), share(less.corner_bias))))).finite() && sum(
                corner.y,
                prod(out.y, prod(far, diff(int_double(1), share(less.corner_bias)))),
            ).finite()
        }),
        focus_of(less, corner, width, height).x.finite(),
        focus_of(less, corner, width, height).y.finite(),
    ensures
        ({
            let (a, b) = (focus_of(more, corner, width, height), focus_of(less, corner, width, height));
            &&& between(sum(corner.x, shift(more.offset_x, width)), a.x, b.x)
            &&& between(sum(corner.y, shift(more.offset_y, height)), a.y, b.y)
        }),
{
    let out = outward(corner, Point { x: half(width), y: half(height) });
    let far = prod(distance(half(width), half(height)), int_double(6));
    lemma_ways_shrink(far, less.corner_bias, more.corner_bias);
    let near = prod(far, diff(int_double(1), share(more.corner_bias)));
    let wide = prod(far, diff(int_double(1), share(less.corner_bias)));
    lemma_prod_monotone(out.x, wide, far);
    lemma_prod_monotone(out.y, wide, far);
    lemma_lean_draws_in(corner.x, out.x, wide, near, shift(more.offset_x, width));
    lemma_lean_draws_in(corner.y, out.y, wide, near, shift(more.offset_y, height));
}

/// The more lean, the shorter the way out, and the whole of it at most.
#[verifier::rlimit(50)]
proof fn lemma_ways_shrink(far: Double, less: Double, more: Double)
    requires
        far.finite(),
        !far.neg(),
        less.finite(),
        more.finite(),
        le(less, more),
    ensures
        ({
            let near = prod(far, diff(int_double(1), share(more)));
            let wide = prod(far, diff(int_double(1), share(less)));
            &&& near.finite() && wide.finite()
            &&& !near.neg() && !wide.neg()
            &&& near.val() <= wide.val() <= far.val()
        }),
{
    let (m, l) = (diff(int_double(1), share(more)), diff(int_double(1), share(less)));
    lemma_ways_ordered(less, more);
    lemma_int_double_exact(1);
    lemma_times_one(far);
    lemma_prod_monotone(far, m, l);
    lemma_prod_monotone(far, l, int_double(1));
}

#[verifier::rlimit(50)]
proof fn lemma_ways_ordered(less: Double, more: Double)
    requires
        less.finite(),
        more.finite(),
        le(less, more),
    ensures
        ({
            let (m, l) = (diff(int_double(1), share(more)), diff(int_double(1), share(less)));
            &&& m.finite() && l.finite()
            &&& !m.neg() && !l.neg()
            &&& m.val() <= l.val() <= one_unit()
        }),
{
    let (s, t) = (share(more), share(less));
    lemma_way_out(more);
    lemma_way_out(less);
    lemma_share_ends(more);
    lemma_share_ends(less);
    lemma_int_double_exact(0);
    lemma_int_double_exact(1);
    lemma_pow2_pos(UNIT_EXP as nat);
    assert(0 * one_unit() == 0);
    assert(t.val() <= s.val());
    assert(opposite(s).val() == -s.val() && opposite(t).val() == -t.val());
    lemma_sum_val(int_double(1), opposite(s));
    lemma_sum_val(int_double(1), opposite(t));
    lemma_round_units_monotone(one_unit() - s.val(), one_unit() - t.val());
}

/// A square knows no sign.
proof fn lemma_square_of_magnitude(a: Double, b: Double)
    requires
        a.finite(),
        b.finite(),
        a.mag() == b.mag(),
    ensures
        squared(a) == squared(b),
{
    reveal(prod);
}

/// The step from the middle of a stretch to one of its ends.
proof fn lemma_half_step(end: Double, extent: Double)
    requires
        extent.finite(),
        !extent.neg(),
        extent.val() >= one_unit(),
        end == extent || end == int_double(0),
    ensures
        half(extent).finite(),
        diff(end, half(extent)).finite(),
        diff(end, half(extent)).mag() == half(extent).mag(),
        2 * diff(end, half(extent)).val() == 2 * end.val() - extent.val(),
{
    let h = half(extent);
    lemma_int_double_exact(0);
    assert(0 * one_unit() == 0);
    lemma2_to64();
    lemma2_to64_rest();
    crate::rounding::lemma_pow2_le(64, UNIT_EXP as nat);
    lemma_half_near(extent);
    assert(opposite(h).val() == -h.val() && opposite(h).finite());
    if end == extent {
        lemma_sum_exact(end, opposite(h), h);
    } else {
        lemma_sum_exact(end, opposite(h), opposite(h));
    }
}

/// Six times as far, in whole numbers: `d` is the half-diagonal, `x` a step
/// from the middle to a corner, `q` the step's share of the half-diagonal, `r`
/// six half-diagonals and `p` the way out.
#[verifier::rlimit(50)]
proof fn lemma_six_times(u: int, d: int, x: int, q: int, r: int, p: int)
    requires
        u >= 0x1_0000_0000_0000_0000,
        d >= u,
        0x20_0000_0000_0000 * gap(q * d, x * u) <= gap(x * u, 0) + 0x10_0000_0000_0000 * d,
        0x20_0000_0000_0000 * gap(r, 6 * d) <= 6 * d + 0x10_0000_0000_0000,
        0x20_0000_0000_0000 * gap(p * u, q * r) <= gap(q * r, 0) + 0x10_0000_0000_0000 * u,
    ensures
        0x4_0000_0000_0000 * gap(p * u, 6 * (x * u)) <= 6 * gap(x * u, 0) + 0x4_0000_0000_0000 * (8 * d + u),
{
    let (qr, qd, xu) = (q * r, q * d, x * u);
    // What replacing `r` by `6 * d` changes.
    assert(gap(qr, 6 * qd) == gap(r, 6 * d) * gap(q, 0)) by {
        lemma_gap_scales(r, 6 * d, q);
        assert(q * (6 * d) == 6 * qd) by (nonlinear_arith)
            requires
                qd == q * d,
        ;
    }
    let (g, e) = (gap(q, 0), gap(r, 6 * d));
    lemma_gap_of_product(q, d);
    assert(gap(qd, 0) == g * d);
    assert(0x10_0000_0000_0000 <= d);
    assert(0x20_0000_0000_0000 * e <= 7 * d);
    assert(0x20_0000_0000_0000 * (e * g) <= 7 * (g * d)) by (nonlinear_arith)
        requires
            0x20_0000_0000_0000 * e <= 7 * d,
            g >= 0,
    ;
    assert(0x20_0000_0000_0000 * gap(qr, 6 * qd) <= 7 * gap(qd, 0));
    lemma_six_sums(p * u, qr, qd, xu, d, u);
}

#[verifier::rlimit(50)]
proof fn lemma_six_sums(pu: int, qr: int, qd: int, xu: int, d: int, u: int)
    requires
        u > 0,
        d > 0,
        0x20_0000_0000_0000 * gap(qd, xu) <= gap(xu, 0) + 0x10_0000_0000_0000 * d,
        0x20_0000_0000_0000 * gap(qr, 6 * qd) <= 7 * gap(qd, 0),
        0x20_0000_0000_0000 * gap(pu, qr) <= gap(qr, 0) + 0x10_0000_0000_0000 * u,
    ensures
        0x4_0000_0000_0000 * gap(pu, 6 * xu) <= 6 * gap(xu, 0) + 0x4_0000_0000_0000 * (8 * d + u),
{
    assert(gap(pu, 6 * xu) <= gap(pu, qr) + gap(qr, 6 * qd) + 6 * gap(qd, xu));
    assert(gap(qd, 0) <= gap(xu, 0) + gap(qd, xu));
    assert(gap(qr, 0) <= 6 * gap(qd, 0) + gap(qr, 6 * qd));
}

/// Whether a coordinate lies six times as far from a corner as the corner from
/// the middle of the canvas, on the same side, up to rounding.
pub open spec fn six_times_out(at: Double, corner: Double, extent: Double, half_diagonal: Double) -> bool {
    let u = one_unit() as int;
    0x1_0000_0000_0000 * gap(at.val() * u, corner.val() * u + 3 * (2 * corner.val() - extent.val()) * u)
        <= 8 * gap(corner.val() * u, 0) + 8 * gap(extent.val() * u, 0) + 0x1_0000_0000_0000 * (16
        * half_diagonal.val() + 4 * u)
}

#[verifier::rlimit(50)]
proof fn lemma_six_out(corner: Double, extent: Double, d: Double)
    requires
        extent.finite(),
        !extent.neg(),
        extent.val() >= one_unit(),
        corner == extent || corner == int_double(0),
        d.finite(),
        d.val() >= one_unit(),
        ({
            let q = quot(diff(corner, half(extent)), d);
            let r = prod(d, int_double(6));
            q.finite() && r.finite() && prod(q, r).finite() && sum(corner, prod(q, r)).finite()
        }),
    ensures
        six_times_out(
            sum(corner, prod(quot(diff(corner, half(extent)), d), prod(d, int_double(6)))),
            corner,
            extent,
            d,
        ),
{
    let u = one_unit() as int;
    let x = diff(corner, half(extent));
    let q = quot(x, d);
    let r = prod(d, int_double(6));
    let p = prod(q, r);
    let f = sum(corner, p);
    lemma_int_double_exact(0);
    lemma2_to64();
    lemma2_to64_rest();
    crate::rounding::lemma_pow2_le(64, UNIT_EXP as nat);
    lemma_half_step(corner, extent);
    lemma_quot_near(x, d);
    lemma_prod_by_int(d, 6);
    lemma_prod_near(q, r);
    assert(d.val() * 6 == 6 * d.val());
    lemma_six_times(u, d.val(), x.val(), q.val(), r.val(), p.val());
    lemma_sum_near(corner, p);
    let (c, e) = (corner.val(), extent.val());
    let (fu, cu, pu, xu, eu) = (f.val() * u, c * u, p.val() * u, x.val() * u, e * u);
    assert(3 * (2 * c - e) * u == 6 * xu && 6 * xu == 6 * cu - 3 * eu) by (nonlinear_arith)
        requires
            2 * x.val() == 2 * c - e,
            xu == x.val() * u,
            cu == c * u,
            eu == e * u,
    ;
    lemma_gap_scales(f.val(), c + p.val(), u);
    lemma_gap_of_product(c + p.val(), u);
    assert((c + p.val()) * u == cu + pu) by (nonlinear_arith)
        requires
            cu == c * u,
            pu == p.val() * u,
    ;
    let g = gap(f.val(), c + p.val());
    assert(0x20_0000_0000_0000 * (g * u) <= gap(c + p.val(), 0) * u) by (nonlinear_arith)
        requires
            0x20_0000_0000_0000 * g <= gap(c + p.val(), 0),
            u > 0,
    ;
    lemma_six_ends(fu, cu, pu, xu, eu, d.val(), u);
}

#[verifier::rlimit(50)]
proof fn lemma_six_ends(fu: int, cu: int, pu: int, xu: int, eu: int, d: int, u: int)
    requires
        u > 0,
        d > 0,
        6 * xu == 6 * cu - 3 * eu,
        0x20_0000_0000_0000 * gap(fu, cu + pu) <= gap(cu + pu, 0),
        0x4_0000_0000_0000 * gap(pu, 6 * xu) <= 6 * gap(xu, 0) + 0x4_0000_0000_0000 * (8 * d + u),
    ensures
        0x1_0000_0000_0000 * gap(fu, cu + 6 * xu) <= 8 * gap(cu, 0) + 8 * gap(eu, 0) + 0x1_0000_0000_0000 * (16 * d + 4
            * u),
{
    assert(gap(fu, cu + 6 * xu) <= gap(fu, cu + pu) + gap(pu, 6 * xu));
    assert(gap(cu + pu, 0) <= gap(cu, 0) + 6 * gap(xu, 0) + gap(pu, 6 * xu));
    assert(2 * gap(xu, 0) <= 2 * gap(cu, 0) + gap(eu, 0));
}

/// A background that does not lean to the corner at all has its focus six
/// half-diagonals out from it, along the diagonal: six times as far from the
/// corner as the corner is from the middle, in both directions.
#[verifier::rlimit(50)]
pub proof fn law_no_lean_puts_the_focus_far_out(
    bg: GeneratedBackgroundView,
    corner: Point,
    width: Double,
    height: Double,
)
    requires
        drawable(bg, corner, width, height),
        canvas_corners(width, height).contains(corner),
        width.val() >= one_unit(),
        height.val() >= one_unit(),
        distance(half(width), half(height)).val() >= one_unit(),
        bg.offset_x.val() == 0,
        bg.offset_y.val() == 0,
        le(bg.corner_bias, int_double(0)),
        focus_of(bg, corner, width, height).x.finite(),
        focus_of(bg, corner, width, height).y.finite(),
    ensures
        ({
            let (focus, d) = (focus_of(bg, corner, width, height), distance(half(width), half(height)));
            &&& six_times_out(focus.x, corner.x, width, d)
            &&& six_times_out(focus.y, corner.y, height, d)
        }),
{
    let center = Point { x: half(width), y: half(height) };
    let d = distance(half(width), half(height));
    let (dx, dy) = (diff(corner.x, center.x), diff(corner.y, center.y));
    let far = prod(d, int_double(6));
    let corners = canvas_corners(width, height);
    let k = choose|k: int| 0 <= k < corners.len() && corners[k] == corner;
    lemma_int_double_exact(1);
    lemma_pow2_pos(UNIT_EXP as nat);
    assert(corner.x == width || corner.x == int_double(0));
    assert(corner.y == height || corner.y == int_double(0));
    lemma_half_step(corner.x, width);
    lemma_half_step(corner.y, height);
    lemma_square_of_magnitude(dx, half(width));
    lemma_square_of_magnitude(dy, half(height));
    assert(distance(dx, dy) == d);
    lemma_way_out(bg.corner_bias);
    lemma_times_one(far);
    lemma_no_shift(bg.offset_x, width);
    lemma_no_shift(bg.offset_y, height);
    let (px, py) = (prod(quot(dx, d), far), prod(quot(dy, d), far));
    let (fx, fy) = (sum(corner.x, px), sum(corner.y, py));
    lemma_unshifted(fx, shift(bg.offset_x, width));
    lemma_unshifted(fy, shift(bg.offset_y, height));
    lemma_sum_val(corner.x, px);
    lemma_sum_val(corner.y, py);
    lemma_six_out(corner.x, width, d);
    lemma_six_out(corner.y, height, d);
}

/// What no shift leaves finite was finite, and stays where it was.
proof fn lemma_unshifted(a: Double, z: Double)
    requires
        z.finite(),
        z.val() == 0,
        sum(a, z).finite(),
    ensures
        a.finite(),
        sum(a, z).val() == a.val(),
{
    if !a.finite() {
        reveal(sum);
    }
    lemma_plus_zero(a, z);
}

} // verus!
