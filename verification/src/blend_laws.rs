//! What blends and layers promise: colors and radii that go evenly from one end
//! to the other, layers that let through what they say, and regions that count
//! most in their middle.
use crate::arith_laws::{
    lemma_fraction, lemma_int_double_exact, lemma_round_bounded, lemma_round_exact, lemma_round_monotone,
    lemma_sum_val,
};
use crate::double::{diff, lemma_mag_ordered, one_unit, opposite, prod, quot, signed, sum, Double, UNIT_EXP};
use crate::generator::{
    blend, color_along, cover, coverage, distance, half, layer_of, squared, Point, ScreenshotRegion, WaveFan,
};
use crate::layout::{greatest, lemma_greatest};
use crate::model::Rgba;
use crate::model::background::GeneratedBackgroundView;
use crate::near_laws::{
    lemma_diff_near, lemma_gap_of_product, lemma_gap_scales, lemma_plus_zero, lemma_prod_monotone, lemma_prod_near,
    lemma_prod_shrinks, lemma_quot_by_int, lemma_same_value, lemma_sum_exact, lemma_sum_near, lemma_times_one,
    lemma_times_zero,
};
use crate::order::{larger, le, same};
use crate::palette::share;
use crate::palette_laws::{lemma_ratio_near, lemma_rest, lemma_share_ends};
use crate::preset_laws::gap;
use crate::root::{floor_root, lemma_floor_root, round_root, square_root};
use crate::rounding::round_low;
use crate::whole::{int_double, ratio, whole, Rounding};
use vstd::arithmetic::div_mod::*;
use vstd::arithmetic::power2::*;
use vstd::prelude::*;

verus! {

/// Whether `x` lies at the share `t` of the way from `a` to `b`, up to rounding.
pub open spec fn is_on_the_way(x: int, a: int, b: int, t: int) -> bool {
    let u = one_unit() as int;
    0x1_0000_0000_0000 * gap(x * u, a * (u - t) + b * t) <= gap(a, 0) * u + gap(b, 0) * u + 0x1_0000_0000_0000 * u
}

/// A blend of two numbers.
#[verifier::rlimit(50)]
proof fn lemma_on_the_way(a: Double, b: Double, t: Double)
    requires
        a.finite(),
        b.finite(),
        t.finite(),
        0 <= t.val() <= one_unit(),
        diff(b, a).finite(),
        sum(a, prod(diff(b, a), t)).finite(),
    ensures
        is_on_the_way(sum(a, prod(diff(b, a), t)).val(), a.val(), b.val(), t.val()),
{
    let u = one_unit() as int;
    lemma_pow2_pos(UNIT_EXP as nat);
    let d = diff(b, a);
    let p = prod(d, t);
    let x = sum(a, p);
    lemma_diff_near(b, a);
    lemma_prod_shrinks(d, t);
    lemma_prod_near(d, t);
    lemma_sum_near(a, p);
    let (av, bv, tv) = (a.val(), b.val(), t.val());
    let (ga, gb) = (gap(av, 0) * u, gap(bv, 0) * u);
    lemma_gap_scales(d.val(), bv - av, tv);
    let g = gap(d.val(), bv - av);
    let span = gap(bv - av, 0);
    assert(0x20_0000_0000_0000 * (g * tv) <= span * u && span * u <= ga + gb) by (nonlinear_arith)
        requires
            0x20_0000_0000_0000 * g <= span,
            0 <= tv <= u,
            g >= 0,
            span <= gap(av, 0) + gap(bv, 0),
            ga == gap(av, 0) * u,
            gb == gap(bv, 0) * u,
            u > 0,
    ;
    assert(gap((bv - av) * tv, 0) <= span * u) by {
        lemma_gap_of_product(bv - av, tv);
        assert(span * tv <= span * u) by (nonlinear_arith)
            requires
                0 <= tv <= u,
                span >= 0,
        ;
    }
    lemma_gap_scales(x.val(), av + p.val(), u);
    lemma_gap_of_product(av + p.val(), u);
    let e = gap(x.val(), av + p.val());
    assert(0x20_0000_0000_0000 * (e * u) <= gap(av + p.val(), 0) * u) by (nonlinear_arith)
        requires
            0x20_0000_0000_0000 * e <= gap(av + p.val(), 0),
            u > 0,
    ;
    assert((av + p.val()) * u == av * u + p.val() * u && av * (u - tv) + bv * tv == av * u + (bv - av) * tv)
        by (nonlinear_arith);
    lemma_gap_of_product(av, u);
    lemma_way_sums(x.val() * u, av * u, p.val() * u, d.val() * tv, (bv - av) * tv, ga, gb, u);
}

proof fn lemma_way_sums(xu: int, au: int, pu: int, dt: int, exact: int, ga: int, gb: int, u: int)
    requires
        u > 0,
        ga == gap(au, 0),
        gb >= 0,
        gap(exact, 0) <= ga + gb,
        0x20_0000_0000_0000 * gap(dt, exact) <= ga + gb,
        0x20_0000_0000_0000 * gap(pu, dt) <= gap(dt, 0) + 0x10_0000_0000_0000 * u,
        0x20_0000_0000_0000 * gap(xu, au + pu) <= gap(au + pu, 0),
    ensures
        0x1_0000_0000_0000 * gap(xu, au + exact) <= ga + gb + 0x1_0000_0000_0000 * u,
{
    assert(gap(xu, au + exact) <= gap(xu, au + pu) + gap(pu, dt) + gap(dt, exact));
    assert(gap(dt, 0) <= gap(exact, 0) + gap(dt, exact));
    assert(gap(au + pu, 0) <= ga + gap(pu, dt) + gap(dt, 0));
}

/// Whether the channels of a color are numbers that blend.
pub open spec fn blends(a: Rgba, b: Rgba) -> bool {
    &&& a.r.finite() && a.g.finite() && a.b.finite() && a.a.finite()
    &&& b.r.finite() && b.g.finite() && b.b.finite() && b.a.finite()
    &&& diff(b.r, a.r).finite() && diff(b.g, a.g).finite() && diff(b.b, a.b).finite() && diff(b.a, a.a).finite()
}

/// A blend of two colors lies on the way from the one to the other, in every
/// channel: the first at none of the way and the second at all of it.
pub proof fn law_blends_are_in_proportion(a: Rgba, b: Rgba, t: Double)
    requires
        blends(a, b),
        t.finite(),
        0 <= t.val() <= one_unit(),
        ({
            let c = blend(a, b, t);
            c.r.finite() && c.g.finite() && c.b.finite() && c.a.finite()
        }),
    ensures
        ({
            let c = blend(a, b, t);
            &&& is_on_the_way(c.r.val(), a.r.val(), b.r.val(), t.val())
            &&& is_on_the_way(c.g.val(), a.g.val(), b.g.val(), t.val())
            &&& is_on_the_way(c.b.val(), a.b.val(), b.b.val(), t.val())
            &&& is_on_the_way(c.a.val(), a.a.val(), b.a.val(), t.val())
            &&& t.val() == 0 ==> has_channels(c, a)
        }),
{
    lemma_on_the_way(a.r, b.r, t);
    lemma_on_the_way(a.g, b.g, t);
    lemma_on_the_way(a.b, b.b, t);
    lemma_on_the_way(a.a, b.a, t);
    if t.val() == 0 {
        lemma_no_way(a, b, t);
    }
}

/// Whether a color has the channels of another.
pub open spec fn has_channels(c: Rgba, a: Rgba) -> bool {
    same(c.r, a.r) && same(c.g, a.g) && same(c.b, a.b) && same(c.a, a.a)
}

proof fn lemma_no_way(a: Rgba, b: Rgba, t: Double)
    requires
        blends(a, b),
        t.finite(),
        t.val() == 0,
    ensures
        has_channels(blend(a, b, t), a),
{
    lemma_times_zero(diff(b.r, a.r), t);
    lemma_times_zero(diff(b.g, a.g), t);
    lemma_times_zero(diff(b.b, a.b), t);
    lemma_times_zero(diff(b.a, a.a), t);
    lemma_plus_zero(a.r, prod(diff(b.r, a.r), t));
    lemma_plus_zero(a.g, prod(diff(b.g, a.g), t));
    lemma_plus_zero(a.b, prod(diff(b.b, a.b), t));
    lemma_plus_zero(a.a, prod(diff(b.a, a.a), t));
}

/// A palette begins with its first color and ends with its last, and a share
/// that falls on one of its colors gives that color.
#[verifier::rlimit(50)]
pub proof fn law_palettes_are_followed_from_end_to_end(palette: Seq<Rgba>, t: Double, k: int)
    requires
        2 <= palette.len() <= 0x1_0000_0000,
        0 <= k < palette.len(),
        !t.nan(),
        forall|i: int, j: int|
            0 <= i < palette.len() && 0 <= j < palette.len() ==> blends(#[trigger] palette[i], #[trigger] palette[j]),
    ensures
        le(t, int_double(0)) ==> has_channels(color_along(palette, t), palette[0]),
        le(int_double(1), t) ==> has_channels(color_along(palette, t), palette.last()),
        same(prod(share(t), int_double(palette.len() - 1)), int_double(k)) ==> has_channels(
            color_along(palette, t),
            palette[k],
        ),
{
    let n = palette.len() - 1;
    let u = one_unit() as int;
    lemma_pow2_pos(UNIT_EXP as nat);
    lemma_int_double_exact(0);
    lemma_int_double_exact(1);
    lemma_int_double_exact(n);
    assert(0 * one_unit() == 0);
    lemma_share_ends(t);
    if le(t, int_double(0)) {
        lemma_times_zero(int_double(n), share(t));
        lemma_on_a_color(palette, t, 0);
    }
    if le(int_double(1), t) {
        lemma_times_one(int_double(n));
        lemma_on_a_color(palette, t, n);
    }
    if same(prod(share(t), int_double(n)), int_double(k)) {
        lemma_on_a_color(palette, t, k);
    }
}

proof fn lemma_on_a_color(palette: Seq<Rgba>, t: Double, k: int)
    requires
        2 <= palette.len() <= 0x1_0000_0000,
        0 <= k < palette.len(),
        same(prod(share(t), int_double(palette.len() - 1)), int_double(k)),
        forall|i: int, j: int|
            0 <= i < palette.len() && 0 <= j < palette.len() ==> blends(#[trigger] palette[i], #[trigger] palette[j]),
    ensures
        has_channels(color_along(palette, t), palette[k]),
{
    let u = one_unit() as int;
    let scaled = prod(share(t), int_double(palette.len() - 1));
    lemma_pow2_pos(UNIT_EXP as nat);
    lemma_int_double_exact(k);
    lemma_int_double_exact(0);
    assert(0 * one_unit() == 0);
    lemma_mag_ordered(scaled.low(), int_double(k).low());
    assert(k * u >= 0) by (nonlinear_arith)
        requires
            k >= 0,
            u > 0,
    ;
    assert(scaled.mag() == k * u);
    lemma_fundamental_div_mod_converse(k * u, u, k, 0);
    assert(whole(scaled, Rounding::Down) == k);
    let w = diff(scaled, int_double(k));
    assert(opposite(int_double(k)).val() == -(k * u));
    lemma_sum_exact(scaled, opposite(int_double(k)), int_double(0));
    let j = if k + 1 < palette.len() {
        k + 1
    } else {
        palette.len() - 1
    };
    lemma_no_way(palette[k], palette[j], w);
}

/// The layers lie evenly from the outermost radius to the innermost: the first
/// has the greatest one, the last the least one, and each is as far from the one
/// before as from the one behind.
pub proof fn law_layers_are_evenly_spaced(
    bg: GeneratedBackgroundView,
    palette: Seq<Rgba>,
    fan: WaveFan,
    state: u64,
    i: int,
)
    requires
        4 <= fan.layer_count <= 10,
        0 <= i < fan.layer_count,
        fan.max_radius.finite(),
        fan.min_radius.finite(),
        diff(fan.min_radius, fan.max_radius).finite(),
        layer_of(bg, palette, fan, state, i).radius.finite(),
    ensures
        ({
            let (r, last) = (layer_of(bg, palette, fan, state, i).radius.val(), fan.layer_count - 1);
            let (max, min) = (fan.max_radius.val(), fan.min_radius.val());
            &&& 0x1_0000_0000 * gap(last * r, (last - i) * max + i * min) <= gap(max, 0) + gap(min, 0)
                + 0x1_0000_0000 * 16
            &&& i == 0 ==> r == max
        }),
{
    let u = one_unit() as int;
    let last = fan.layer_count - 1;
    let t = quot(int_double(i), int_double(last));
    let (max, min) = (fan.max_radius.val(), fan.min_radius.val());
    lemma2_to64();
    lemma2_to64_rest();
    crate::rounding::lemma_pow2_le(64, UNIT_EXP as nat);
    lemma_place_of_layer(i, last);
    lemma_on_the_way(fan.max_radius, fan.min_radius, t);
    let r = layer_of(bg, palette, fan, state, i).radius.val();
    lemma_spaced(u, max, min, t.val(), r, last, i);
    if i == 0 {
        let d = diff(fan.min_radius, fan.max_radius);
        lemma_times_zero(d, t);
        lemma_plus_zero(fan.max_radius, prod(d, t));
    }
}

#[verifier::rlimit(50)]
proof fn lemma_spaced(u: int, max: int, min: int, tv: int, r: int, last: int, i: int)
    requires
        u == one_unit(),
        u > 0,
        0 <= last <= 10,
        0x20_0000_0000_0000 * gap(tv * last, i * u) <= 10 * u,
        is_on_the_way(r, max, min, tv),
    ensures
        0x1_0000_0000 * gap(last * r, (last - i) * max + i * min) <= gap(max, 0) + gap(min, 0) + 0x1_0000_0000 * 16,
{
    let (ga, gb) = (gap(max, 0), gap(min, 0));
    let (spread, iu, tl) = (min - max, i * u, tv * last);
    let goal = (last - i) * max + i * min;
    let way = max * (u - tv) + min * tv;
    let base = (last * max) * u;
    lemma_way_times(u, max, min, tv, last, i);
    lemma_gap_scales(tl, iu, spread);
    let (g, gs) = (gap(tl, iu), gap(spread, 0));
    assert(0x20_0000_0000_0000 * (g * gs) <= 10 * (ga * u + gb * u)) by (nonlinear_arith)
        requires
            0x20_0000_0000_0000 * g <= 10 * u,
            0 <= gs <= ga + gb,
            g >= 0,
            u > 0,
    ;
    lemma_gap_scales(r * u, way, last);
    let h = gap(r * u, way);
    assert(0x1_0000_0000_0000 * (h * last) <= 10 * (ga * u + gb * u + 0x1_0000_0000_0000 * u)) by (nonlinear_arith)
        requires
            0x1_0000_0000_0000 * h <= ga * u + gb * u + 0x1_0000_0000_0000 * u,
            0 <= last <= 10,
            h >= 0,
    ;
    lemma_gap_scales(last * r, goal, u);
    let e = gap(last * r, goal);
    assert((r * u) * last == (last * r) * u) by (nonlinear_arith);
    lemma_spaced_sums((last * r) * u, way * last, base + spread * tl, goal * u, h * last, g * gs);
    assert((ga + gb) * u == ga * u + gb * u && (ga + gb) * u >= 0) by (nonlinear_arith)
        requires
            ga >= 0,
            gb >= 0,
            u > 0,
    ;
    lemma_bound(h * last, g * gs, ga * u + gb * u, u);
    lemma_divided(e, u, h * last + g * gs, ga * u + gb * u, ga + gb);
}

proof fn lemma_way_times(u: int, max: int, min: int, tv: int, last: int, i: int)
    ensures
        (max * (u - tv) + min * tv) * last == (last * max) * u + (min - max) * (tv * last),
        ((last - i) * max + i * min) * u == (last * max) * u + (min - max) * (i * u),
{
    let spread = min - max;
    assert((max * (u - tv) + min * tv) == max * u + spread * tv) by (nonlinear_arith)
        requires
            spread == min - max,
    ;
    assert((max * u + spread * tv) * last == (last * max) * u + spread * (tv * last)) by (nonlinear_arith);
    assert((last - i) * max + i * min == last * max + i * spread) by (nonlinear_arith)
        requires
            spread == min - max,
    ;
    assert((last * max + i * spread) * u == (last * max) * u + spread * (i * u)) by (nonlinear_arith);
}

proof fn lemma_spaced_sums(a: int, b: int, c: int, d: int, x: int, y: int)
    requires
        b == c,
        gap(a, b) == x,
        gap(c, d) == y,
    ensures
        gap(a, d) <= x + y,
{
}

proof fn lemma_bound(p: int, q: int, gu: int, u: int)
    requires
        gu >= 0,
        0x1_0000_0000_0000 * p <= 10 * (gu + 0x1_0000_0000_0000 * u),
        0x20_0000_0000_0000 * q <= 10 * gu,
    ensures
        0x1_0000_0000_0000 * (p + q) <= 11 * gu + 0xA_0000_0000_0000 * u,
{
}

proof fn lemma_divided(e: int, u: int, bound: int, gu: int, g: int)
    requires
        u > 0,
        e >= 0,
        g >= 0,
        gu == g * u,
        e * u <= bound,
        0x1_0000_0000_0000 * bound <= 11 * gu + 0xA_0000_0000_0000 * u,
    ensures
        0x1_0000_0000 * e <= g + 0x1_0000_0000 * 16,
{
    assert(0x1_0000_0000 * e <= g + 0x1_0000_0000 * 16) by (nonlinear_arith)
        requires
            0x1_0000_0000_0000 * (e * u) <= 11 * (g * u) + 0xA_0000_0000_0000 * u,
            u > 0,
            e >= 0,
            g >= 0,
    ;
}

/// How far along the layers one is.
proof fn lemma_place_of_layer(i: int, last: int)
    requires
        3 <= last <= 9,
        0 <= i <= last,
    ensures
        ({
            let t = quot(int_double(i), int_double(last));
            &&& t.finite()
            &&& !t.neg()
            &&& 0 <= t.val() <= one_unit()
            &&& 0x20_0000_0000_0000 * gap(t.val() * last, i * one_unit()) <= 10 * one_unit()
            &&& i == 0 ==> t.val() == 0
            &&& i == last ==> t == int_double(1)
        }),
{
    let u = one_unit() as int;
    lemma2_to64();
    lemma2_to64_rest();
    crate::rounding::lemma_pow2_le(64, UNIT_EXP as nat);
    lemma_int_double_exact(i);
    lemma_int_double_exact(1);
    lemma_quot_by_int(int_double(i), last);
    let t = quot(int_double(i), int_double(last));
    assert(0 <= i * u <= last * u && i * u <= 9 * u) by (nonlinear_arith)
        requires
            0 <= i <= last,
            i <= 9,
            u > 0,
    ;
    if i == last {
        lemma_same_value(t, int_double(1));
    }
    if i == 0 {
        assert(0 * u == 0);
        lemma_zero_quotient(int_double(0), last);
    }
}

proof fn lemma_zero_quotient(a: Double, w: int)
    requires
        a.finite(),
        a.val() == 0,
        1 <= w <= 10,
    ensures
        quot(a, int_double(w)).val() == 0,
{
    lemma_quot_by_int(a, w);
    let q = quot(a, int_double(w)).val();
    assert(q == 0) by (nonlinear_arith)
        requires
            0x20_0000_0000_0000 * gap(q * w, 0) <= 0x10_0000_0000_0000 * w,
            1 <= w,
    ;
}

/// The layers let through what is behind them the more, the farther out they
/// are and the higher the contrast: the innermost one is as opaque as its color,
/// and so is every one without contrast. None is more opaque than its color, and
/// at the full contrast the outermost one has seven tenths of its opacity.
#[verifier::rlimit(50)]
pub proof fn law_contrast_lets_outer_layers_shine_through(
    bg: GeneratedBackgroundView,
    palette: Seq<Rgba>,
    fan: WaveFan,
    state: u64,
    i: int,
)
    requires
        4 <= fan.layer_count <= 10,
        0 <= i < fan.layer_count,
        !bg.contrast.nan(),
        layer_of(bg, palette, fan, state, i).color.a.finite(),
        !layer_of(bg, palette, fan, state, i).color.a.neg(),
    ensures
        ({
            let layer = layer_of(bg, palette, fan, state, i);
            &&& le(layer.alpha, layer.color.a)
            &&& i == fan.layer_count - 1 ==> layer.alpha == layer.color.a
            &&& le(bg.contrast, int_double(0)) ==> layer.alpha == layer.color.a
            &&& i == 0 && le(int_double(1), bg.contrast) ==> 0x1_0000_0000 * gap(
                10 * layer.alpha.val(),
                7 * layer.color.a.val(),
            ) <= layer.color.a.val() + 0x1_0000_0000 * 10
        }),
{
    let u = one_unit() as int;
    let last = fan.layer_count - 1;
    let layer = layer_of(bg, palette, fan, state, i);
    let (t, c, one) = (quot(int_double(i), int_double(last)), share(bg.contrast), int_double(1));
    lemma2_to64();
    lemma2_to64_rest();
    crate::rounding::lemma_pow2_le(64, UNIT_EXP as nat);
    lemma_int_double_exact(0);
    lemma_int_double_exact(1);
    assert(0 * one_unit() == 0);
    lemma_place_of_layer(i, last);
    lemma_share_ends(bg.contrast);
    lemma_ratio_near(3, 10);
    lemma_fraction(3, 10);
    let (h, v) = (ratio(3, 10), diff(one, t));
    lemma_rest(t);
    lemma_prod_shrinks(h, c);
    let k = prod(h, c);
    lemma_prod_shrinks(k, v);
    let m = prod(k, v);
    lemma_sign_of_share(h, c);
    lemma_sign_of_share(k, v);
    lemma_rest(m);
    let w = diff(one, m);
    lemma_prod_shrinks(layer.color.a, w);
    lemma_sign_of_rest(m);
    lemma_times_one(layer.color.a);
    if i == last {
        lemma_nothing_of_one(t);
        lemma_times_zero(k, v);
        lemma_all_but_nothing(m);
    }
    if le(bg.contrast, int_double(0)) {
        lemma_times_zero(h, c);
        lemma_times_zero(v, k);
        lemma_all_but_nothing(m);
    }
    if i == 0 && le(one, bg.contrast) {
        lemma_plus_zero(one, t);
        lemma_same_value(v, one);
        lemma_times_one(h);
        lemma_seven_tenths(layer.color.a);
    }
}

proof fn lemma_nothing_of_one(t: Double)
    requires
        t == int_double(1),
    ensures
        diff(int_double(1), t).finite(),
        diff(int_double(1), t).val() == 0,
{
    lemma_int_double_exact(1);
    lemma_int_double_exact(0);
    assert(0 * one_unit() == 0);
    assert(opposite(t).val() == -t.val());
    lemma_sum_exact(int_double(1), opposite(t), int_double(0));
}

proof fn lemma_all_but_nothing(m: Double)
    requires
        m.finite(),
        m.val() == 0,
    ensures
        diff(int_double(1), m) == int_double(1),
{
    lemma_int_double_exact(1);
    lemma_pow2_pos(UNIT_EXP as nat);
    lemma_plus_zero(int_double(1), m);
    lemma_same_value(diff(int_double(1), m), int_double(1));
}

proof fn lemma_sign_of_share(a: Double, b: Double)
    requires
        a.finite(),
        b.finite(),
        a.val() >= 0,
        0 <= b.val() <= one_unit(),
    ensures
        0 <= prod(a, b).val() <= a.val(),
{
    lemma_prod_shrinks(a, b);
    if a.val() == 0 {
        lemma_times_zero(b, a);
    }
    if b.val() == 0 {
        lemma_times_zero(a, b);
    }
}

proof fn lemma_sign_of_rest(m: Double)
    requires
        m.finite(),
        0 <= m.val() <= one_unit(),
    ensures
        !diff(int_double(1), m).neg(),
{
    let one = int_double(1);
    lemma_int_double_exact(1);
    lemma_pow2_pos(UNIT_EXP as nat);
    lemma_round_bounded((one.val() - m.val()) as nat, 1);
    assert(opposite(m).val() == -m.val() && opposite(m).finite());
    reveal(sum);
}

#[verifier::rlimit(50)]
proof fn lemma_seven_tenths(a: Double)
    requires
        a.finite(),
        !a.neg(),
    ensures
        0x1_0000_0000 * gap(10 * prod(a, diff(int_double(1), ratio(3, 10))).val(), 7 * a.val()) <= a.val()
            + 0x1_0000_0000 * 10,
{
    let u = one_unit() as int;
    lemma2_to64();
    lemma2_to64_rest();
    crate::rounding::lemma_pow2_le(64, UNIT_EXP as nat);
    lemma_ratio_near(3, 10);
    lemma_fraction(3, 10);
    let w = diff(int_double(1), ratio(3, 10));
    lemma_rest(ratio(3, 10));
    assert(0x20_0000_0000_0000 * gap(10 * w.val(), 7 * u) <= 20 * u);
    lemma_prod_shrinks(a, w);
    lemma_prod_near(a, w);
    let (p, av, wv) = (prod(a, w).val(), a.val(), w.val());
    lemma_gap_scales(10 * wv, 7 * u, av);
    let g = gap(10 * wv, 7 * u);
    let (aw, au) = (av * wv, av * u);
    assert(0x20_0000_0000_0000 * (g * av) <= 20 * au && 0 <= aw <= au) by (nonlinear_arith)
        requires
            0x20_0000_0000_0000 * g <= 20 * u,
            av >= 0,
            0 <= wv <= u,
            aw == av * wv,
            au == av * u,
    ;
    let (x, y) = (10 * p, 7 * av);
    assert((10 * wv) * av == 10 * aw && (7 * u) * av == y * u && 10 * (p * u) == x * u) by (nonlinear_arith)
        requires
            aw == av * wv,
            x == 10 * p,
            y == 7 * av,
    ;
    lemma_gap_scales(x, y, u);
    lemma_tenth_sums(x * u, p * u, aw, y * u, g * av, au, u);
    lemma_tenth_divided(gap(x, y), u, av);
}

proof fn lemma_tenth_sums(xu: int, pu: int, aw: int, yu: int, ga: int, au: int, u: int)
    requires
        xu == 10 * pu,
        gap(10 * aw, yu) == ga,
        0 <= aw <= au,
        0x20_0000_0000_0000 * ga <= 20 * au,
        0x20_0000_0000_0000 * gap(pu, aw) <= aw + 0x10_0000_0000_0000 * u,
    ensures
        0x20_0000_0000_0000 * gap(xu, yu) <= 30 * au + 0xA0_0000_0000_0000 * u,
{
    assert(gap(xu, yu) <= 10 * gap(pu, aw) + ga);
}

proof fn lemma_tenth_divided(e: int, u: int, a: int)
    requires
        u > 0,
        e >= 0,
        a >= 0,
        0x20_0000_0000_0000 * (e * u) <= 30 * (a * u) + 0xA0_0000_0000_0000 * u,
    ensures
        0x1_0000_0000 * e <= a + 0x1_0000_0000 * 10,
{
    assert(0x1_0000_0000 * e <= a + 0x1_0000_0000 * 10) by (nonlinear_arith)
        requires
            0x20_0000_0000_0000 * (e * u) <= 30 * (a * u) + 0xA0_0000_0000_0000 * u,
            u > 0,
            e >= 0,
            a >= 0,
    ;
}

/// A layer fades out toward its outer end if the background is soft, to six
/// tenths of its own opacity, and else not at all.
pub proof fn law_soft_layers_fade_out(
    bg: GeneratedBackgroundView,
    palette: Seq<Rgba>,
    fan: WaveFan,
    state: u64,
    i: int,
)
    requires
        layer_of(bg, palette, fan, state, i).alpha.finite(),
        bg.softness.finite(),
    ensures
        ({
            let layer = layer_of(bg, palette, fan, state, i);
            match layer.outer_alpha {
                None => 2 * bg.softness.val() < one_unit(),
                Some(outer) => {
                    &&& 2 * bg.softness.val() >= one_unit()
                    &&& 0x1_0000_0000 * gap(10 * outer.val(), 6 * layer.alpha.val()) <= gap(layer.alpha.val(), 0)
                        + 0x1_0000_0000 * 10
                },
            }
        }),
{
    let alpha = layer_of(bg, palette, fan, state, i).alpha;
    crate::wave_laws::lemma_one_half();
    lemma_ratio_near(6, 10);
    lemma_fraction(6, 10);
    lemma_prod_shrinks(alpha, ratio(6, 10));
    let w = ratio(6, 10);
    assert(0x20_0000_0000_0000 * gap(w.val() * 100, 60 * one_unit() as int) <= 60 * one_unit() + 0x10_0000_0000_0000 * 100);
    crate::wave_laws::lemma_part(alpha, w, 60);
}

/// The root of one or more is one or more.
proof fn lemma_root_at_least_one(a: Double)
    requires
        a.finite(),
        a.val() >= one_unit(),
    ensures
        !square_root(a).nan(),
        square_root(a).val() >= one_unit(),
{
    let u = one_unit();
    let n = a.mag() * u;
    let r = floor_root(n);
    lemma_pow2_pos(UNIT_EXP as nat);
    lemma_floor_root(n);
    assert(u <= r) by (nonlinear_arith)
        requires
            n == a.mag() * u,
            a.mag() >= u,
            n < (r + 1) * (r + 1),
            u > 0,
    ;
    lemma_int_double_exact(1);
    assert(1 * u == u);
    lemma_round_monotone(u, 1, r, 1);
    lemma_round_monotone(u, 1, 2 * r + 1, 2);
    lemma_round_exact(int_double(1).low());
    lemma_round_bounded(r, 1);
    lemma_round_bounded(2 * r + 1, 2);
    lemma_mag_ordered(int_double(1).low(), round_root(n));
    assert(square_root(a) == signed(false, round_root(n))) by {
        reveal(square_root);
    }
}

/// A step of one or more in one direction is one or more long.
proof fn lemma_distance_at_least_one(dx: Double, dy: Double)
    requires
        dx.finite(),
        dy.finite(),
        squared(dx).finite(),
        squared(dy).finite(),
        sum(squared(dx), squared(dy)).finite(),
        dx.mag() >= one_unit() || dy.mag() >= one_unit(),
    ensures
        !distance(dx, dy).nan(),
        distance(dx, dy).val() >= one_unit(),
{
    let (a, b) = (squared(dx), squared(dy));
    lemma_square_at_least(dx);
    lemma_square_at_least(dy);
    lemma_sum_val(a, b);
    crate::arith_laws::lemma_sum_grows(a, b);
    crate::arith_laws::lemma_sum_grows(b, a);
    crate::arith_laws::lemma_sum_commutes(a, b);
    lemma_root_at_least_one(sum(a, b));
}

proof fn lemma_square_at_least(d: Double)
    requires
        d.finite(),
        squared(d).finite(),
    ensures
        squared(d).val() >= 0,
        d.mag() >= one_unit() ==> squared(d).val() >= one_unit(),
{
    let one = int_double(1);
    lemma_int_double_exact(1);
    lemma_pow2_pos(UNIT_EXP as nat);
    lemma_prod_near(d, d);
    if d.mag() >= one_unit() {
        lemma_times_one(d);
        lemma_prod_monotone(d, one, d);
    }
}

/// A region counts fully in its middle and not at all at its edges and beyond,
/// to the side or above and below.
#[verifier::rlimit(50)]
pub proof fn law_regions_count_from_the_middle_to_the_edge(region: ScreenshotRegion, p: Point)
    requires
        ({
            let m = region.middle();
            let (w, h) = (larger(half(region.width), int_double(1)), larger(half(region.height), int_double(1)));
            let (dx, dy) = (quot(diff(p.x, m.x), w), quot(diff(p.y, m.y), h));
            &&& m.x.finite() && m.y.finite() && p.x.finite() && p.y.finite()
            &&& half(region.width).finite() && half(region.height).finite()
            &&& diff(p.x, m.x).finite() && diff(p.y, m.y).finite()
            &&& dx.finite() && dy.finite()
            &&& squared(dx).finite() && squared(dy).finite() && sum(squared(dx), squared(dy)).finite()
        }),
    ensures
        ({
            let m = region.middle();
            let (dx, dy) = (diff(p.x, m.x), diff(p.y, m.y));
            &&& dx.val() == 0 && dy.val() == 0 ==> same(cover(p, region), int_double(1))
            &&& dx.mag() >= half(region.width).mag() && dx.mag() >= one_unit() ==> same(
                cover(p, region),
                int_double(0),
            )
            &&& dy.mag() >= half(region.height).mag() && dy.mag() >= one_unit() ==> same(
                cover(p, region),
                int_double(0),
            )
        }),
{
    let m = region.middle();
    let one = int_double(1);
    let (w, h) = (larger(half(region.width), one), larger(half(region.height), one));
    let (ex, ey) = (diff(p.x, m.x), diff(p.y, m.y));
    let (dx, dy) = (quot(ex, w), quot(ey, h));
    lemma_int_double_exact(1);
    lemma_int_double_exact(0);
    lemma_pow2_pos(UNIT_EXP as nat);
    assert(0 * one_unit() == 0);
    if ex.val() == 0 && ey.val() == 0 {
        lemma_no_quotient(ex, w);
        lemma_no_quotient(ey, h);
        lemma_times_zero(dx, dx);
        lemma_times_zero(dy, dy);
        lemma_plus_zero(squared(dx), squared(dy));
        let s = sum(squared(dx), squared(dy));
        lemma_mag_ordered(s.low(), 0);
        assert(square_root(s) == s) by {
            reveal(square_root);
        }
        lemma_all_but_nothing(region.remoteness(p));
    }
    if (ex.mag() >= half(region.width).mag() && ex.mag() >= one_unit()) || (ey.mag() >= half(region.height).mag()
        && ey.mag() >= one_unit()) {
        if ex.mag() >= half(region.width).mag() && ex.mag() >= one_unit() {
            lemma_quotient_at_least_one(ex, w);
        } else {
            lemma_quotient_at_least_one(ey, h);
        }
        lemma_distance_at_least_one(dx, dy);
        assert(region.remoteness(p).val() == one_unit());
        lemma_same_value(region.remoteness(p), one);
        lemma_nothing_of_one(region.remoteness(p));
    }
}

pub proof fn lemma_no_quotient(a: Double, b: Double)
    requires
        a.finite(),
        a.val() == 0,
        b.finite(),
        b.val() > 0,
        quot(a, b).finite(),
    ensures
        quot(a, b).val() == 0,
{
    crate::rounding::lemma_round_zero(b.mag());
    lemma_mag_ordered(0, a.low());
    assert(a.mag() * one_unit() == 0) by (nonlinear_arith)
        requires
            a.mag() == 0,
    ;
    assert(crate::rounding::mag_of(0) == 0) by {
        assert(0nat / crate::rounding::BINADE as nat == 0);
    }
    reveal(quot);
}

proof fn lemma_quotient_at_least_one(a: Double, b: Double)
    requires
        a.finite(),
        b.finite(),
        b.val() > 0,
        a.mag() >= b.mag(),
        quot(a, b).finite(),
    ensures
        quot(a, b).mag() >= one_unit(),
{
    let (u, n, d) = (one_unit(), a.mag() * one_unit(), b.mag());
    lemma_pow2_pos(UNIT_EXP as nat);
    lemma_int_double_exact(1);
    assert(u * d <= n * 1) by (nonlinear_arith)
        requires
            n == a.mag() * u,
            a.mag() >= d,
    ;
    assert(n > 0) by (nonlinear_arith)
        requires
            n == a.mag() * u,
            a.mag() >= d,
            d > 0,
            u > 0,
    ;
    lemma_round_monotone(u, 1, n, d);
    lemma_round_exact(int_double(1).low());
    lemma_round_bounded(n, d);
    lemma_mag_ordered(int_double(1).low(), round_low(n, d));
    assert(quot(a, b) == signed(a.neg() != b.neg(), round_low(n, d))) by {
        reveal(quot);
    }
}

/// A point is covered as much as by the region that covers it most.
pub proof fn law_regions_cover_together(p: Point, regions: Seq<ScreenshotRegion>, k: int)
    requires
        0 <= k < regions.len(),
        forall|i: int| 0 <= i < regions.len() ==> !cover(p, #[trigger] regions[i]).nan(),
    ensures
        le(cover(p, regions[k]), coverage(p, regions)),
        coverage(p, regions) == int_double(0) || exists|i: int|
            0 <= i < regions.len() && coverage(p, regions) == cover(p, #[trigger] regions[i]),
{
    let values = regions.map_values(|r: ScreenshotRegion| cover(p, r));
    assert forall|i: int| 0 <= i < values.len() implies !(#[trigger] values[i]).nan() by {
        assert(values[i] == cover(p, regions[i]));
    }
    lemma_greatest(values, k);
    crate::layout_laws::lemma_greatest_is_reached(values);
    assert(values[k] == cover(p, regions[k]));
    if values.contains(greatest(values)) {
        let i = choose|i: int| 0 <= i < values.len() && values[i] == greatest(values);
        assert(values[i] == cover(p, regions[i]));
    }
}

} // verus!
