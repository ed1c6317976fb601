//! What choosing how strong a shadow is promises: the direction that it is cast
//! in stays, and the distance is the preset's. Directions are given by a cosine
//! and a sine, which are rounded, and so are the offsets: what a law says of
//! them holds up to that.
use crate::arith_laws::{lemma_int_double_exact, lemma_round_exact, lemma_round_is_near, lemma_round_monotone};
use crate::double::{lemma_mag_ordered, one_unit, prod, signed, Double, UNIT_EXP};
use crate::model::{ShadowParams, ShadowPreset};
use crate::model::geometry::cast;
use crate::order::{le, magnitude};
use crate::rounding::{excess, mag_of, round_low, BINADE};
use crate::whole::int_double;
use vstd::arithmetic::div_mod::*;
use vstd::arithmetic::power2::*;
use vstd::prelude::*;

verus! {

/// How far apart two numbers are.
pub open spec fn gap(a: int, b: int) -> int {
    if a < b {
        b - a
    } else {
        a - b
    }
}

/// Whether a number can be a cosine or a sine.
pub open spec fn is_part(part: Double) -> bool {
    le(magnitude(part), int_double(1))
}

/// Whether a number can be a distance.
pub open spec fn is_length(distance: Double) -> bool {
    distance.finite() && !distance.neg()
}

/// What rounding adds to a distance times a cosine or a sine at most: a part in
/// `2^52` of the distance, and the least double. It is in units of products,
/// `2^-2148`.
pub open spec fn slack(distance: Double) -> int {
    (distance.mag() * one_unit() / BINADE as nat + one_unit()) as int
}

/// Whether an offset is a distance times a cosine or a sine, up to a tolerance
/// in units of products.
pub open spec fn along(offset: Double, distance: Double, part: Double, tolerance: int) -> bool {
    gap(offset.val() * one_unit(), distance.val() * part.val()) <= tolerance
}

/// A distance times a cosine or a sine is one up to rounding.
proof fn lemma_along(distance: Double, part: Double)
    requires
        is_length(distance),
        is_part(part),
    ensures
        prod(distance, part).finite(),
        along(prod(distance, part), distance, part, slack(distance)),
{
    let (u, d, c) = (one_unit(), distance.mag(), part.mag());
    let n = d * c;
    let low = round_low(n, u);
    let place = u * pow2(excess(n / u));
    lemma_pow2_pos(UNIT_EXP as nat);
    lemma_int_double_exact(1);
    lemma2_to64();
    lemma_mag_ordered(int_double(1).low(), part.low());
    assert(c <= u && part.finite());
    assert(n <= d * u) by (nonlinear_arith)
        requires
            n == d * c,
            c <= u,
    ;
    lemma_round_monotone(n, u, d, 1);
    lemma_round_exact(distance.low());
    lemma_round_is_near(n, u);
    let full = d * u;
    lemma_fundamental_div_mod(full as int, BINADE as int);
    lemma_mod_bound(full as int, BINADE as int);
    if excess(n / u) == 0 {
        assert(place == u) by (nonlinear_arith)
            requires
                place == u * pow2(0),
                pow2(0) == 1,
        ;
    } else {
        assert(place <= full / BINADE as nat) by (nonlinear_arith)
            requires
                place * BINADE <= n,
                n <= full,
                full == BINADE * (full / BINADE as nat) + full % BINADE as nat,
                full % (BINADE as nat) < BINADE,
        ;
    }
    assert(place <= slack(distance));
    let off = prod(distance, part);
    assert(off == signed(part.neg(), low)) by {
        reveal(prod);
    }
    assert(off.mag() == mag_of(low));
    let (m, k) = (off.mag() as int, n as int);
    if part.neg() {
        assert((-m) * u == -(m * u)) by (nonlinear_arith);
        assert(distance.val() * part.val() == -k) by (nonlinear_arith)
            requires
                distance.val() == d,
                part.val() == -(c as int),
                k == d * c,
        ;
    } else {
        assert(distance.val() * part.val() == k);
    }
}

/// A preset casts along the given direction, at its own distance and with its
/// own strength. So one preset after another gives the second one's shadow.
pub proof fn law_preset_casts_along_the_direction(preset: ShadowPreset, cosine: Double, sine: Double)
    requires
        is_length(preset.distance),
        is_part(cosine),
        is_part(sine),
    ensures
        ({
            let new = cast(preset, cosine, sine);
            &&& new.offset_x == prod(preset.distance, cosine)
            &&& new.offset_y == prod(preset.distance, sine)
            &&& along(new.offset_x, preset.distance, cosine, slack(preset.distance))
            &&& along(new.offset_y, preset.distance, sine, slack(preset.distance))
            &&& new.blur == preset.blur
            &&& new.opacity == preset.opacity
            &&& new.color == preset.color
            &&& new.enabled == preset.paints()
        }),
{
    lemma_along(preset.distance, cosine);
    lemma_along(preset.distance, sine);
}

/// Two offsets along one part of a direction are in proportion to their
/// distances.
proof fn lemma_in_proportion(new: Double, old: Double, far: Double, near: Double, part: Double, s: int, t: int)
    requires
        is_length(far),
        is_length(near),
        along(new, far, part, s),
        along(old, near, part, t),
    ensures
        gap(new.val() * near.val(), old.val() * far.val()) * one_unit() <= near.val() * s + far.val() * t,
{
    let u = one_unit() as int;
    let (a, b, d, e, c) = (new.val(), old.val(), far.val(), near.val(), part.val());
    let (x, y) = (a * u - d * c, b * u - e * c);
    assert(-s <= x <= s && -t <= y <= t);
    assert((a * e - b * d) * u == e * x - d * y) by (nonlinear_arith)
        requires
            x == a * u - d * c,
            y == b * u - e * c,
    ;
    assert(-(e * s) <= e * x <= e * s) by (nonlinear_arith)
        requires
            -s <= x <= s,
            e >= 0,
    ;
    assert(-(d * t) <= d * y <= d * t) by (nonlinear_arith)
        requires
            -t <= y <= t,
            d >= 0,
    ;
    assert((b * d - a * e) * u == -((a * e - b * d) * u)) by (nonlinear_arith);
}

/// Offsets in proportion to each other are parallel.
proof fn lemma_parallel(x: int, y: int, old_x: int, old_y: int, near: int, far: int, most: int)
    requires
        gap(x * near, old_x * far) * one_unit() <= most,
        gap(y * near, old_y * far) * one_unit() <= most,
    ensures
        gap(x * old_y, y * old_x) * gap(near, 0) * one_unit() <= most * (gap(old_x, 0) + gap(old_y, 0)),
{
    let u = one_unit() as int;
    let (a, b) = (x * near - old_x * far, y * near - old_y * far);
    let cross = x * old_y - y * old_x;
    lemma_pow2_pos(UNIT_EXP as nat);
    assert(cross * near == old_y * a - old_x * b) by (nonlinear_arith)
        requires
            a == x * near - old_x * far,
            b == y * near - old_y * far,
            cross == x * old_y - y * old_x,
    ;
    let (ga, gb, gx, gy) = (gap(a, 0), gap(b, 0), gap(old_x, 0), gap(old_y, 0));
    assert(ga * u <= most && gb * u <= most);
    let (p, q) = (old_y * a, old_x * b);
    assert(gap(p, 0) == gy * ga && gap(q, 0) == gx * gb) by {
        lemma_gap_product(old_y, a);
        lemma_gap_product(old_x, b);
    }
    lemma_gap_product(cross, near);
    assert(gap(cross, 0) * gap(near, 0) <= gy * ga + gx * gb);
    assert((gap(cross, 0) * gap(near, 0)) * u <= most * (gx + gy)) by (nonlinear_arith)
        requires
            gap(cross, 0) * gap(near, 0) <= gy * ga + gx * gb,
            ga * u <= most,
            gb * u <= most,
            gx >= 0,
            gy >= 0,
            u > 0,
    ;
}

proof fn lemma_gap_product(a: int, b: int)
    ensures
        gap(a * b, 0) == gap(a, 0) * gap(b, 0),
{
    assert(gap(a * b, 0) == gap(a, 0) * gap(b, 0)) by (nonlinear_arith);
}

/// A preset keeps the direction: where the cosine and the sine are those of a
/// shadow's own offset, up to a tolerance, the new offset is in proportion to
/// the old one, and so parallel to it, up to that tolerance and rounding. A
/// preset never turns a shadow by more than the cosine and the sine are off.
pub proof fn law_preset_keeps_the_direction(
    shadow: ShadowParams,
    distance: Double,
    tolerance: int,
    preset: ShadowPreset,
    cosine: Double,
    sine: Double,
)
    requires
        is_length(distance),
        is_length(preset.distance),
        is_part(cosine),
        is_part(sine),
        along(shadow.offset_x, distance, cosine, tolerance),
        along(shadow.offset_y, distance, sine, tolerance),
    ensures
        ({
            let new = cast(preset, cosine, sine);
            let most = distance.val() * slack(preset.distance) + preset.distance.val() * tolerance;
            &&& gap(new.offset_x.val() * distance.val(), shadow.offset_x.val() * preset.distance.val()) * one_unit()
                <= most
            &&& gap(new.offset_y.val() * distance.val(), shadow.offset_y.val() * preset.distance.val()) * one_unit()
                <= most
            &&& gap(new.offset_x.val() * shadow.offset_y.val(), new.offset_y.val() * shadow.offset_x.val())
                * distance.val() * one_unit() <= most * (gap(shadow.offset_x.val(), 0) + gap(shadow.offset_y.val(), 0))
        }),
{
    let new = cast(preset, cosine, sine);
    let s = slack(preset.distance);
    lemma_along(preset.distance, cosine);
    lemma_along(preset.distance, sine);
    lemma_in_proportion(new.offset_x, shadow.offset_x, preset.distance, distance, cosine, s, tolerance);
    lemma_in_proportion(new.offset_y, shadow.offset_y, preset.distance, distance, sine, s, tolerance);
    lemma_parallel(
        new.offset_x.val(),
        new.offset_y.val(),
        shadow.offset_x.val(),
        shadow.offset_y.val(),
        distance.val(),
        preset.distance.val(),
        distance.val() * s + preset.distance.val() * tolerance,
    );
}

/// The presets share a direction: chosen one after another, their offsets are
/// in proportion to their distances, up to rounding.
pub proof fn law_presets_share_a_direction(first: ShadowPreset, second: ShadowPreset, cosine: Double, sine: Double)
    requires
        is_length(first.distance),
        is_length(second.distance),
        is_part(cosine),
        is_part(sine),
    ensures
        ({
            let (a, b) = (cast(first, cosine, sine), cast(second, cosine, sine));
            let (d, e) = (first.distance, second.distance);
            let most = d.val() * slack(e) + e.val() * slack(d);
            &&& gap(b.offset_x.val() * d.val(), a.offset_x.val() * e.val()) * one_unit() <= most
            &&& gap(b.offset_y.val() * d.val(), a.offset_y.val() * e.val()) * one_unit() <= most
        }),
{
    lemma_along(first.distance, cosine);
    lemma_along(first.distance, sine);
    law_preset_keeps_the_direction(
        cast(first, cosine, sine),
        first.distance,
        slack(first.distance),
        second,
        cosine,
        sine,
    );
}

/// The square of an offset is that of its distance times its part, up to
/// rounding.
proof fn lemma_square(off: Double, distance: Double, part: Double, s: int)
    requires
        is_length(distance),
        is_part(part),
        along(off, distance, part, s),
        s >= 0,
    ensures
        ({
            let (u, a, b) = (one_unit(), off.val(), distance.val() * part.val());
            gap((a * u) * (a * u), b * b) <= 2 * distance.val() * u * s + s * s
        }),
{
    let (u, d, c) = (one_unit() as int, distance.val(), part.val());
    let (a, b) = (off.val() * u, d * c);
    let x = a - b;
    lemma_int_double_exact(1);
    assert(-s <= x <= s && -u <= c <= u);
    assert(a * a - b * b == 2 * (b * x) + x * x) by (nonlinear_arith)
        requires
            x == a - b,
    ;
    assert(-(d * u) <= b <= d * u) by (nonlinear_arith)
        requires
            b == d * c,
            -u <= c <= u,
            d >= 0,
    ;
    let m = d * u;
    assert(-(m * s) <= b * x <= m * s) by (nonlinear_arith)
        requires
            -m <= b <= m,
            -s <= x <= s,
    ;
    assert(0 <= x * x <= s * s) by (nonlinear_arith)
        requires
            -s <= x <= s,
    ;
    assert(2 * d * u * s == 2 * (m * s)) by (nonlinear_arith)
        requires
            m == d * u,
    ;
}

/// A preset sets the distance: the square of the new offset's length is that of
/// the preset's distance, up to rounding and to what the squares of the cosine
/// and the sine miss of one.
pub proof fn law_preset_sets_the_distance(preset: ShadowPreset, cosine: Double, sine: Double)
    requires
        is_length(preset.distance),
        is_part(cosine),
        is_part(sine),
    ensures
        ({
            let new = cast(preset, cosine, sine);
            let (u, d, s) = (one_unit(), preset.distance.val(), slack(preset.distance));
            let (x, y) = (new.offset_x.val() * u, new.offset_y.val() * u);
            let (a, b) = (d * cosine.val(), d * sine.val());
            gap(x * x + y * y, a * a + b * b) <= 4 * d * u * s + 2 * (s * s)
        }),
{
    let new = cast(preset, cosine, sine);
    let (u, d, s) = (one_unit() as int, preset.distance.val(), slack(preset.distance));
    lemma_along(preset.distance, cosine);
    lemma_along(preset.distance, sine);
    lemma_square(new.offset_x, preset.distance, cosine, s);
    lemma_square(new.offset_y, preset.distance, sine, s);
    assert(4 * d * u * s == 2 * (2 * d * u * s)) by (nonlinear_arith);
}

} // verus!
