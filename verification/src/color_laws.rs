//! What the color conversions promise: grays stay gray, each step can be taken
//! back, and a color's channels weigh as much as its pixels cover.
use crate::arith_laws::{lemma_int_double_exact, lemma_prod_commutes};
use crate::blend_laws::lemma_no_quotient;
use crate::double::{diff, one_unit, opposite, prod, quot, sum, Double, UNIT_EXP};
use crate::model::geometry::pi;
use crate::near_laws::{
    about, lemma_diff_near, lemma_gap_of_product, lemma_gap_scales, lemma_plus_zero, lemma_prod_near,
    lemma_prod_shrinks, lemma_quot_by_int, lemma_quot_near, lemma_sum_near, lemma_times_one, lemma_times_zero,
};
use crate::order::lt;
use crate::palette::{
    base_of_channel, bucket_totals, channel_of_light, cluster_color, coefficient, complement, cones, is_dim, is_faint,
    is_ranking, lab_of_polar, lab_of_roots, light_of_channel, light_of_cones, mean_color, occupied, pixel_totals,
    pixel_weight, ranks_before, roots_of_lab, row_samples, share, straight, weighed_signed, BucketKey, ColorTotals,
    Oklab, Oklch, Pixel, SAMPLE_STRIDE, Tagged, Triple,
};
use crate::palette_laws::{lemma_ratio_near, lemma_rest, lemma_share_ends, lemma_small_product, lemma_small_sum};
use crate::pointer_laws::lemma_quot_shrinks;
use crate::preset_laws::gap;
use crate::wave_laws::lemma_one_half;
use crate::whole::{int_double, ratio};
use vstd::arithmetic::power2::*;
use vstd::prelude::*;

verus! {

/// A coefficient is what it says, in ten-billionths.
proof fn lemma_coefficient(n: int)
    requires
        -0x10_0000_0000 <= n <= 0x10_0000_0000,
    ensures
        coefficient(n).finite(),
        gap(coefficient(n).val(), 0) <= 7 * one_unit(),
        0x20_0000_0000_0000 * gap(coefficient(n).val() * 10000000000, n * one_unit()) <= 70000000000 * one_unit(),
{
    let u = one_unit() as int;
    lemma2_to64();
    lemma2_to64_rest();
    crate::rounding::lemma_pow2_le(64, UNIT_EXP as nat);
    lemma_int_double_exact(n);
    lemma_quot_by_int(int_double(n), 10000000000);
    assert(-0x10_0000_0000 * u <= n * u <= 0x10_0000_0000 * u) by (nonlinear_arith)
        requires
            -0x10_0000_0000 <= n <= 0x10_0000_0000,
            u > 0,
    ;
}

/// A coefficient times a number.
#[verifier::rlimit(50)]
proof fn lemma_term(n: int, v: Double)
    requires
        -0x10_0000_0000 <= n <= 0x10_0000_0000,
        v.finite(),
        gap(v.val(), 0) <= 4 * one_unit(),
    ensures
        prod(coefficient(n), v).finite(),
        0x20_0000_0000_0000 * gap(10000000000 * prod(coefficient(n), v).val(), n * v.val()) <= 640000000000 * one_unit(),
        gap(prod(coefficient(n), v).val(), 0) <= 29 * one_unit(),
{
    let u = one_unit() as int;
    lemma2_to64();
    lemma2_to64_rest();
    crate::rounding::lemma_pow2_le(64, UNIT_EXP as nat);
    lemma_coefficient(n);
    let c = coefficient(n);
    lemma_small_product(c, v);
    lemma_prod_near(c, v);
    let (cv, vv, p) = (c.val(), v.val(), prod(c, v).val());
    let (uu, cw, nv) = (u * u, cv * vv, n * vv);
    assert(gap(cw, 0) <= 28 * uu) by {
        lemma_gap_of_product(cv, vv);
        assert(gap(cv, 0) * gap(vv, 0) <= 28 * uu) by (nonlinear_arith)
            requires
                0 <= gap(cv, 0) <= 7 * u,
                0 <= gap(vv, 0) <= 4 * u,
                uu == u * u,
        ;
    }
    lemma_gap_scales(cv * 10000000000, n * u, vv);
    let g = gap(cv * 10000000000, n * u);
    assert(0x20_0000_0000_0000 * (g * gap(vv, 0)) <= 280000000000 * uu && 0x10_0000_0000_0000 * u <= uu)
        by (nonlinear_arith)
        requires
            0x20_0000_0000_0000 * g <= 70000000000 * u,
            0 <= gap(vv, 0) <= 4 * u,
            g >= 0,
            uu == u * u,
            u >= 0x1_0000_0000_0000_0000,
    ;
    let x = 10000000000 * p;
    assert((cv * 10000000000) * vv == 10000000000 * cw && (n * u) * vv == nv * u && 10000000000 * (p * u) == x * u)
        by (nonlinear_arith)
        requires
            cw == cv * vv,
            nv == n * vv,
            x == 10000000000 * p,
    ;
    lemma_term_sums(x * u, p * u, cw, nv * u, uu);
    lemma_gap_scales(x, nv, u);
    lemma_term_divided(gap(x, nv), u, 640000000000);
    assert(gap(nv, 0) <= 280000000000 * u) by {
        lemma_gap_of_product(n, vv);
        assert(gap(n, 0) * gap(vv, 0) <= 280000000000 * u) by (nonlinear_arith)
            requires
                0 <= gap(n, 0) <= 70000000000,
                0 <= gap(vv, 0) <= 4 * u,
        ;
    }
}

proof fn lemma_term_sums(xu: int, pu: int, cw: int, nvu: int, uu: int)
    requires
        xu == 10000000000 * pu,
        uu > 0,
        gap(cw, 0) <= 28 * uu,
        0x20_0000_0000_0000 * gap(pu, cw) <= gap(cw, 0) + uu,
        0x20_0000_0000_0000 * gap(10000000000 * cw, nvu) <= 280000000000 * uu,
    ensures
        0x20_0000_0000_0000 * gap(xu, nvu) <= 640000000000 * uu,
{
    assert(gap(xu, nvu) <= 10000000000 * gap(pu, cw) + gap(10000000000 * cw, nvu));
}

proof fn lemma_term_divided(e: int, u: int, k: int)
    requires
        u > 0,
        0x20_0000_0000_0000 * (e * u) <= k * (u * u),
    ensures
        0x20_0000_0000_0000 * e <= k * u,
{
    assert(0x20_0000_0000_0000 * e <= k * u) by (nonlinear_arith)
        requires
            u > 0,
            0x20_0000_0000_0000 * (e * u) <= k * (u * u),
    ;
}

/// Whether three numbers are moderate ones.
pub open spec fn is_moderate(v: Triple) -> bool {
    &&& v.x.finite() && gap(v.x.val(), 0) <= 4 * one_unit()
    &&& v.y.finite() && gap(v.y.val(), 0) <= 4 * one_unit()
    &&& v.z.finite() && gap(v.z.val(), 0) <= 4 * one_unit()
}

/// Three coefficients apply to three numbers as they say.
#[verifier::rlimit(50)]
proof fn lemma_weighed(p: int, q: int, minus_q: bool, r: int, minus_r: bool, v: Triple)
    requires
        -0x10_0000_0000 <= p <= 0x10_0000_0000,
        -0x10_0000_0000 <= q <= 0x10_0000_0000,
        -0x10_0000_0000 <= r <= 0x10_0000_0000,
        is_moderate(v),
    ensures
        weighed_signed(p, q, minus_q, r, minus_r, v).finite(),
        ({
            let exact = p * v.x.val() + (if minus_q {
                -(q * v.y.val())
            } else {
                q * v.y.val()
            }) + (if minus_r {
                -(r * v.z.val())
            } else {
                r * v.z.val()
            });
            0x100_0000_0000 * gap(10000000000 * weighed_signed(p, q, minus_q, r, minus_r, v).val(), exact)
                <= 10000000000 * one_unit()
        }),
{
    let (a, b, c) = (prod(coefficient(p), v.x), prod(coefficient(q), v.y), prod(coefficient(r), v.z));
    lemma_term(p, v.x);
    lemma_signed_term(q, v.y, minus_q);
    lemma_signed_term(r, v.z, minus_r);
    lemma_three(
        a,
        signed_by(b, minus_q),
        signed_by(c, minus_r),
        p * v.x.val(),
        if minus_q {
            -(q * v.y.val())
        } else {
            q * v.y.val()
        },
        if minus_r {
            -(r * v.z.val())
        } else {
            r * v.z.val()
        },
    );
}

/// A number or its opposite.
spec fn signed_by(a: Double, minus: bool) -> Double {
    if minus {
        opposite(a)
    } else {
        a
    }
}

proof fn lemma_signed_term(n: int, v: Double, minus: bool)
    requires
        -0x10_0000_0000 <= n <= 0x10_0000_0000,
        v.finite(),
        gap(v.val(), 0) <= 4 * one_unit(),
    ensures
        ({
            let s = signed_by(prod(coefficient(n), v), minus);
            let exact = if minus {
                -(n * v.val())
            } else {
                n * v.val()
            };
            &&& s.finite()
            &&& 0x20_0000_0000_0000 * gap(10000000000 * s.val(), exact) <= 640000000000 * one_unit()
            &&& gap(s.val(), 0) <= 29 * one_unit()
        }),
{
    lemma_term(n, v);
    let a = prod(coefficient(n), v);
    assert(opposite(a).val() == -a.val() && opposite(a).finite());
}

/// A sum of three terms that stand for `x`, `y` and `z`.
#[verifier::rlimit(50)]
proof fn lemma_three(a: Double, s: Double, t: Double, x: int, y: int, z: int)
    requires
        a.finite(),
        s.finite(),
        t.finite(),
        gap(a.val(), 0) <= 29 * one_unit(),
        gap(s.val(), 0) <= 29 * one_unit(),
        gap(t.val(), 0) <= 29 * one_unit(),
        0x20_0000_0000_0000 * gap(10000000000 * a.val(), x) <= 640000000000 * one_unit(),
        0x20_0000_0000_0000 * gap(10000000000 * s.val(), y) <= 640000000000 * one_unit(),
        0x20_0000_0000_0000 * gap(10000000000 * t.val(), z) <= 640000000000 * one_unit(),
    ensures
        sum(sum(a, s), t).finite(),
        0x100_0000_0000 * gap(10000000000 * sum(sum(a, s), t).val(), x + y + z) <= 10000000000 * one_unit(),
{
    lemma_pow2_pos(UNIT_EXP as nat);
    lemma_small_sum(a, s);
    lemma_sum_near(a, s);
    let two = sum(a, s);
    lemma_small_sum(two, t);
    lemma_sum_near(two, t);
    lemma_weighed_sums(a.val(), s.val(), t.val(), two.val(), sum(two, t).val(), x, y, z, one_unit() as int);
}

proof fn lemma_weighed_sums(a: int, s: int, t: int, two: int, all: int, x: int, y: int, z: int, u: int)
    requires
        u > 0,
        gap(a, 0) <= 29 * u,
        gap(s, 0) <= 29 * u,
        gap(t, 0) <= 29 * u,
        0x20_0000_0000_0000 * gap(two, a + s) <= gap(a + s, 0),
        0x20_0000_0000_0000 * gap(all, two + t) <= gap(two + t, 0),
        0x20_0000_0000_0000 * gap(10000000000 * a, x) <= 640000000000 * u,
        0x20_0000_0000_0000 * gap(10000000000 * s, y) <= 640000000000 * u,
        0x20_0000_0000_0000 * gap(10000000000 * t, z) <= 640000000000 * u,
    ensures
        0x100_0000_0000 * gap(10000000000 * all, x + y + z) <= 10000000000 * u,
{
    assert(gap(a + s, 0) <= 58 * u);
    assert(gap(two, 0) <= 59 * u);
    assert(gap(two + t, 0) <= 88 * u);
    assert(gap(10000000000 * all, x + y + z) <= 10000000000 * gap(all, two + t) + 10000000000 * gap(two, a + s) + gap(
        10000000000 * a,
        x,
    ) + gap(10000000000 * s, y) + gap(10000000000 * t, z));
}

/// Gray light excites all cones alike, as much as there is of it.
pub proof fn law_gray_light_excites_all_cones_alike(v: Double)
    requires
        v.finite(),
        0 <= v.val() <= one_unit(),
    ensures
        ({
            let (c, u) = (cones(Triple { x: v, y: v, z: v }), one_unit() as int);
            &&& 0x1000_0000 * gap(c.x.val(), v.val()) <= u
            &&& 0x1000_0000 * gap(c.y.val(), v.val()) <= u
            &&& 0x1000_0000 * gap(c.z.val(), v.val()) <= u
        }),
{
    let light = Triple { x: v, y: v, z: v };
    lemma_pow2_pos(UNIT_EXP as nat);
    lemma_weighed(4122214708, 5363325363, false, 514459929, false, light);
    lemma_weighed(2119034982, 6806995451, false, 1073969566, false, light);
    lemma_weighed(883024619, 2817188376, false, 6299787005, false, light);
}

/// A gray has no color in Oklab, and its lightness is the root of its light: the
/// two color axes are zero where all cones answer alike.
pub proof fn law_grays_have_no_color(v: Double)
    requires
        v.finite(),
        0 <= v.val() <= one_unit(),
    ensures
        ({
            let (c, u) = (lab_of_roots(Triple { x: v, y: v, z: v }), one_unit() as int);
            &&& 0x10_0000 * gap(c.l.val(), v.val()) <= u
            &&& 0x10_0000 * gap(c.a.val(), 0) <= u
            &&& 0x10_0000 * gap(c.b.val(), 0) <= u
        }),
{
    let roots = Triple { x: v, y: v, z: v };
    lemma_pow2_pos(UNIT_EXP as nat);
    lemma_weighed(2104542553, 7936177850, false, 40720468, true, roots);
    lemma_weighed(19779984951, 24285922050, true, 4505937099, false, roots);
    lemma_weighed(259040371, 7827717662, false, 8086757660, true, roots);
}

/// The first color axis points away from green, and the second away from blue:
/// what the cones for long waves answer counts for the first, and what those for
/// short waves answer counts against the second.
pub proof fn law_axes_point_to_red_and_yellow(v: Double, none: Double)
    requires
        v.finite(),
        one_unit() <= 4 * v.val() <= 4 * one_unit(),
        none.finite(),
        none.val() == 0,
    ensures
        lab_of_roots(Triple { x: v, y: none, z: none }).a.val() > v.val(),
        lab_of_roots(Triple { x: none, y: v, z: none }).a.val() < -v.val(),
        2 * lab_of_roots(Triple { x: none, y: none, z: v }).b.val() < -v.val(),
        2 * lab_of_roots(Triple { x: none, y: v, z: none }).b.val() > v.val(),
{
    lemma_pow2_pos(UNIT_EXP as nat);
    lemma_weighed(19779984951, 24285922050, true, 4505937099, false, Triple { x: v, y: none, z: none });
    lemma_weighed(19779984951, 24285922050, true, 4505937099, false, Triple { x: none, y: v, z: none });
    lemma_weighed(259040371, 7827717662, false, 8086757660, true, Triple { x: none, y: none, z: v });
    lemma_weighed(259040371, 7827717662, false, 8086757660, true, Triple { x: none, y: v, z: none });
}

/// Whether two triples are the same up to a millionth.
pub open spec fn is_near(a: Triple, b: Triple) -> bool {
    &&& 0x10_0000 * gap(a.x.val(), b.x.val()) <= one_unit()
    &&& 0x10_0000 * gap(a.y.val(), b.y.val()) <= one_unit()
    &&& 0x10_0000 * gap(a.z.val(), b.z.val()) <= one_unit()
}

/// Whether three numbers are shares.
pub open spec fn are_shares(v: Triple) -> bool {
    &&& v.x.finite() && 0 <= v.x.val() <= one_unit()
    &&& v.y.finite() && 0 <= v.y.val() <= one_unit()
    &&& v.z.finite() && 0 <= v.z.val() <= one_unit()
}

proof fn lemma_light_row_a(x: int, y: int, z: int, d: int, e: int, f: int, g: int, a: int, u: int)
    requires
        u > 0,
        0 <= x <= u,
        0 <= y <= u,
        0 <= z <= u,
        -10000000000 * u <= 0x100_0000_0000 * d <= 10000000000 * u,
        -10000000000 * u <= 0x100_0000_0000 * e <= 10000000000 * u,
        -10000000000 * u <= 0x100_0000_0000 * f <= 10000000000 * u,
        -10000000000 * u <= 0x100_0000_0000 * g <= 10000000000 * u,
        100000000000000000000 * a == 100000000016256862850 * x - 7115823548 * y + 23936076611 * z + 40767416621 * d - 33077115913 * e + 2309699292 * f + 10000000000 * g,
    ensures
        0x10_0000 * gap(a, x) <= u,
{
}

proof fn lemma_light_row_b(x: int, y: int, z: int, d: int, e: int, f: int, g: int, a: int, u: int)
    requires
        u > 0,
        0 <= x <= u,
        0 <= y <= u,
        0 <= z <= u,
        -10000000000 * u <= 0x100_0000_0000 * d <= 10000000000 * u,
        -10000000000 * u <= 0x100_0000_0000 * e <= 10000000000 * u,
        -10000000000 * u <= 0x100_0000_0000 * f <= 10000000000 * u,
        -10000000000 * u <= 0x100_0000_0000 * g <= 10000000000 * u,
        100000000000000000000 * a == (-13357088101) * x + 99999999997138566423 * y - 9879052333 * z + (-12684380046) * d + 26097574011 * e - 3413193965 * f + 10000000000 * g,
    ensures
        0x10_0000 * gap(a, y) <= u,
{
}

proof fn lemma_light_row_c(x: int, y: int, z: int, d: int, e: int, f: int, g: int, a: int, u: int)
    requires
        u > 0,
        0 <= x <= u,
        0 <= y <= u,
        0 <= z <= u,
        -10000000000 * u <= 0x100_0000_0000 * d <= 10000000000 * u,
        -10000000000 * u <= 0x100_0000_0000 * e <= 10000000000 * u,
        -10000000000 * u <= 0x100_0000_0000 * f <= 10000000000 * u,
        -10000000000 * u <= 0x100_0000_0000 * g <= 10000000000 * u,
        100000000000000000000 * a == 5481471832 * x - 1458329806 * y + 100000000003011044121 * z + (-41960863) * d - 7034186147 * e + 17076147010 * f + 10000000000 * g,
    ensures
        0x10_0000 * gap(a, z) <= u,
{
}

/// The two steps of the light, one after the other, in whole numbers.
proof fn lemma_light_rows(x: int, y: int, z: int, p: int, q: int, r: int, a: int, b: int, c: int, u: int)
    requires
        u > 0,
        0 <= x <= u,
        0 <= y <= u,
        0 <= z <= u,
        0x100_0000_0000 * gap(10000000000 * p, 4122214708 * x + 5363325363 * y + 514459929 * z) <= 10000000000 * u,
        0x100_0000_0000 * gap(10000000000 * q, 2119034982 * x + 6806995451 * y + 1073969566 * z) <= 10000000000 * u,
        0x100_0000_0000 * gap(10000000000 * r, 883024619 * x + 2817188376 * y + 6299787005 * z) <= 10000000000 * u,
        0x100_0000_0000 * gap(10000000000 * a, 40767416621 * p - 33077115913 * q + 2309699292 * r) <= 10000000000 * u,
        0x100_0000_0000 * gap(10000000000 * b, (-12684380046) * p + 26097574011 * q - 3413193965 * r) <= 10000000000 * u,
        0x100_0000_0000 * gap(10000000000 * c, (-41960863) * p - 7034186147 * q + 17076147010 * r) <= 10000000000 * u,
    ensures
        0x10_0000 * gap(a, x) <= u,
        0x10_0000 * gap(b, y) <= u,
        0x10_0000 * gap(c, z) <= u,
{
    let d = 10000000000 * p - (4122214708 * x + 5363325363 * y + 514459929 * z);
    let e = 10000000000 * q - (2119034982 * x + 6806995451 * y + 1073969566 * z);
    let f = 10000000000 * r - (883024619 * x + 2817188376 * y + 6299787005 * z);
    lemma_light_row_a(x, y, z, d, e, f, 10000000000 * a - (40767416621 * p - 33077115913 * q + 2309699292 * r), a, u);
    lemma_light_row_b(x, y, z, d, e, f, 10000000000 * b - ((-12684380046) * p + 26097574011 * q - 3413193965 * r), b, u);
    lemma_light_row_c(x, y, z, d, e, f, 10000000000 * c - ((-41960863) * p - 7034186147 * q + 17076147010 * r), c, u);
}

proof fn lemma_root_row_a(x: int, y: int, z: int, d: int, e: int, f: int, g: int, a: int, u: int)
    requires
        u > 0,
        0 <= x <= u,
        0 <= y <= u,
        0 <= z <= u,
        -10000000000 * u <= 0x100_0000_0000 * d <= 10000000000 * u,
        -10000000000 * u <= 0x100_0000_0000 * e <= 10000000000 * u,
        -10000000000 * u <= 0x100_0000_0000 * f <= 10000000000 * u,
        -10000000000 * u <= 0x100_0000_0000 * g <= 10000000000 * u,
        100000000000000000000 * a == 99999997108389738657 * x + 3651365197626 * y - 604806921554 * z + 10000000000 * d + 3963377774 * e + 2158037573 * f + 10000000000 * g,
    ensures
        0x10_0000 * gap(a, x) <= u,
{
}

proof fn lemma_root_row_b(x: int, y: int, z: int, d: int, e: int, f: int, g: int, a: int, u: int)
    requires
        u > 0,
        0 <= x <= u,
        0 <= y <= u,
        0 <= z <= u,
        -10000000000 * u <= 0x100_0000_0000 * d <= 10000000000 * u,
        -10000000000 * u <= 0x100_0000_0000 * e <= 10000000000 * u,
        -10000000000 * u <= 0x100_0000_0000 * f <= 10000000000 * u,
        -10000000000 * u <= 0x100_0000_0000 * g <= 10000000000 * u,
        100000000000000000000 * a == (-869433171646) * x + 100000000293729348964 * y - 312472241862 * z + 10000000000 * d - 1055613458 * e - 638541728 * f + 10000000000 * g,
    ensures
        0x10_0000 * gap(a, y) <= u,
{
}

proof fn lemma_root_row_c(x: int, y: int, z: int, d: int, e: int, f: int, g: int, a: int, u: int)
    requires
        u > 0,
        0 <= x <= u,
        0 <= y <= u,
        0 <= z <= u,
        -10000000000 * u <= 0x100_0000_0000 * d <= 10000000000 * u,
        -10000000000 * u <= 0x100_0000_0000 * e <= 10000000000 * u,
        -10000000000 * u <= 0x100_0000_0000 * f <= 10000000000 * u,
        -10000000000 * u <= 0x100_0000_0000 * g <= 10000000000 * u,
        100000000000000000000 * a == (-267976711105) * x - 6248239849010 * y + 100000001048975466075 * z + 10000000000 * d - 894841775 * e - 12914855480 * f + 10000000000 * g,
    ensures
        0x10_0000 * gap(a, z) <= u,
{
}

/// The two steps of the roots, one after the other, in whole numbers.
proof fn lemma_root_rows(x: int, y: int, z: int, p: int, q: int, r: int, a: int, b: int, c: int, u: int)
    requires
        u > 0,
        0 <= x <= u,
        0 <= y <= u,
        0 <= z <= u,
        0x100_0000_0000 * gap(10000000000 * p, 2104542553 * x + 7936177850 * y - 40720468 * z) <= 10000000000 * u,
        0x100_0000_0000 * gap(10000000000 * q, 19779984951 * x - 24285922050 * y + 4505937099 * z) <= 10000000000 * u,
        0x100_0000_0000 * gap(10000000000 * r, 259040371 * x + 7827717662 * y - 8086757660 * z) <= 10000000000 * u,
        0x100_0000_0000 * gap(10000000000 * a, 10000000000 * p + 3963377774 * q + 2158037573 * r) <= 10000000000 * u,
        0x100_0000_0000 * gap(10000000000 * b, 10000000000 * p - 1055613458 * q - 638541728 * r) <= 10000000000 * u,
        0x100_0000_0000 * gap(10000000000 * c, 10000000000 * p - 894841775 * q - 12914855480 * r) <= 10000000000 * u,
    ensures
        0x10_0000 * gap(a, x) <= u,
        0x10_0000 * gap(b, y) <= u,
        0x10_0000 * gap(c, z) <= u,
{
    let d = 10000000000 * p - (2104542553 * x + 7936177850 * y - 40720468 * z);
    let e = 10000000000 * q - (19779984951 * x - 24285922050 * y + 4505937099 * z);
    let f = 10000000000 * r - (259040371 * x + 7827717662 * y - 8086757660 * z);
    lemma_root_row_a(x, y, z, d, e, f, 10000000000 * a - (10000000000 * p + 3963377774 * q + 2158037573 * r), a, u);
    lemma_root_row_b(x, y, z, d, e, f, 10000000000 * b - (10000000000 * p - 1055613458 * q - 638541728 * r), b, u);
    lemma_root_row_c(x, y, z, d, e, f, 10000000000 * c - (10000000000 * p - 894841775 * q - 12914855480 * r), c, u);
}

/// The light that cones answered to is found again from what they answered.
#[verifier::rlimit(50)]
pub proof fn law_light_is_found_again_from_the_cones(light: Triple)
    requires
        are_shares(light),
    ensures
        is_near(light_of_cones(cones(light)), light),
{
    let (x, y, z, u) = (light.x.val(), light.y.val(), light.z.val(), one_unit() as int);
    let w = cones(light);
    lemma_pow2_pos(UNIT_EXP as nat);
    lemma_weighed(4122214708, 5363325363, false, 514459929, false, light);
    lemma_weighed(2119034982, 6806995451, false, 1073969566, false, light);
    lemma_weighed(883024619, 2817188376, false, 6299787005, false, light);
    assert(is_moderate(w));
    lemma_weighed(40767416621, 33077115913, true, 2309699292, false, w);
    lemma_weighed(-12684380046, 26097574011, false, 3413193965, true, w);
    lemma_weighed(-41960863, 7034186147, true, 17076147010, false, w);
    let back = light_of_cones(w);
    lemma_light_rows(x, y, z, w.x.val(), w.y.val(), w.z.val(), back.x.val(), back.y.val(), back.z.val(), u);
}

/// The cones' roots are found again from the Oklab color that they make.
#[verifier::rlimit(50)]
pub proof fn law_roots_are_found_again_from_the_color(roots: Triple)
    requires
        are_shares(roots),
    ensures
        is_near(roots_of_lab(lab_of_roots(roots)), roots),
{
    let c = lab_of_roots(roots);
    lemma_pow2_pos(UNIT_EXP as nat);
    lemma_weighed(2104542553, 7936177850, false, 40720468, true, roots);
    lemma_weighed(19779984951, 24285922050, true, 4505937099, false, roots);
    lemma_weighed(259040371, 7827717662, false, 8086757660, true, roots);
    assert(is_moderate(Triple { x: c.l, y: c.a, z: c.b }));
    lemma_from_lab(c, 3963377774, false, 2158037573, false);
    lemma_from_lab(c, 1055613458, true, 638541728, true);
    lemma_from_lab(c, 894841775, true, 12914855480, true);
    let (x, y, z, u) = (roots.x.val(), roots.y.val(), roots.z.val(), one_unit() as int);
    let back = roots_of_lab(c);
    lemma_root_rows(x, y, z, c.l.val(), c.a.val(), c.b.val(), back.x.val(), back.y.val(), back.z.val(), u);
}

#[verifier::rlimit(50)]
proof fn lemma_from_lab(c: Oklab, p: int, minus_p: bool, q: int, minus_q: bool)
    requires
        is_moderate(Triple { x: c.l, y: c.a, z: c.b }),
        0 <= p <= 0x10_0000_0000,
        0 <= q <= 0x10_0000_0000,
    ensures
        ({
            let (a, b) = (prod(coefficient(p), c.a), prod(coefficient(q), c.b));
            let two = if minus_p {
                diff(c.l, a)
            } else {
                sum(c.l, a)
            };
            let all = if minus_q {
                diff(two, b)
            } else {
                sum(two, b)
            };
            let exact = 10000000000 * c.l.val() + (if minus_p {
                -(p * c.a.val())
            } else {
                p * c.a.val()
            }) + (if minus_q {
                -(q * c.b.val())
            } else {
                q * c.b.val()
            });
            0x100_0000_0000 * gap(10000000000 * all.val(), exact) <= 10000000000 * one_unit()
        }),
{
    let (a, b) = (prod(coefficient(p), c.a), prod(coefficient(q), c.b));
    lemma_pow2_pos(UNIT_EXP as nat);
    lemma_signed_term(p, c.a, minus_p);
    lemma_signed_term(q, c.b, minus_q);
    lemma_three(
        c.l,
        signed_by(a, minus_p),
        signed_by(b, minus_q),
        10000000000 * c.l.val(),
        if minus_p {
            -(p * c.a.val())
        } else {
            p * c.a.val()
        },
        if minus_q {
            -(q * c.b.val())
        } else {
            q * c.b.val()
        },
    );
}

/// What a fraction is worth as a factor, in whole numbers: `w` stands for
/// `n / d`.
proof fn lemma_ratio_factor(w: int, q: int, n: int, d: int, u: int)
    requires
        u >= 0x10_0000_0000_0000_0000_0000,
        1 <= n <= 0x10_0000,
        1 <= d <= 0x10_0000,
        0 <= q <= 8 * u,
        0x20_0000_0000_0000 * gap(w * d, n * u) <= n * u + 0x10_0000_0000_0000 * d,
    ensures
        0x20_0000_0000_0000 * gap(d * (w * q), n * (q * u)) <= 16 * (n * (u * u)),
{
    lemma_gap_scales(w * d, n * u, q);
    let (g, nu, uu) = (gap(w * d, n * u), n * u, u * u);
    assert(0x10_0000_0000_0000 * d <= nu) by (nonlinear_arith)
        requires
            1 <= d <= 0x10_0000,
            n >= 1,
            nu == n * u,
            u >= 0x10_0000_0000_0000_0000_0000,
    ;
    assert(0x20_0000_0000_0000 * (g * q) <= 16 * (n * uu)) by (nonlinear_arith)
        requires
            0x20_0000_0000_0000 * g <= 2 * nu,
            0 <= q <= 8 * u,
            g >= 0,
            nu == n * u,
            uu == u * u,
            n >= 1,
            u > 0,
    ;
    assert((w * d) * q == d * (w * q) && (n * u) * q == n * (q * u)) by (nonlinear_arith);
}

/// A number times a fraction of whole numbers.
#[verifier::rlimit(50)]
pub proof fn lemma_times_ratio(x: Double, n: int, d: int)
    requires
        x.finite(),
        0 <= x.val() <= 8 * one_unit(),
        1 <= n <= 0x10_0000,
        1 <= d <= 0x10_0000,
    ensures
        prod(x, ratio(n, d)).finite(),
        prod(ratio(n, d), x).finite(),
        prod(ratio(n, d), x) == prod(x, ratio(n, d)),
        0x20_0000_0000_0000 * gap(d * prod(x, ratio(n, d)).val(), n * x.val()) <= 32 * (n * one_unit()) + d * one_unit(),
{
    let u = one_unit() as int;
    lemma_large_unit();
    lemma_ratio_near(n, d);
    lemma_ratio_moderate(n, d);
    let w = ratio(n, d);
    lemma_small_product(x, w);
    lemma_prod_commutes(x, w);
    lemma_prod_near(x, w);
    let (p, xv, wv) = (prod(x, w).val(), x.val(), w.val());
    lemma_ratio_factor(wv, xv, n, d, u);
    let (nx, dp, xw, uu) = (n * xv, d * p, xv * wv, u * u);
    assert(wv * xv == xw && n * (xv * u) == nx * u && d * (p * u) == dp * u) by (nonlinear_arith)
        requires
            nx == n * xv,
            dp == d * p,
            xw == xv * wv,
    ;
    assert(xw >= 0) by (nonlinear_arith)
        requires
            xw == xv * wv,
            xv >= 0,
            wv >= 0,
    ;
    let g = gap(p * u, xw);
    lemma_gap_scales(p * u, xw, d);
    assert(nx * u <= 8 * (n * uu)) by (nonlinear_arith)
        requires
            nx == n * xv,
            xv <= 8 * u,
            n >= 1,
            u > 0,
            uu == u * u,
    ;
    assert(0x20_0000_0000_0000 * (g * d) <= d * xw + 0x10_0000_0000_0000 * (d * u)) by (nonlinear_arith)
        requires
            0x20_0000_0000_0000 * g <= xw + 0x10_0000_0000_0000 * u,
            d >= 1,
    ;
    assert((p * u) * d == dp * u && xw * d == d * xw) by (nonlinear_arith)
        requires
            dp == d * p,
    ;
    assert(0x10_0000_0000_0000 * (d * u) <= d * uu) by (nonlinear_arith)
        requires
            u >= 0x10_0000_0000_0000,
            d >= 1,
            uu == u * u,
    ;
    lemma_ratio_sums(dp * u, d * xw, nx * u, n * uu, d * uu);
    lemma_gap_scales(dp, nx, u);
    lemma_ratio_divided(gap(dp, nx), u, n, d);
}

proof fn lemma_ratio_sums(a: int, b: int, c: int, n: int, d: int)
    requires
        n >= 0,
        c <= 8 * n,
        0x20_0000_0000_0000 * gap(b, c) <= 16 * n,
        0x20_0000_0000_0000 * gap(a, b) <= b + d,
    ensures
        0x20_0000_0000_0000 * gap(a, c) <= 32 * n + d,
{
    assert(gap(a, c) <= gap(a, b) + gap(b, c));
}

proof fn lemma_ratio_divided(e: int, u: int, n: int, d: int)
    requires
        u > 0,
        0x20_0000_0000_0000 * (e * u) <= 32 * (n * (u * u)) + d * (u * u),
    ensures
        0x20_0000_0000_0000 * e <= 32 * (n * u) + d * u,
{
    assert(0x20_0000_0000_0000 * e <= 32 * (n * u) + d * u) by (nonlinear_arith)
        requires
            u > 0,
            0x20_0000_0000_0000 * (e * u) <= 32 * (n * (u * u)) + d * (u * u),
    ;
}

pub proof fn lemma_large_unit()
    ensures
        one_unit() >= 0x10_0000_0000_0000_0000_0000,
{
    lemma2_to64();
    lemma2_to64_rest();
    lemma_pow2_adds(64, 20);
    crate::rounding::lemma_pow2_le(84, UNIT_EXP as nat);
}

proof fn lemma_ratio_moderate(n: int, d: int)
    requires
        1 <= n <= 0x10_0000,
        1 <= d <= 0x10_0000,
    ensures
        0 <= ratio(n, d).val() <= 0x1_0000_0000 * one_unit(),
{
    let (u, w) = (one_unit() as int, ratio(n, d).val());
    lemma_large_unit();
    lemma_ratio_near(n, d);
    assert(w <= w * d) by (nonlinear_arith)
        requires
            w >= 0,
            d >= 1,
    ;
    assert(n * u <= 0x10_0000 * u) by (nonlinear_arith)
        requires
            n <= 0x10_0000,
            u > 0,
    ;
}

/// A dim channel's light is proportional to it, and faint light's channel to
/// it in turn: a channel is 12.92 times the light.
pub proof fn law_dim_channels_are_proportional(c: Double, raised: Double)
    requires
        c.finite(),
        0 <= c.val() <= one_unit(),
    ensures
        ({
            let (l, ch, u) = (light_of_channel(c, raised), channel_of_light(c, raised), one_unit() as int);
            &&& is_dim(c) ==> 0x1_0000_0000 * gap(1292 * l.val(), 100 * c.val()) <= u
            &&& !is_dim(c) ==> l == raised
            &&& is_faint(c) ==> 0x1_0000_0000 * gap(100 * ch.val(), 1292 * c.val()) <= u
        }),
{
    let u = one_unit() as int;
    lemma_large_unit();
    lemma_times_ratio(c, 1292, 100);
    if is_dim(c) {
        lemma_dim(c);
    }
}

proof fn lemma_dim(c: Double)
    requires
        c.finite(),
        0 <= c.val() <= one_unit(),
    ensures
        0x1_0000_0000 * gap(1292 * quot(c, ratio(1292, 100)).val(), 100 * c.val()) <= one_unit(),
{
    let u = one_unit() as int;
    lemma_large_unit();
    lemma_ratio_near(1292, 100);
    lemma_over_ratio(c, 1292, 100);
}

/// A number over a fraction of whole numbers that is one or more.
#[verifier::rlimit(50)]
proof fn lemma_over_ratio(x: Double, n: int, d: int)
    requires
        x.finite(),
        0 <= x.val() <= 4 * one_unit(),
        d <= n <= 0x10_0000,
        1 <= d <= 0x10_0000,
    ensures
        quot(x, ratio(n, d)).finite(),
        0 <= quot(x, ratio(n, d)).val() <= 4 * one_unit(),
        0x20_0000_0000_0000 * gap(n * quot(x, ratio(n, d)).val(), d * x.val()) <= 32 * (n * one_unit()),
{
    let u = one_unit() as int;
    let w = ratio(n, d);
    lemma_large_unit();
    lemma_ratio_near(n, d);
    lemma_ratio_moderate(n, d);
    lemma_int_double_exact(n);
    lemma_quot_by_int(int_double(n), d);
    assert(d * u <= n * u) by (nonlinear_arith)
        requires
            d <= n,
            u > 0,
    ;
    lemma_quot_shrinks(x, w);
    lemma_quot_near(x, w);
    if x.val() == 0 {
        lemma_no_quotient(x, w);
    }
    let (q, xv, wv) = (quot(x, w).val(), x.val(), w.val());
    lemma_ratio_factor(wv, q, n, d, u);
    let (nq, dx, uu) = (n * q, d * xv, u * u);
    let g = gap(q * wv, xv * u);
    lemma_gap_scales(q * wv, xv * u, d);
    assert(xv * u >= 0 && xv * u <= 4 * uu && 0x10_0000_0000_0000 * wv <= uu) by (nonlinear_arith)
        requires
            0 <= xv <= 4 * u,
            u >= 0x10_0000_0000_0000_0000_0000,
            wv <= 0x1_0000_0000 * u,
            uu == u * u,
    ;
    assert(0x20_0000_0000_0000 * (g * d) <= 5 * (n * uu)) by (nonlinear_arith)
        requires
            0x20_0000_0000_0000 * g <= xv * u + uu,
            xv * u <= 4 * uu,
            1 <= d <= n,
            g >= 0,
            uu > 0,
    ;
    assert((q * wv) * d == d * (wv * q) && (xv * u) * d == dx * u && n * (q * u) == nq * u) by (nonlinear_arith)
        requires
            nq == n * q,
            dx == d * xv,
    ;
    lemma_over_sums(nq * u, d * (wv * q), dx * u, n * uu);
    lemma_gap_scales(nq, dx, u);
    lemma_over_divided(gap(nq, dx), u, n);
}

proof fn lemma_over_sums(a: int, b: int, c: int, n: int)
    requires
        0x20_0000_0000_0000 * gap(b, a) <= 16 * n,
        0x20_0000_0000_0000 * gap(b, c) <= 5 * n,
        n >= 0,
    ensures
        0x20_0000_0000_0000 * gap(a, c) <= 32 * n,
{
    assert(gap(a, c) <= gap(b, a) + gap(b, c));
}

proof fn lemma_over_divided(e: int, u: int, n: int)
    requires
        u > 0,
        0x20_0000_0000_0000 * (e * u) <= 32 * (n * (u * u)),
    ensures
        0x20_0000_0000_0000 * e <= 32 * (n * u),
{
    assert(0x20_0000_0000_0000 * e <= 32 * (n * u)) by (nonlinear_arith)
        requires
            u > 0,
            0x20_0000_0000_0000 * (e * u) <= 32 * (n * (u * u)),
    ;
}

/// What a channel is raised from takes the channel evenly from 0.055 to 1.055,
/// over 1.055, and the way back from that power takes it off again: a channel
/// that is not dim comes back as it was.
#[verifier::rlimit(50)]
pub proof fn law_bright_channels_come_back(c: Double, light: Double)
    requires
        c.finite(),
        0 <= c.val() <= one_unit(),
        !is_faint(light),
    ensures
        ({
            let (b, back, u) = (base_of_channel(c), channel_of_light(light, base_of_channel(c)), one_unit() as int);
            &&& 0x1000_0000 * gap(1055 * b.val(), 1000 * c.val() + 55 * u) <= u
            &&& 0x1000_0000 * gap(back.val(), c.val()) <= u
        }),
{
    let u = one_unit() as int;
    let (e, w) = (ratio(55, 1000), ratio(1055, 1000));
    lemma_large_unit();
    lemma_ratio_near(55, 1000);
    lemma_small_sum(c, e);
    lemma_sum_near(c, e);
    let s = sum(c, e);
    lemma_over_ratio(s, 1055, 1000);
    let b = base_of_channel(c);
    lemma_times_ratio(b, 1055, 1000);
    let p = prod(w, b);
    assert(opposite(e).val() == -e.val() && opposite(e).finite());
    lemma_small_sum(p, opposite(e));
    lemma_diff_near(p, e);
}

/// A polar color keeps its lightness, and its chroma goes along the two color
/// axes by the cosine and the sine of the hue.
pub proof fn law_polar_colors_turn_by_the_hue(c: Oklch, cosine: Double, sine: Double)
    requires
        c.chroma.finite(),
        cosine.finite(),
        sine.finite(),
        prod(c.chroma, cosine).finite(),
        prod(c.chroma, sine).finite(),
    ensures
        ({
            let (lab, u) = (lab_of_polar(c, cosine, sine), one_unit() as int);
            &&& lab.l == c.lightness
            &&& about(lab.a.val() * u, c.chroma.val() * cosine.val(), u)
            &&& about(lab.b.val() * u, c.chroma.val() * sine.val(), u)
            &&& cosine == int_double(1) && sine.val() == 0 ==> lab.a == c.chroma && lab.b.val() == 0
            &&& cosine.val() == 0 && sine == int_double(1) ==> lab.a.val() == 0 && lab.b == c.chroma
        }),
{
    lemma_pow2_pos(UNIT_EXP as nat);
    lemma_prod_near(c.chroma, cosine);
    lemma_prod_near(c.chroma, sine);
    lemma_times_one(c.chroma);
    if sine.val() == 0 {
        lemma_times_zero(c.chroma, sine);
    }
    if cosine.val() == 0 {
        lemma_times_zero(c.chroma, cosine);
    }
}

/// A pixel weighs as much as it covers, its alpha over 255, and its straight
/// channel times the alpha is the channel.
pub proof fn law_pixels_weigh_as_much_as_they_cover(channel: u8, p: Pixel)
    requires
        p.a > 0,
    ensures
        0x1_0000_0000 * gap(255 * pixel_weight(p).val(), p.a * one_unit()) <= one_unit(),
        0x1_0000_0000 * gap(p.a * straight(channel, p).val(), channel * one_unit()) <= one_unit(),
{
    let u = one_unit() as int;
    lemma_large_unit();
    lemma_int_double_exact(p.a as int);
    lemma_int_double_exact(channel as int);
    lemma_quot_by_int(int_double(p.a as int), 255);
    lemma_quot_by_int(int_double(channel as int), p.a as int);
    assert(0 <= p.a * u <= 255 * u && 0 <= channel * u <= 255 * u) by (nonlinear_arith)
        requires
            0 <= p.a <= 255,
            0 <= channel <= 255,
            u > 0,
    ;
    let q = straight(channel, p).val();
    assert(p.a * q == q * p.a) by (nonlinear_arith);
}

/// The average of one pixel is its straight color.
#[verifier::rlimit(50)]
pub proof fn law_one_pixel_is_its_own_average(p: Pixel)
    requires
        p.a == 255,
    ensures
        ({
            let c = mean_color(pixel_totals(seq![p]));
            &&& c.r.val() == straight(p.r, p).val()
            &&& c.g.val() == straight(p.g, p).val()
            &&& c.b.val() == straight(p.b, p).val()
            &&& c.a == int_double(1)
        }),
{
    let one = int_double(1);
    let u = one_unit() as int;
    lemma_large_unit();
    lemma_int_double_exact(0);
    lemma_int_double_exact(1);
    assert(0 * one_unit() == 0);
    crate::export::lemma_exact_quotient(1, 255);
    assert(pixel_weight(p) == one);
    let pixels = seq![p];
    assert(pixels.drop_last() =~= Seq::<Pixel>::empty());
    assert(pixels.last() == p);
    assert(pixel_totals(pixels.drop_last()) == crate::palette::no_totals());
    let t = pixel_totals(pixels);
    lemma_plus_zero(one, int_double(0));
    assert(t.weight == one);
    lemma_own_average(p.r, p);
    lemma_own_average(p.g, p);
    lemma_own_average(p.b, p);
}

proof fn lemma_own_average(channel: u8, p: Pixel)
    requires
        p.a == 255,
        pixel_weight(p) == int_double(1),
    ensures
        share(quot(sum(int_double(0), prod(straight(channel, p), pixel_weight(p))), int_double(1))).val() == straight(
            channel,
            p,
        ).val(),
{
    let u = one_unit() as int;
    lemma_pow2_pos(UNIT_EXP as nat);
    lemma_int_double_exact(0);
    lemma_int_double_exact(1);
    assert(0 * one_unit() == 0);
    lemma_int_double_exact(channel as int);
    lemma_quot_by_int(int_double(channel as int), 255);
    assert(0 <= channel * u <= 255 * u) by (nonlinear_arith)
        requires
            0 <= channel <= 255,
            u > 0,
    ;
    let q = straight(channel, p);
    lemma_times_one(q);
    lemma_plus_zero(q, int_double(0));
    let s = sum(int_double(0), q);
    lemma_times_one(s);
    lemma_share_ends(s);
}

/// Whether `a` is `b` up to a part in a thousand million of one.
pub open spec fn is_close(a: int, b: int) -> bool {
    0x4000_0000 * gap(a, b) <= one_unit()
}

/// A gradient that complements a color lies around the opposite hue: its two
/// ends are four tenths to either side of it, turned together by half the sine
/// of the seed. It begins at one minus the lightness and at seven tenths of the
/// chroma, as far as the range of a background allows.
#[verifier::rlimit(50)]
pub proof fn law_complements_lie_opposite(lightness: Double, chroma: Double, hue: Double, seed: u32, sine: Double)
    requires
        lightness.finite(),
        0 <= lightness.val() <= one_unit(),
        chroma.finite(),
        0 <= chroma.val() <= one_unit(),
        hue.finite(),
        gap(hue.val(), 0) <= 8 * one_unit(),
        sine.finite(),
        sine.mag() <= one_unit(),
    ensures
        ({
            let (plan, u) = (complement(lightness, chroma, hue, seed, sine), one_unit() as int);
            let middle = 10 * (hue.val() + pi().val()) + 5 * sine.val();
            &&& is_close(10 * plan.first.hue.val(), middle - 4 * u)
            &&& is_close(10 * plan.last.hue.val(), middle + 4 * u)
            &&& plan.first.lightness == ratio(20, 100) && 100 * (u - lightness.val()) <= 21 * u
                || plan.first.lightness == ratio(85, 100) && 100 * (u - lightness.val()) >= 84 * u || is_close(
                plan.first.lightness.val(),
                u - lightness.val(),
            )
            &&& plan.first.chroma == ratio(2, 100) && 70 * chroma.val() <= 3 * u || plan.first.chroma == ratio(9, 100)
                && 70 * chroma.val() >= 8 * u || is_close(10 * plan.first.chroma.val(), 7 * chroma.val())
        }),
{
    let u = one_unit() as int;
    let plan = complement(lightness, chroma, hue, seed, sine);
    lemma_large_unit();
    lemma_complement_hues(hue, sine);
    lemma_rest(lightness);
    lemma_ratio_near(20, 100);
    lemma_ratio_near(85, 100);
    lemma_ratio_near(2, 100);
    lemma_ratio_near(9, 100);
    lemma_times_ratio(chroma, 7, 10);
}

#[verifier::rlimit(50)]
proof fn lemma_complement_hues(hue: Double, sine: Double)
    requires
        hue.finite(),
        gap(hue.val(), 0) <= 8 * one_unit(),
        sine.finite(),
        sine.mag() <= one_unit(),
    ensures
        ({
            let (o, part, spread) = (sum(hue, pi()), ratio(4, 10), prod(sine, ratio(5, 10)));
            let (middle, u) = (10 * (hue.val() + pi().val()) + 5 * sine.val(), one_unit() as int);
            &&& is_close(10 * sum(diff(o, part), spread).val(), middle - 4 * u)
            &&& is_close(10 * sum(sum(o, part), spread).val(), middle + 4 * u)
        }),
{
    let (o, part, spread) = (sum(hue, pi()), ratio(4, 10), prod(sine, ratio(5, 10)));
    lemma_large_unit();
    lemma_pi_moderate();
    lemma_small_sum(hue, pi());
    lemma_sum_near(hue, pi());
    lemma_ratio_near(4, 10);
    lemma_half_of(sine);
    assert(opposite(part).val() == -part.val() && opposite(part).finite());
    lemma_turned_by(o, part, spread);
    lemma_turned_by(o, opposite(part), spread);
    let (last, first) = (sum(sum(o, part), spread).val(), sum(sum(o, opposite(part)), spread).val());
    let (u, exact) = (one_unit() as int, hue.val() + pi().val());
    lemma_hue_sums(last, o.val(), part.val(), spread.val(), exact, sine.val(), 4 * u, u);
    lemma_hue_sums(first, o.val(), -part.val(), spread.val(), exact, sine.val(), -4 * u, u);
}

proof fn lemma_hue_sums(hue: int, o: int, part: int, spread: int, exact: int, sine: int, tenths: int, u: int)
    requires
        u >= 0x10_0000_0000_0000_0000_0000,
        u == one_unit(),
        gap(exact, 0) <= 12 * u,
        0x20_0000_0000_0000 * gap(o, exact) <= gap(exact, 0),
        0x1_0000_0000_0000 * gap(10 * part, tenths) <= u,
        0x1_0000_0000_0000 * gap(2 * spread, sine) <= u,
        0x20_0000_0000_0000 * gap(hue, o + part + spread) <= 40 * u,
    ensures
        is_close(10 * hue, 10 * exact + 5 * sine + tenths),
{
    assert(gap(10 * hue, 10 * exact + 5 * sine + tenths) <= 10 * gap(hue, o + part + spread) + 10 * gap(o, exact) + gap(
        10 * part,
        tenths,
    ) + 5 * gap(2 * spread, sine));
}

proof fn lemma_half_of(v: Double)
    requires
        v.finite(),
        v.mag() <= one_unit(),
    ensures
        prod(v, ratio(5, 10)).finite(),
        gap(prod(v, ratio(5, 10)).val(), 0) <= one_unit(),
        0x1_0000_0000_0000 * gap(2 * prod(v, ratio(5, 10)).val(), v.val()) <= one_unit(),
{
    let u = one_unit() as int;
    let half = ratio(5, 10);
    let spread = prod(v, half);
    lemma_large_unit();
    lemma_one_half();
    lemma_prod_shrinks(v, half);
    lemma_prod_near(v, half);
    let (sv, hv) = (v.val(), half.val());
    assert(2 * (sv * hv) == sv * u) by (nonlinear_arith)
        requires
            2 * hv == u,
    ;
    lemma_gap_scales(2 * spread.val(), sv, u);
    lemma_gap_of_product(sv, u);
    let g = gap(2 * spread.val(), sv);
    assert(2 * (spread.val() * u) == (2 * spread.val()) * u) by (nonlinear_arith);
    assert(0x20_0000_0000_0000 * g <= gap(sv, 0) + 0x20_0000_0000_0000) by (nonlinear_arith)
        requires
            0x20_0000_0000_0000 * (g * u) <= gap(sv, 0) * u + 0x20_0000_0000_0000 * u,
            u > 0,
    ;
}

proof fn lemma_turned_by(o: Double, part: Double, spread: Double)
    requires
        o.finite(),
        part.finite(),
        spread.finite(),
        gap(o.val(), 0) <= 13 * one_unit(),
        gap(part.val(), 0) <= one_unit(),
        gap(spread.val(), 0) <= one_unit(),
    ensures
        0x20_0000_0000_0000 * gap(sum(sum(o, part), spread).val(), o.val() + part.val() + spread.val()) <= 40
            * one_unit(),
{
    lemma_large_unit();
    lemma_small_sum(o, part);
    lemma_sum_near(o, part);
    lemma_small_sum(sum(o, part), spread);
    lemma_sum_near(sum(o, part), spread);
}

/// The circle's ratio is between three and four.
pub proof fn lemma_pi_moderate()
    ensures
        pi().finite(),
        3 * one_unit() <= pi().val() <= 4 * one_unit(),
{
    let u = one_unit() as int;
    lemma_large_unit();
    lemma_int_double_exact(884279719003555);
    lemma_quot_by_int(int_double(884279719003555), 281474976710656);
}

/// The dominant colors come in the order of what they weigh: none is lighter
/// than a later one.
pub proof fn law_dominant_colors_are_the_heaviest(keys: Seq<BucketKey>, tags: Seq<Tagged>, i: int, j: int)
    requires
        is_ranking(keys, tags),
        0 <= i < j < keys.len(),
    ensures
        !lt(bucket_totals(tags, keys[i]).weight, bucket_totals(tags, keys[j]).weight),
        occupied(tags, keys[i]),
{
    assert(ranks_before(tags, keys[i], keys[j]));
}

/// A cell's color is the mean of what is in it: times the weight it is the sum.
pub proof fn law_cluster_colors_are_means(t: ColorTotals)
    requires
        t.r.finite(),
        t.g.finite(),
        t.b.finite(),
        t.weight.finite(),
        t.weight.val() > 0,
        ({
            let c = cluster_color(t);
            c.r.finite() && c.g.finite() && c.b.finite()
        }),
    ensures
        ({
            let (c, u, w) = (cluster_color(t), one_unit() as int, t.weight.val());
            &&& about(c.r.val() * w, t.r.val() * u, w)
            &&& about(c.g.val() * w, t.g.val() * u, w)
            &&& about(c.b.val() * w, t.b.val() * u, w)
            &&& c.a == int_double(1)
        }),
{
    lemma_quot_near(t.r, t.weight);
    lemma_quot_near(t.g, t.weight);
    lemma_quot_near(t.b, t.weight);
}

/// The average is a mean too: times the weight it is the sum, in every channel
/// that is in range.
pub proof fn law_average_colors_are_means(t: ColorTotals)
    requires
        t.r.finite(),
        t.weight.finite(),
        t.weight.val() > 0,
        quot(t.r, t.weight).finite(),
        0 <= quot(t.r, t.weight).val() <= one_unit(),
        t.g.finite(),
        quot(t.g, t.weight).finite(),
        0 <= quot(t.g, t.weight).val() <= one_unit(),
        t.b.finite(),
        quot(t.b, t.weight).finite(),
        0 <= quot(t.b, t.weight).val() <= one_unit(),
    ensures
        ({
            let (c, u, w) = (mean_color(t), one_unit() as int, t.weight.val());
            &&& about(c.r.val() * w, t.r.val() * u, w)
            &&& about(c.g.val() * w, t.g.val() * u, w)
            &&& about(c.b.val() * w, t.b.val() * u, w)
        }),
{
    lemma_int_double_exact(0);
    assert(0 * one_unit() == 0);
    lemma_share_ends(quot(t.r, t.weight));
    lemma_share_ends(quot(t.g, t.weight));
    lemma_share_ends(quot(t.b, t.weight));
    lemma_quot_near(t.r, t.weight);
    lemma_quot_near(t.g, t.weight);
    lemma_quot_near(t.b, t.weight);
}

/// The samples of a row are its pixels that are not transparent, among those
/// that are looked at: each of them is one, and each visible one is among them.
pub proof fn law_samples_are_the_visible_pixels(bytes: Seq<u8>, width: int, y: int, n: nat, p: Pixel)
    ensures
        row_samples(bytes, width, y, n).contains(p) <==> p.a > 0 && exists|k: int|
            0 <= k < n && p == #[trigger] looked_at(bytes, width, y, k),
    decreases n,
{
    let all = row_samples(bytes, width, y, n);
    if n > 0 {
        let before = row_samples(bytes, width, y, (n - 1) as nat);
        let next = looked_at(bytes, width, y, n - 1);
        law_samples_are_the_visible_pixels(bytes, width, y, (n - 1) as nat, p);
        if before.contains(p) {
            let i = choose|i: int| 0 <= i < before.len() && before[i] == p;
            assert(all[i] == p);
        }
        if next.a > 0 {
            assert(all[before.len() as int] == next);
        }
        if all.contains(p) {
            let i = choose|i: int| 0 <= i < all.len() && all[i] == p;
            if i < before.len() {
                assert(before[i] == p);
            }
        }
    }
}

/// The `k`th pixel of a row that is looked at: every seventh one is.
pub open spec fn looked_at(bytes: Seq<u8>, width: int, y: int, k: int) -> Pixel {
    let i = y * (4 * width) + 4 * (SAMPLE_STRIDE * k);
    Pixel { b: bytes[i], g: bytes[i + 1], r: bytes[i + 2], a: bytes[i + 3] }
}

} // verus!
