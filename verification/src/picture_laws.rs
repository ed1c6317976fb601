//! What pictures promise on the way in and out: alpha is multiplied in and taken
//! out again, every byte keeps its place, and an export has the proportions of
//! the canvas.
use crate::arith_laws::{lemma_int_double_exact, lemma_prod_commutes};
use crate::controls::export_height;
use crate::double::{one_unit, prod, quot, UNIT_EXP};
use crate::export::{exported_pixels, lemma_exact_product, lemma_pixel_index, output_size_of, straightened};
use crate::import::{decoded_pixels, holds_source, law_opaque_pixels_survive, premultiplied, respaced, SourceFormat};
use crate::model::CanvasSettings;
use crate::near_laws::{about, lemma_gap_scales, lemma_prod_by_int, lemma_quot_by_int};
use crate::palette_laws::lemma_small_product;
use crate::pointer_laws::lemma_nearest_pixels;
use crate::preset_laws::gap;
use crate::whole::{int_double, whole, Rounding};
use vstd::arithmetic::div_mod::*;
use vstd::arithmetic::power2::*;
use vstd::prelude::*;

verus! {

/// What a whole number of units says of the numbers.
proof fn lemma_without_units(x: int, y: int, bound: int, u: int, rest: int)
    requires
        u > 0,
        2 * gap(x * u, y * u) <= bound * u + rest,
        rest < u,
    ensures
        2 * gap(x, y) <= bound,
{
    lemma_gap_scales(x, y, u);
    let g = gap(x, y);
    assert(2 * g <= bound) by (nonlinear_arith)
        requires
            2 * (g * u) <= bound * u + rest,
            rest < u,
            u > 0,
    ;
}

/// Taking the alpha out gives the channel times 255 over the alpha, to the
/// nearest whole number: of a channel that is as much as the alpha, or more, all
/// there is, and of a pixel without alpha nothing.
#[verifier::rlimit(50)]
pub proof fn law_straightening_divides_by_the_alpha(c: u8, a: u8)
    ensures
        a == 0 ==> straightened(c, a) == 0,
        c <= a ==> 2 * gap(straightened(c, a) * a, 255 * c) <= a,
        c >= a > 0 ==> straightened(c, a) == 255,
{
    if a > 0 {
        let u = one_unit() as int;
        lemma2_to64();
        lemma2_to64_rest();
        crate::rounding::lemma_pow2_le(64, UNIT_EXP as nat);
        lemma_exact_product(c as int, 255);
        let top = int_double(c * 255);
        lemma_int_double_exact(c * 255);
        lemma_quot_by_int(top, a as int);
        let q = quot(top, int_double(a as int));
        lemma_nearest_pixels(q);
        let n = whole(q, Rounding::Nearest);
        let (na, qa) = (n * a, q.val() * a);
        // Half a unit for the whole number, and the rounding of the quotient.
        lemma_gap_scales(n * u, q.val(), a as int);
        let g = gap(n * u, q.val());
        assert(2 * (g * a) <= a * u) by (nonlinear_arith)
            requires
                2 * g <= u,
                a > 0,
        ;
        assert((n * u) * a == na * u && (c * 255) * u == (255 * c) * u) by (nonlinear_arith)
            requires
                na == n * a,
        ;
        let top_u = (255 * c) * u;
        assert(0 <= top_u <= 65025 * u) by (nonlinear_arith)
            requires
                top_u == (255 * c) * u,
                0 <= c <= 255,
                u > 0,
        ;
        assert(gap(na * u, top_u) <= gap(na * u, qa) + gap(qa, top_u));
        lemma_without_units(na, 255 * c, a as int, u, u - 1);
        if c <= a {
            assert(n <= 255) by (nonlinear_arith)
                requires
                    na == n * a,
                    2 * (na - 255 * c) <= a,
                    c <= a,
                    a > 0,
            ;
        }
        if c >= a {
            assert(n >= 255) by (nonlinear_arith)
                requires
                    na == n * a,
                    2 * (255 * c - na) <= a,
                    c >= a,
                    a > 0,
            ;
        }
    }
}

/// Multiplying the alpha in gives the channel times the alpha over 255, to the
/// nearest whole number.
#[verifier::rlimit(50)]
pub proof fn law_premultiplying_multiplies_by_the_alpha(c: u8, a: u8)
    ensures
        2 * gap(255 * premultiplied(c, a), c * a) <= 255,
        premultiplied(c, a) <= a,
        premultiplied(c, a) <= c,
{
    let u = one_unit() as int;
    lemma2_to64();
    lemma2_to64_rest();
    crate::rounding::lemma_pow2_le(64, UNIT_EXP as nat);
    lemma_int_double_exact(a as int);
    lemma_int_double_exact(c as int);
    lemma_int_double_exact(1);
    lemma_quot_by_int(int_double(a as int), 255);
    let q = quot(int_double(a as int), int_double(255));
    assert(a * u <= 255 * u && a * u >= 0) by (nonlinear_arith)
        requires
            0 <= a <= 255,
            u > 0,
    ;
    assert(c * u <= 0x1_0000_0000 * u) by (nonlinear_arith)
        requires
            c <= 255,
            u > 0,
    ;
    lemma_prod_commutes(int_double(c as int), q);
    lemma_small_product(int_double(c as int), q);
    let p = prod(q, int_double(c as int));
    lemma_prod_by_int(q, c as int);
    lemma_nearest_pixels(p);
    let n = whole(p, Rounding::Nearest);
    let (qc, ca) = (q.val() * c, c * a);
    // The share's error, times the channel.
    lemma_gap_scales(q.val() * 255, a * u, c as int);
    let g = gap(q.val() * 255, a * u);
    assert(0x20_0000_0000_0000 * (g * c) <= 255 * (a * u + 255 * 0x10_0000_0000_0000)) by (nonlinear_arith)
        requires
            0x20_0000_0000_0000 * g <= a * u + 255 * 0x10_0000_0000_0000,
            0 <= c <= 255,
            g >= 0,
    ;
    assert((q.val() * 255) * c == 255 * qc && (a * u) * c == ca * u && 255 * (n * u) == (255 * n) * u)
        by (nonlinear_arith)
        requires
            qc == q.val() * c,
            ca == c * a,
    ;
    assert(0 <= qc <= 255 * u) by (nonlinear_arith)
        requires
            qc == q.val() * c,
            0 <= q.val() <= u,
            0 <= c <= 255,
    ;
    let nu = n * u;
    assert(gap(255 * nu, ca * u) <= 255 * gap(nu, p.val()) + 255 * gap(p.val(), qc) + gap(255 * qc, ca * u));
    lemma_without_units(255 * n, ca, 255, u, u - 1);
    assert(ca <= 255 * a && ca <= 255 * c) by (nonlinear_arith)
        requires
            ca == c * a,
            0 <= c <= 255,
            0 <= a <= 255,
    ;
}

/// A channel comes back from a picture as it went in, as near as the alpha
/// leaves room for.
pub proof fn law_channels_come_back(c: u8, a: u8)
    requires
        a > 0,
    ensures
        2 * (a * gap(straightened(premultiplied(c, a), a) as int, c as int)) <= a + 255,
{
    let m = premultiplied(c, a);
    law_premultiplying_multiplies_by_the_alpha(c, a);
    law_straightening_divides_by_the_alpha(m, a);
    let s = straightened(m, a) as int;
    lemma_gap_scales(s, c as int, a as int);
    assert(gap(s, c as int) * a == a * gap(s, c as int)) by (nonlinear_arith);
    assert(c * a == a * c) by (nonlinear_arith);
}

/// A picture goes through an import and an export unchanged where it is opaque,
/// whatever the distances of the rows: the pixel in a row and a column is the
/// one of that row and column, red, green and blue are what they were, and so
/// is the alpha, opaque or not.
#[verifier::rlimit(50)]
pub proof fn law_import_and_export_keep_the_picture(
    src: Seq<u8>,
    f: SourceFormat,
    stride: int,
    x: int,
    y: int,
    c: int,
)
    requires
        holds_source(src.len() as int, f),
        stride >= 4 * f.width,
        0 <= x < f.width,
        0 <= y < f.height,
        0 <= c < 4,
    ensures
        ({
            let (w, h) = (f.width as int, f.height as int);
            let drawn = respaced(decoded_pixels(src, f), 4 * w, 4 * w, stride, h);
            let out = exported_pixels(drawn, w, h, stride);
            let (at, from) = (4 * w * y + 4 * x + c, y * f.stride + x * f.channels);
            let a = if f.has_alpha {
                src[from + 3]
            } else {
                255
            };
            &&& 0 <= at < out.len()
            &&& c == 3 ==> out[at] == a
            &&& c < 3 && a == 255 ==> out[at] == src[from + c]
            &&& c < 3 && a > 0 ==> 2 * (a * gap(out[at] as int, src[from + c] as int)) <= a + 255
        }),
{
    let (w, h) = (f.width as int, f.height as int);
    let dec = decoded_pixels(src, f);
    let drawn = respaced(dec, 4 * w, 4 * w, stride, h);
    let at = 4 * w * y + 4 * x + c;
    let from = y * f.stride + x * f.channels;
    lemma_pixel_index(w, y, x, c, at);
    assert(0 <= at < 4 * w * h) by (nonlinear_arith)
        requires
            at == 4 * w * y + 4 * x + c,
            0 <= x,
            x + 1 <= w,
            0 <= y,
            y + 1 <= h,
            0 <= c < 4,
    ;
    let a = if f.has_alpha {
        src[from + 3]
    } else {
        255
    };
    lemma_drawn_byte(src, f, stride, x, y, 3);
    if c < 3 {
        lemma_drawn_byte(src, f, stride, x, y, 2 - c);
        law_opaque_pixels_survive(src[from + c]);
        if a > 0 {
            law_channels_come_back(src[from + c], a);
        }
    }
}

/// Where a byte of an imported picture is drawn.
proof fn lemma_drawn_byte(src: Seq<u8>, f: SourceFormat, stride: int, x: int, y: int, c: int)
    requires
        holds_source(src.len() as int, f),
        stride >= 4 * f.width,
        0 <= x < f.width,
        0 <= y < f.height,
        0 <= c < 4,
    ensures
        ({
            let (w, h) = (f.width as int, f.height as int);
            let from = y * f.stride + x * f.channels;
            let a = if f.has_alpha {
                src[from + 3]
            } else {
                255
            };
            respaced(decoded_pixels(src, f), 4 * w, 4 * w, stride, h)[y * stride + 4 * x + c] == if c == 3 {
                a
            } else {
                premultiplied(src[from + 2 - c], a)
            }
        }),
{
    let (w, h) = (f.width as int, f.height as int);
    let i = 4 * w * y + 4 * x + c;
    let j = y * stride + 4 * x + c;
    lemma_pixel_index(w, y, x, c, i);
    assert(0 <= i < 4 * w * h && i == y * (4 * w) + (4 * x + c)) by (nonlinear_arith)
        requires
            i == 4 * w * y + 4 * x + c,
            0 <= x,
            x + 1 <= w,
            0 <= y,
            y + 1 <= h,
            0 <= c < 4,
    ;
    assert(0 <= j < stride * h) by (nonlinear_arith)
        requires
            j == y * stride + 4 * x + c,
            0 <= 4 * x + c < stride,
            0 <= y,
            y + 1 <= h,
    ;
    lemma_fundamental_div_mod_converse(j, stride, y, 4 * x + c);
}

/// An export is as wide as it is to be, and as high as the canvas' proportions
/// make it, to the nearest pixel: nothing is stretched or cropped. The scale
/// takes the canvas' width to the export's.
#[verifier::rlimit(50)]
pub proof fn law_exports_keep_the_proportions(canvas: CanvasSettings)
    requires
        canvas.export_width > 0,
        canvas.export_target_width > 0,
    ensures
        ({
            let out = output_size_of(canvas);
            let (w, h, t) = (canvas.export_width as int, canvas.export_height as int, canvas.export_target_width as int);
            &&& out.width == t
            &&& about(out.scale.val() * w, t * one_unit(), w)
            &&& out.height == 1 || out.height == u32::MAX || 0x4_0000_0000_0000 * (2 * gap(out.height * w, h * t) - w)
                <= 4 * (h * t) + 0x10_0000_0000_0000
        }),
{
    let u = one_unit() as int;
    let (w, h, t) = (canvas.export_width as int, canvas.export_height as int, canvas.export_target_width as int);
    lemma2_to64();
    lemma2_to64_rest();
    crate::rounding::lemma_pow2_le(64, UNIT_EXP as nat);
    lemma_int_double_exact(t);
    lemma_int_double_exact(h);
    lemma_quot_by_int(int_double(t), w);
    let s = quot(int_double(t), int_double(w));
    assert(t * u > 0) by (nonlinear_arith)
        requires
            t > 0,
            u > 0,
    ;
    assert(h * u <= 0x1_0000_0000 * u) by (nonlinear_arith)
        requires
            h <= 0x1_0000_0000,
            u > 0,
    ;
    lemma_prod_commutes(int_double(h), s);
    lemma_export_scale(t, w);
    lemma_small_product(int_double(h), s);
    let p = prod(s, int_double(h));
    lemma_prod_by_int(s, h);
    lemma_nearest_pixels(p);
    let n = whole(p, Rounding::Nearest);
    let (sh, ht) = (s.val() * h, h * t);
    let e = gap(n * u, sh);
    assert(sh >= 0) by (nonlinear_arith)
        requires
            sh == s.val() * h,
            s.val() >= 0,
            h >= 0,
    ;
    assert(0x20_0000_0000_0000 * (2 * e) <= 0x20_0000_0000_0000 * u + 2 * sh + 0x20_0000_0000_0000) by {
        assert(e <= gap(n * u, p.val()) + gap(p.val(), sh));
    }
    lemma_gap_scales(n * u, sh, w);
    lemma_gap_scales(s.val() * w, t * u, h);
    let (shw, nw) = (sh * w, n * w);
    assert((n * u) * w == nw * u && (s.val() * w) * h == shw && (t * u) * h == ht * u) by (nonlinear_arith)
        requires
            shw == sh * w,
            nw == n * w,
            sh == s.val() * h,
            ht == h * t,
    ;
    assert(0x20_0000_0000_0000 * (2 * (e * w)) <= 0x20_0000_0000_0000 * (w * u) + 2 * shw + 0x20_0000_0000_0000 * w)
        by (nonlinear_arith)
        requires
            0x20_0000_0000_0000 * (2 * e) <= 0x20_0000_0000_0000 * u + 2 * sh + 0x20_0000_0000_0000,
            shw == sh * w,
            w > 0,
    ;
    let k = gap(s.val() * w, t * u);
    assert(0x20_0000_0000_0000 * (k * h) <= ht * u + 0x10_0000_0000_0000 * (w * h)) by (nonlinear_arith)
        requires
            0x20_0000_0000_0000 * k <= t * u + 0x10_0000_0000_0000 * w,
            ht == h * t,
            h >= 0,
    ;
    assert(0 <= w * h <= 0x1_0000_0000_0000_0000 && ht * u >= 0) by (nonlinear_arith)
        requires
            0 < w < 0x1_0000_0000,
            0 <= h < 0x1_0000_0000,
            ht == h * t,
            t > 0,
            u > 0,
    ;
    lemma_proportions(nw * u, shw, ht * u, w * u, w, w * h, u);
    lemma_gap_scales(nw, ht, u);
    let g = gap(nw, ht);
    assert(0x4_0000_0000_0000 * (2 * g - w) <= 4 * ht + 0x10_0000_0000_0000) by (nonlinear_arith)
        requires
            0x4_0000_0000_0000 * (2 * (g * u)) <= 0x4_0000_0000_0000 * (w * u) + 4 * (ht * u) + 0x10_0000_0000_0000 * u,
            u > 0,
    ;
}

proof fn lemma_proportions(nwu: int, shw: int, htu: int, wu: int, w: int, wh: int, u: int)
    requires
        0x20_0000_0000_0000 * (2 * gap(nwu, shw)) <= 0x20_0000_0000_0000 * wu + 2 * shw + 0x20_0000_0000_0000 * w,
        0x20_0000_0000_0000 * gap(shw, htu) <= htu + 0x10_0000_0000_0000 * wh,
        shw >= 0,
        htu >= 0,
        0 < w <= u,
        0 <= wh <= u,
    ensures
        0x4_0000_0000_0000 * (2 * gap(nwu, htu)) <= 0x4_0000_0000_0000 * wu + 4 * htu + 0x10_0000_0000_0000 * u,
{
    assert(gap(nwu, htu) <= gap(nwu, shw) + gap(shw, htu));
    assert(shw <= htu + gap(shw, htu));
}

/// The scale of an export is finite.
proof fn lemma_export_scale(t: int, w: int)
    requires
        0 < t < 0x1_0000_0000,
        0 < w < 0x1_0000_0000,
    ensures
        ({
            let s = quot(int_double(t), int_double(w));
            s.finite() && !s.neg() && s.val() <= 0x1_0000_0000 * one_unit()
        }),
{
    let u = one_unit() as int;
    lemma2_to64();
    lemma2_to64_rest();
    crate::rounding::lemma_pow2_le(64, UNIT_EXP as nat);
    lemma_int_double_exact(t);
    lemma_quot_by_int(int_double(t), w);
    let s = quot(int_double(t), int_double(w)).val();
    assert(0 < t * u && t * u <= 0xFFFF_FFFF * u) by (nonlinear_arith)
        requires
            0 < t <= 0xFFFF_FFFF,
            u > 0,
    ;
    assert(s <= s * w) by (nonlinear_arith)
        requires
            s >= 0,
            w >= 1,
    ;
}

/// The height that is shown beside the target width is the one that the export
/// has.
pub proof fn law_shown_height_is_the_exported_one(canvas: CanvasSettings)
    requires
        output_size_of(canvas).height < u32::MAX,
    ensures
        export_height(canvas) == int_double(output_size_of(canvas).height as int),
{
    let width: int = if canvas.export_width < 1 {
        1
    } else {
        canvas.export_width as int
    };
    let scale = quot(int_double(canvas.export_target_width as int), int_double(width));
    let n = whole(prod(int_double(canvas.export_height as int), scale), Rounding::Nearest);
    let u = one_unit() as int;
    lemma_pow2_pos(UNIT_EXP as nat);
    lemma_int_double_exact(1);
    lemma_int_double_exact(output_size_of(canvas).height as int);
    lemma_int_double_exact(0);
    assert(output_size_of(canvas).height * u >= u) by (nonlinear_arith)
        requires
            output_size_of(canvas).height >= 1,
            u > 0,
    ;
    assert(0 * u == 0);
}

} // verus!
