//! What drawing a composition promises: screenshots fill their places, shadows
//! lie where their offset says, images and texts are laid out as their settings
//! say. Results are rounded, so much of it holds up to that.
use crate::arith_laws::lemma_int_double_exact;
use crate::double::{diff, one_unit, opposite, prod, quot, Double, UNIT_EXP};
use crate::generator::half;
use crate::layout::{current_layout, visible_of, Placement};
use crate::model::{BackgroundImageFit, CornerRadius, GradientKind, ShadowParams};
use crate::model::document::{DocumentView, ScreenshotElementView};
use crate::model::geometry::{pi, radians};
use crate::model::text::TextElementView;
use crate::near_laws::{
    about, lemma_diff_near, lemma_gap_of_product, lemma_gap_scales, lemma_half_near, lemma_middle_near,
    lemma_prod_near, lemma_quot_by_int, lemma_quot_near, lemma_sum_near,
};
use crate::order::larger;
use crate::preset_laws::gap;
use crate::render::{
    blur_margin, decoded_size, element_plan_of, element_plans, fitted_radius, gradient_shape, image_layout,
    is_decoded, is_size_at, rounded_rect_of, shadow_plan_of, text_box_of, GradientShape, ImageLayout, ImageSize,
};
use crate::turn_laws::lemma_turns;
use crate::whole::int_double;
use vstd::arithmetic::power2::*;
use vstd::prelude::*;

verus! {

/// An image fills its box: the image's side times the factor that it is drawn
/// with is the box's side. So an image that is larger than its box is made
/// smaller, and a smaller one larger.
#[verifier::rlimit(50)]
pub proof fn law_image_fills_its_box(e: ScreenshotElementView, p: Placement, size: ImageSize, scale: Double)
    requires
        size.width > 0,
        size.height > 0,
        p.width.finite(),
        p.height.finite(),
    ensures
        ({
            let plan = element_plan_of(e, p, size, scale);
            &&& about(size.width * plan.image_scale_x.val(), p.width.val(), size.width as int)
            &&& about(size.height * plan.image_scale_y.val(), p.height.val(), size.height as int)
            &&& gap(p.width.val(), 0) <= size.width * one_unit() ==> gap(plan.image_scale_x.val(), 0) <= one_unit()
            &&& gap(p.width.val(), 0) >= size.width * one_unit() ==> gap(plan.image_scale_x.val(), 0) >= one_unit()
            &&& gap(p.height.val(), 0) <= size.height * one_unit() ==> gap(plan.image_scale_y.val(), 0) <= one_unit()
            &&& gap(p.height.val(), 0) >= size.height * one_unit() ==> gap(plan.image_scale_y.val(), 0) >= one_unit()
        }),
{
    let plan = element_plan_of(e, p, size, scale);
    lemma_quot_by_int(p.width, size.width as int);
    lemma_quot_by_int(p.height, size.height as int);
    let (x, y) = (plan.image_scale_x.val(), plan.image_scale_y.val());
    let (w, h) = (size.width as int, size.height as int);
    assert(w * x == x * w && h * y == y * h) by (nonlinear_arith);
}

/// A box is drawn where it is placed: it reaches from its corner to the same
/// distance on the other side of its middle, and its middle is that of the
/// placement.
#[verifier::rlimit(50)]
pub proof fn law_box_is_drawn_in_its_place(e: ScreenshotElementView, p: Placement, size: ImageSize, scale: Double)
    requires
        p.x.finite(),
        p.y.finite(),
        p.width.finite(),
        p.height.finite(),
        element_plan_of(e, p, size, scale).middle.x.finite(),
        element_plan_of(e, p, size, scale).middle.y.finite(),
    ensures
        ({
            let plan = element_plan_of(e, p, size, scale);
            &&& about(2 * plan.middle.x.val(), 2 * p.x.val() + p.width.val(), 2)
            &&& about(2 * plan.middle.y.val(), 2 * p.y.val() + p.height.val(), 2)
            &&& gap(-2 * plan.corner.x.val(), p.width.val()) <= 1
            &&& gap(-2 * plan.corner.y.val(), p.height.val()) <= 1
            &&& plan.width == p.width
            &&& plan.height == p.height
        }),
{
    lemma_half_back(p.width);
    lemma_half_back(p.height);
    lemma_middle_near(p.x, p.width);
    lemma_middle_near(p.y, p.height);
}

proof fn lemma_half_back(extent: Double)
    requires
        extent.finite(),
    ensures
        gap(-2 * half(opposite(extent)).val(), extent.val()) <= 1,
{
    assert(opposite(extent).val() == -extent.val());
    lemma_half_near(opposite(extent));
}

/// A screenshot is mirrored in the directions that its transform says, each
/// time across its own box, and turned by its angle.
pub proof fn law_screenshots_are_flipped_and_turned(
    e: ScreenshotElementView,
    p: Placement,
    size: ImageSize,
    scale: Double,
)
    requires
        e.transform.rotation_deg.finite(),
        element_plan_of(e, p, size, scale).rotation.finite(),
    ensures
        ({
            let plan = element_plan_of(e, p, size, scale);
            &&& plan.flip_x is Some <==> e.transform.flip_horizontal
            &&& plan.flip_y is Some <==> e.transform.flip_vertical
            &&& plan.flip_x matches Some(w) ==> w == plan.width
            &&& plan.flip_y matches Some(h) ==> h == plan.height
            &&& plan.shadow is Some <==> e.shadow.enabled
            &&& about(
                180 * plan.rotation.val() * one_unit(),
                e.transform.rotation_deg.val() * pi().val(),
                180 * one_unit() + 180 * gap(e.transform.rotation_deg.val(), 0),
            )
        }),
{
    law_half_a_turn_is_a_hundred_and_eighty_degrees(e.transform.rotation_deg);
}

/// An angle in radians is to half a turn as the angle in degrees is to 180.
pub proof fn law_half_a_turn_is_a_hundred_and_eighty_degrees(angle_deg: Double)
    requires
        angle_deg.finite(),
        radians(angle_deg).finite(),
    ensures
        about(
            180 * radians(angle_deg).val() * one_unit(),
            angle_deg.val() * pi().val(),
            180 * one_unit() + 180 * gap(angle_deg.val(), 0),
        ),
{
    let u = one_unit() as int;
    let c = quot(pi(), int_double(180));
    let r = radians(angle_deg);
    let (a, k, p) = (angle_deg.val(), c.val(), pi().val());
    lemma_turns();
    lemma_pow2_pos(UNIT_EXP as nat);
    lemma_quot_by_int(pi(), 180);
    lemma_prod_near(angle_deg, c);
    let (ga, gk) = (gap(a, 0), gap(k, 0));
    lemma_gap_of_product(a, k);
    lemma_gap_of_product(a, p);
    // 180 r u is near 180 a k, and that near a p.
    let (x, y, z) = (180 * r.val() * u, 180 * (a * k), a * p);
    assert(gap(x, y) == 180 * gap(r.val() * u, a * k)) by {
        assert(x == 180 * (r.val() * u)) by (nonlinear_arith)
            requires
                x == 180 * r.val() * u,
        ;
    }
    assert(a * (k * 180) == y) by (nonlinear_arith)
        requires
            y == 180 * (a * k),
    ;
    lemma_gap_scales(k * 180, p, a);
    assert(gap(y, z) == gap(k * 180, p) * ga);
    let g = gap(k * 180, p);
    assert(0x20_0000_0000_0000 * (g * ga) <= gap(p, 0) * ga + 0x10_0000_0000_0000 * 180 * ga) by (nonlinear_arith)
        requires
            0x20_0000_0000_0000 * g <= gap(p, 0) + 0x10_0000_0000_0000 * 180,
            ga >= 0,
    ;
    assert(gap(z, 0) == gap(p, 0) * ga) by (nonlinear_arith)
        requires
            gap(z, 0) == ga * gap(p, 0),
    ;
    assert(gap(y, 0) <= gap(z, 0) + gap(y, z));
    assert(gap(y, 0) == 180 * gap(a * k, 0));
    assert(gap(x, z) <= gap(x, y) + gap(y, z));
}

/// Every corner's arc touches the two edges that meet there, and a radius that
/// fits is used as it is.
pub proof fn law_corners_touch_their_edges(w: Double, h: Double, r: CornerRadius)
    requires
        w.finite(),
        h.finite(),
        !w.neg(),
        !h.neg(),
        ({
            let o = rounded_rect_of(w, h, r);
            &&& o.top_right.x.finite() && o.bottom_right.x.finite()
            &&& o.bottom_right.y.finite() && o.bottom_left.y.finite()
        }),
    ensures
        ({
            let o = rounded_rect_of(w, h, r);
            &&& o.top_left.x == o.top_left.radius && o.top_left.y == o.top_left.radius
            &&& about(o.top_right.x.val(), w.val() - o.top_right.radius.val(), 0)
            &&& o.top_right.y == o.top_right.radius
            &&& about(o.bottom_right.x.val(), w.val() - o.bottom_right.radius.val(), 0)
            &&& about(o.bottom_right.y.val(), h.val() - o.bottom_right.radius.val(), 0)
            &&& o.bottom_left.x == o.bottom_left.radius
            &&& about(o.bottom_left.y.val(), h.val() - o.bottom_left.radius.val(), 0)
        }),
        fits_a_corner(r.top_left, w, h) ==> rounded_rect_of(w, h, r).top_left.radius == r.top_left,
        fits_a_corner(r.top_right, w, h) ==> rounded_rect_of(w, h, r).top_right.radius == r.top_right,
        fits_a_corner(r.bottom_right, w, h) ==> rounded_rect_of(w, h, r).bottom_right.radius == r.bottom_right,
        fits_a_corner(r.bottom_left, w, h) ==> rounded_rect_of(w, h, r).bottom_left.radius == r.bottom_left,
{
    let o = rounded_rect_of(w, h, r);
    lemma_radius_fits(r.top_left, w, h);
    lemma_radius_fits(r.top_right, w, h);
    lemma_radius_fits(r.bottom_right, w, h);
    lemma_radius_fits(r.bottom_left, w, h);
    lemma_diff_near(w, o.top_right.radius);
    lemma_diff_near(w, o.bottom_right.radius);
    lemma_diff_near(h, o.bottom_right.radius);
    lemma_diff_near(h, o.bottom_left.radius);
}

/// Whether a radius is positive and no more than half of either side.
pub open spec fn fits_a_corner(r: Double, w: Double, h: Double) -> bool {
    !r.nan() && r.val() > 0 && 2 * r.val() < w.val() && 2 * r.val() < h.val()
}

proof fn lemma_radius_fits(r: Double, w: Double, h: Double)
    requires
        w.finite(),
        h.finite(),
        !w.neg(),
        !h.neg(),
    ensures
        fitted_radius(r, w, h).finite(),
        fits_a_corner(r, w, h) ==> fitted_radius(r, w, h) == r,
{
    lemma_int_double_exact(0);
    lemma_half_near(w);
    lemma_half_near(h);
    let base = larger(r, int_double(0));
    crate::double::lemma_mag_ordered(base.low(), half(w).low());
}

/// A shadow's bitmap is painted back to the size of its shape, and from there
/// it lies where the offset says: its shape's corner, which is the margin away
/// from the bitmap's, is at the offset.
#[verifier::rlimit(50)]
pub proof fn law_shadow_lies_at_its_offset(width: Double, height: Double, shadow: ShadowParams, scale: Double)
    requires
        shadow.offset_x.finite(),
        shadow.offset_y.finite(),
        ({
            let plan = shadow_plan_of(width, height, shadow, scale);
            &&& plan.render_scale.finite() && plan.render_scale.val() > 0
            &&& plan.paint_scale.finite()
            &&& prod(shadow.offset_x, plan.render_scale).finite()
            &&& prod(shadow.offset_y, plan.render_scale).finite()
            &&& plan.paint_x.finite() && plan.paint_y.finite()
        }),
    ensures
        ({
            let plan = shadow_plan_of(width, height, shadow, scale);
            let (u, s, pad) = (one_unit() as int, plan.render_scale.val(), plan.pad * one_unit());
            &&& about(plan.paint_scale.val() * s, u * u, s)
            &&& near_shifted(plan.paint_x.val() + pad, shadow.offset_x.val() * s, pad)
            &&& near_shifted(plan.paint_y.val() + pad, shadow.offset_y.val() * s, pad)
        }),
{
    let plan = shadow_plan_of(width, height, shadow, scale);
    let u = one_unit() as int;
    lemma_pow2_pos(UNIT_EXP as nat);
    lemma_int_double_exact(1);
    lemma_quot_near(int_double(1), plan.render_scale);
    assert(gap(u * u, 0) == u * u) by (nonlinear_arith)
        requires
            u > 0,
    ;
    lemma_shifted(shadow.offset_x, plan.render_scale, blur_margin(shadow.blur, plan.render_scale));
    lemma_shifted(shadow.offset_y, plan.render_scale, blur_margin(shadow.blur, plan.render_scale));
}

/// Whether `a` is the product `b` of two values, up to rounding of the product
/// and of what is left after a margin was taken away.
pub open spec fn near_shifted(a: int, b: int, margin: int) -> bool {
    about(a * one_unit(), b, one_unit() + (gap(b, 0) + gap(margin, 0) * one_unit()) / 0x4_0000_0000_0000 + 1)
}

proof fn lemma_shifted(offset: Double, scale: Double, margin: int)
    requires
        offset.finite(),
        scale.finite(),
        i32::MIN <= margin <= i32::MAX,
        prod(offset, scale).finite(),
        diff(prod(offset, scale), int_double(margin)).finite(),
    ensures
        near_shifted(
            diff(prod(offset, scale), int_double(margin)).val() + margin * one_unit(),
            offset.val() * scale.val(),
            margin * one_unit(),
        ),
{
    let u = one_unit() as int;
    let p = prod(offset, scale);
    let (x, b, m) = (diff(p, int_double(margin)).val(), offset.val() * scale.val(), margin * u);
    lemma_pow2_pos(UNIT_EXP as nat);
    lemma_int_double_exact(margin);
    lemma_prod_near(offset, scale);
    lemma_diff_near(p, int_double(margin));
    let (a, pv) = (x + m, p.val());
    // a is near p, and p near b.
    assert(gap(a, pv) == gap(x, pv - m));
    let g = gap(a, pv);
    assert(0x20_0000_0000_0000 * g <= gap(pv, 0) + gap(m, 0));
    lemma_gap_scales(a, pv, u);
    lemma_gap_of_product(pv, u);
    assert(0x20_0000_0000_0000 * (g * u) <= gap(pv, 0) * u + gap(m, 0) * u) by (nonlinear_arith)
        requires
            0x20_0000_0000_0000 * g <= gap(pv, 0) + gap(m, 0),
            u > 0,
    ;
    let t = gap(m, 0) * u;
    assert(gap(pv * u, 0) <= gap(b, 0) + gap(pv * u, b));
    assert(gap(a * u, b) <= g * u + gap(pv * u, b));
    let total = gap(b, 0) + t;
    vstd::arithmetic::div_mod::lemma_fundamental_div_mod(total, 0x4_0000_0000_0000);
    vstd::arithmetic::div_mod::lemma_mod_bound(total, 0x4_0000_0000_0000);
}

/// A shadow is blurred and colored as it says: the radius is its blur at the
/// bitmap's scale, which is never finer than the output, and its opacity goes
/// into the color's.
pub proof fn law_shadow_is_as_strong_as_it_says(width: Double, height: Double, shadow: ShadowParams, scale: Double)
    requires
        shadow.color.a.finite(),
        shadow.opacity.finite(),
        shadow.blur.finite(),
        ({
            let plan = shadow_plan_of(width, height, shadow, scale);
            &&& plan.render_scale.finite()
            &&& plan.alpha.finite()
            &&& prod(shadow.blur, plan.render_scale).finite()
        }),
    ensures
        ({
            let plan = shadow_plan_of(width, height, shadow, scale);
            let u = one_unit();
            &&& about(plan.alpha.val() * u, shadow.color.a.val() * shadow.opacity.val(), u as int)
            &&& plan.blur_radius is Some <==> shadow.blur.val() > 0
            &&& plan.blur_radius matches Some(r) ==> about(
                r.val() * u,
                shadow.blur.val() * plan.render_scale.val(),
                u as int,
            )
        }),
{
    let plan = shadow_plan_of(width, height, shadow, scale);
    lemma_int_double_exact(0);
    lemma_pow2_pos(UNIT_EXP as nat);
    lemma_prod_near(shadow.color.a, shadow.opacity);
    lemma_prod_near(shadow.blur, plan.render_scale);
}

/// A background image that is filled in covers the canvas exactly, and one that
/// covers it or is contained in it leaves the same on both sides.
pub proof fn law_background_images_are_centered(fit: BackgroundImageFit, width: Double, height: Double, w: i32, h: i32)
    requires
        w > 0,
        h > 0,
        width.finite(),
        height.finite(),
        image_layout(fit, width, height, int_double(w as int), int_double(h as int)) matches ImageLayout::Placed {
            scale_x,
            scale_y,
            ..
        } ==> {
            &&& prod(int_double(w as int), scale_x).finite()
            &&& prod(int_double(h as int), scale_y).finite()
            &&& diff(width, prod(int_double(w as int), scale_x)).finite()
            &&& diff(height, prod(int_double(h as int), scale_y)).finite()
        },
    ensures
        ({
            let layout = image_layout(fit, width, height, int_double(w as int), int_double(h as int));
            &&& layout is Tiled <==> fit == BackgroundImageFit::Tile
            &&& layout matches ImageLayout::Placed { x, y, scale_x, scale_y } ==> {
                if fit == BackgroundImageFit::Fill {
                    &&& x.val() == 0 && y.val() == 0
                    &&& about(w * scale_x.val(), width.val(), w as int)
                    &&& about(h * scale_y.val(), height.val(), h as int)
                } else {
                    &&& scale_x == scale_y
                    &&& evenly(x.val(), w * scale_x.val(), width.val())
                    &&& evenly(y.val(), h * scale_y.val(), height.val())
                }
            }
        }),
{
    let (iw, ih) = (int_double(w as int), int_double(h as int));
    let layout = image_layout(fit, width, height, iw, ih);
    lemma_int_double_exact(0);
    lemma_quot_by_int(width, w as int);
    lemma_quot_by_int(height, h as int);
    let (sx, sy) = (quot(width, iw), quot(height, ih));
    assert(w * sx.val() == sx.val() * w && h * sy.val() == sy.val() * h) by (nonlinear_arith);
    match layout {
        ImageLayout::Placed { x, y, scale_x, scale_y } => {
            if fit != BackgroundImageFit::Fill {
                lemma_evenly(width, w as int, scale_x);
                lemma_evenly(height, h as int, scale_y);
            }
        },
        ImageLayout::Tiled => {},
    }
}

/// Whether a stretch that starts at `start` leaves the same before it and
/// behind it within a whole, up to rounding.
pub open spec fn evenly(start: int, extent: int, whole: int) -> bool {
    0x4_0000_0000_0000 * gap(2 * start + extent, whole) <= gap(whole, 0) + 2 * gap(extent, 0) + 0x10_0000_0000_0000
}

proof fn lemma_evenly(whole: Double, n: int, scale: Double)
    requires
        whole.finite(),
        scale.finite(),
        1 <= n <= i32::MAX,
        prod(int_double(n), scale).finite(),
        diff(whole, prod(int_double(n), scale)).finite(),
    ensures
        evenly(half(diff(whole, prod(int_double(n), scale))).val(), n * scale.val(), whole.val()),
{
    let u = one_unit() as int;
    let p = prod(int_double(n), scale);
    let rest = diff(whole, p);
    let (s, x, e) = (scale.val(), p.val(), n * scale.val());
    lemma_pow2_pos(UNIT_EXP as nat);
    lemma_int_double_exact(n);
    lemma_prod_near(int_double(n), scale);
    assert((n * u) * s == e * u) by (nonlinear_arith)
        requires
            e == n * s,
    ;
    lemma_gap_scales(x, e, u);
    lemma_gap_of_product(e, u);
    assert(0x20_0000_0000_0000 * gap(x, e) <= gap(e, 0) + 0x10_0000_0000_0000) by (nonlinear_arith)
        requires
            0x20_0000_0000_0000 * (gap(x, e) * u) <= gap(e, 0) * u + 0x10_0000_0000_0000 * u,
            u > 0,
    ;
    lemma_diff_near(whole, p);
    lemma_half_near(rest);
}

/// A radial gradient's middle divides the box as it says, and it reaches half
/// of the longer side. A linear one runs at its angle.
pub proof fn law_gradients_run_as_they_say(kind: GradientKind, width: Double, height: Double)
    requires
        width.finite(),
        height.finite(),
        kind matches GradientKind::Radial { center_x, center_y } ==> center_x.finite() && center_y.finite() && prod(
            center_x,
            width,
        ).finite() && prod(center_y, height).finite(),
        kind matches GradientKind::Linear { angle_deg } ==> angle_deg.finite() && radians(angle_deg).finite(),
    ensures
        match (kind, gradient_shape(kind, width, height)) {
            (GradientKind::Linear { angle_deg }, GradientShape::Linear { angle }) => about(
                180 * angle.val() * one_unit(),
                angle_deg.val() * pi().val(),
                180 * one_unit() + 180 * gap(angle_deg.val(), 0),
            ),
            (GradientKind::Radial { center_x, center_y }, GradientShape::Radial { x, y, radius }) => {
                &&& about(x.val() * one_unit(), center_x.val() * width.val(), one_unit() as int)
                &&& about(y.val() * one_unit(), center_y.val() * height.val(), one_unit() as int)
                &&& 2 * radius.val() >= width.val() - 1
                &&& 2 * radius.val() >= height.val() - 1
                &&& gap(2 * radius.val(), width.val()) <= 1 || gap(2 * radius.val(), height.val()) <= 1
            },
            _ => false,
        },
{
    match kind {
        GradientKind::Linear { angle_deg } => {
            law_half_a_turn_is_a_hundred_and_eighty_degrees(angle_deg);
        },
        GradientKind::Radial { center_x, center_y } => {
            lemma_prod_near(center_x, width);
            lemma_prod_near(center_y, height);
            lemma_half_near(larger(width, height));
                },
    }
}

/// A text's box surrounds its lines with the same gap on every side, and the
/// text is as opaque as its color and its opacity together.
#[verifier::rlimit(50)]
pub proof fn law_text_box_surrounds_its_lines(
    text: TextElementView,
    ref_w: Double,
    ref_h: Double,
    content_w: i32,
    content_h: i32,
    scale: Double,
)
    requires
        text.background_padding.finite(),
        text.typography.color.a.finite(),
        ({
            let b = text_box_of(text, ref_w, ref_h, content_w as int, content_h as int, scale);
            &&& prod(int_double(2), text.background_padding).finite()
            &&& b.width.finite() && b.height.finite() && b.alpha.finite()
        }),
        0 <= text.typography.opacity.val() <= one_unit(),
        text.typography.opacity.finite(),
    ensures
        ({
            let b = text_box_of(text, ref_w, ref_h, content_w as int, content_h as int, scale);
            let (u, gap2) = (one_unit(), 2 * text.background_padding.val());
            &&& b.padding == text.background_padding
            &&& 0x4_0000_0000_0000 * gap(b.width.val(), content_w * u + gap2) <= gap(content_w * u, 0) + gap(gap2, 0) + 0x4_0000_0000_0000
            &&& 0x4_0000_0000_0000 * gap(b.height.val(), content_h * u + gap2) <= gap(content_h * u, 0) + gap(gap2, 0) + 0x4_0000_0000_0000
            &&& about(b.alpha.val() * u, text.typography.color.a.val() * text.typography.opacity.val(), u as int)
            &&& b.shadow is Some <==> text.shadow.enabled
        }),
{
    let b = text_box_of(text, ref_w, ref_h, content_w as int, content_h as int, scale);
    let u = one_unit() as int;
    let pad = text.background_padding;
    let twice = prod(int_double(2), pad);
    lemma_pow2_pos(UNIT_EXP as nat);
    lemma_int_double_exact(0);
    lemma_int_double_exact(1);
    lemma_int_double_exact(2);
    lemma_int_double_exact(content_w as int);
    lemma_int_double_exact(content_h as int);
    lemma_prod_near(int_double(2), pad);
    let (x, e) = (twice.val(), 2 * pad.val());
    assert((2 * u) * pad.val() == e * u) by (nonlinear_arith)
        requires
            e == 2 * pad.val(),
    ;
    lemma_gap_scales(x, e, u);
    lemma_gap_of_product(e, u);
    assert(0x20_0000_0000_0000 * gap(x, e) <= gap(e, 0) + 0x10_0000_0000_0000) by (nonlinear_arith)
        requires
            0x20_0000_0000_0000 * (gap(x, e) * u) <= gap(e, 0) * u + 0x10_0000_0000_0000 * u,
            u > 0,
    ;
    lemma_sum_near(int_double(content_w as int), twice);
    lemma_sum_near(int_double(content_h as int), twice);
    lemma_prod_near(text.typography.color.a, text.typography.opacity);
}

/// A composition draws each visible screenshot in its own place of the layout,
/// with the image that was decoded for it.
#[verifier::rlimit(50)]
pub proof fn law_every_screenshot_fills_its_place(doc: DocumentView, scale: Double, sizes: Seq<ImageSize>, i: int)
    requires
        0 <= i < visible_of(doc.elements).len(),
        is_decoded(sizes, visible_of(doc.elements)[i].id),
        ({
            let (p, size) = (current_layout(doc)[i], decoded_size(sizes, visible_of(doc.elements)[i].id));
            &&& p.width.finite() && p.height.finite()
            &&& size.width > 0 && size.height > 0
        }),
    ensures
        ({
            let (plan, p) = (element_plans(doc, scale, sizes)[i], current_layout(doc)[i]);
            exists|k: int|
                #![trigger sizes[k]]
                {
                    &&& 0 <= k < sizes.len()
                    &&& sizes[k].id == plan.id == p.element_id == visible_of(doc.elements)[i].id
                    &&& about(sizes[k].width * plan.image_scale_x.val(), p.width.val(), sizes[k].width as int)
                    &&& about(sizes[k].height * plan.image_scale_y.val(), p.height.val(), sizes[k].height as int)
                }
        }),
{
    let e = visible_of(doc.elements)[i];
    let size = decoded_size(sizes, e.id);
    let k = choose|k: int| is_size_at(sizes, e.id, k);
    law_image_fills_its_box(e, current_layout(doc)[i], size, scale);
    assert(sizes[k] == size);
}

} // verus!
