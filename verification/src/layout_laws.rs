//! What the layouts promise: screenshots keep their aspect, neighbours are the
//! spacing apart and do not overlap, and the canvas is as large as it has to be.
use crate::arith_laws::{lemma_int_double_exact, lemma_sum_commutes, lemma_sum_grows, lemma_sum_monotone};
use crate::double::{infinity, lemma_mag_ordered, one_unit, prod, quot, sum, Double, UNIT_EXP};
use crate::layout::{
    column_count, current_layout, extent_of, fitted, greatest, layout_of, least, lemma_least, natural_heights,
    natural_widths, next_start, visible_of, Placement,
};
use crate::model::document::{DocumentView, LayoutMode, ScreenshotElementView};
use crate::near_laws::{lemma_gap_scales, lemma_prod_near, lemma_quot_near, lemma_sum_near};
use crate::order::le;
use crate::preset_laws::gap;
use crate::whole::{int_double, whole, Rounding};
use vstd::arithmetic::div_mod::*;
use vstd::arithmetic::power2::*;
use vstd::prelude::*;

verus! {

/// Whether a placement has its screenshot's proportions: its width is to its
/// height as the natural width is to the natural height, up to rounding.
pub open spec fn keeps_aspect(p: Placement, e: ScreenshotElementView) -> bool {
    let u = one_unit() as int;
    let (w, h) = (p.width.val(), p.height.val());
    let (nw, nh) = (e.natural_width.val(), e.natural_height.val());
    0x4_0000_0000_0000 * (gap(w * nh, nw * h) * u) <= (w * nh) * u + (nw * h) * u + 0x4_0000_0000_0000 * (nw * nh + u * nw + u * nh)
}

/// Whether a screenshot has an extent.
pub open spec fn has_extent(e: ScreenshotElementView) -> bool {
    &&& e.natural_width.finite() && e.natural_width.val() > 0
    &&& e.natural_height.finite() && e.natural_height.val() > 0
}

/// A side scaled by what brings the other side to a target. All in whole
/// numbers: `a` is the side, `b` the other one, `t` the target, `f` the factor
/// and `r` the result.
proof fn lemma_scaled(u: int, a: int, b: int, t: int, f: int, r: int)
    requires
        u > 0,
        a > 0,
        b > 0,
        t >= 0,
        f >= 0,
        0x20_0000_0000_0000 * gap(f * b, t * u) <= t * u + 0x10_0000_0000_0000 * b,
        0x20_0000_0000_0000 * gap(r * u, a * f) <= a * f + 0x10_0000_0000_0000 * u,
    ensures
        0x4_0000_0000_0000 * (gap(r * b, a * t) * u) <= (a * t) * u + 0x4_0000_0000_0000 * (a * b + u * b),
{
    let (x, y) = (gap(f * b, t * u), gap(r * u, a * f));
    // (r b - a t) u == b (r u - a f) + a (f b - t u)
    let (p, q) = (r * u - a * f, f * b - t * u);
    assert((r * b - a * t) * u == b * p + a * q) by (nonlinear_arith)
        requires
            p == r * u - a * f,
            q == f * b - t * u,
    ;
    assert(-(b * y) <= b * p <= b * y && -(a * x) <= a * q <= a * x) by (nonlinear_arith)
        requires
            -y <= p <= y,
            -x <= q <= x,
            a > 0,
            b > 0,
    ;
    let g = gap(r * b, a * t);
    assert(g * u <= b * y + a * x) by {
        lemma_gap_scales(r * b, a * t, u);
        assert((r * b) * u - (a * t) * u == (r * b - a * t) * u) by (nonlinear_arith);
    }
    let m = a * b;
    assert(0x20_0000_0000_0000 * (b * y) <= a * (f * b) + 0x10_0000_0000_0000 * (u * b)) by (nonlinear_arith)
        requires
            0x20_0000_0000_0000 * y <= a * f + 0x10_0000_0000_0000 * u,
            b > 0,
    ;
    assert(0x20_0000_0000_0000 * (a * x) <= (a * t) * u + 0x10_0000_0000_0000 * m) by (nonlinear_arith)
        requires
            0x20_0000_0000_0000 * x <= t * u + 0x10_0000_0000_0000 * b,
            a > 0,
            m == a * b,
    ;
    lemma_at_most_twice(f * b, t * u, b, x);
    assert(a * (f * b) <= 2 * ((a * t) * u) + m) by (nonlinear_arith)
        requires
            f * b <= 2 * (t * u) + b,
            a > 0,
            m == a * b,
    ;
    assert((a * t) * u >= 0 && m >= 0 && u * b >= 0) by (nonlinear_arith)
        requires
            a > 0,
            b > 0,
            t >= 0,
            u > 0,
            m == a * b,
    ;
    lemma_collected(g * u, b * y, a * x, a * (f * b), (a * t) * u, m, u * b);
}

proof fn lemma_at_most_twice(v: int, exact: int, least: int, off: int)
    requires
        gap(v, exact) == off,
        0x20_0000_0000_0000 * off <= exact + 0x10_0000_0000_0000 * least,
        exact >= 0,
        least >= 0,
    ensures
        v <= 2 * exact + least,
{
}

proof fn lemma_collected(total: int, first: int, second: int, v: int, exact: int, m: int, least: int)
    requires
        total <= first + second,
        0x20_0000_0000_0000 * first <= v + 0x10_0000_0000_0000 * least,
        0x20_0000_0000_0000 * second <= exact + 0x10_0000_0000_0000 * m,
        v <= 2 * exact + m,
        exact >= 0,
        m >= 0,
        least >= 0,
    ensures
        0x4_0000_0000_0000 * total <= exact + 0x4_0000_0000_0000 * (m + least),
{
}

/// A product with a positive number is finite only if the other factor is.
proof fn lemma_factor_is_finite(a: Double, f: Double)
    requires
        a.finite(),
        a.val() > 0,
        prod(a, f).finite(),
    ensures
        f.finite(),
{
    lemma_mag_ordered(0, a.low());
    reveal(prod);
}

proof fn lemma_scaled_side(side: Double, other: Double, target: Double)
    requires
        side.finite(),
        side.val() > 0,
        other.finite(),
        other.val() > 0,
        target.finite(),
        !target.neg(),
        prod(side, quot(target, other)).finite(),
    ensures
        ({
            let u = one_unit() as int;
            let (r, a, b, t) = (prod(side, quot(target, other)).val(), side.val(), other.val(), target.val());
            0x4_0000_0000_0000 * (gap(r * b, a * t) * u) <= (a * t) * u + 0x4_0000_0000_0000 * (a * b + u * b)
        }),
        !prod(side, quot(target, other)).neg(),
{
    let f = quot(target, other);
    lemma_factor_is_finite(side, f);
    lemma_quot_near(target, other);
    lemma_prod_near(side, f);
    lemma_pow2_pos(UNIT_EXP as nat);
    let (u, t) = (one_unit() as int, target.val());
    let af = side.val() * f.val();
    assert(t * u >= 0 && af >= 0) by (nonlinear_arith)
        requires
            t >= 0,
            u > 0,
            side.val() > 0,
            f.val() >= 0,
            af == side.val() * f.val(),
    ;
    lemma_scaled(u, side.val(), other.val(), t, f.val(), prod(side, f).val());
}

proof fn lemma_least_positive(values: Seq<Double>)
    requires
        values.len() > 0,
        forall|k: int| 0 <= k < values.len() ==> (#[trigger] values[k]).finite() && values[k].val() > 0,
    ensures
        values.contains(least(values)),
        least(values).finite(),
        !least(values).neg(),
        forall|k: int| 0 <= k < values.len() ==> le(least(values), #[trigger] values[k]),
{
    lemma_least(values);
    assert(le(least(values), values[0]));
    lemma_mag_ordered(infinity().low(), values[0].low());
}

proof fn lemma_common_sides(elements: Seq<ScreenshotElementView>)
    requires
        elements.len() > 0,
        forall|k: int| 0 <= k < elements.len() ==> has_extent(#[trigger] elements[k]),
    ensures
        ({
            let (w, h) = (least(natural_widths(elements)), least(natural_heights(elements)));
            &&& w.finite() && !w.neg()
            &&& h.finite() && !h.neg()
            &&& exists|k: int| 0 <= k < elements.len() && #[trigger] elements[k].natural_width == w
            &&& exists|k: int| 0 <= k < elements.len() && #[trigger] elements[k].natural_height == h
            &&& forall|k: int| 0 <= k < elements.len() ==> le(w, #[trigger] elements[k].natural_width)
            &&& forall|k: int| 0 <= k < elements.len() ==> le(h, #[trigger] elements[k].natural_height)
        }),
{
    let (ws, hs) = (natural_widths(elements), natural_heights(elements));
    assert forall|k: int| 0 <= k < ws.len() implies (#[trigger] ws[k]).finite() && ws[k].val() > 0 by {
        assert(has_extent(elements[k]));
    }
    assert forall|k: int| 0 <= k < hs.len() implies (#[trigger] hs[k]).finite() && hs[k].val() > 0 by {
        assert(has_extent(elements[k]));
    }
    lemma_least_positive(ws);
    lemma_least_positive(hs);
    let i = choose|k: int| 0 <= k < ws.len() && ws[k] == least(ws);
    let j = choose|k: int| 0 <= k < hs.len() && hs[k] == least(hs);
    assert(elements[i].natural_width == least(ws));
    assert(elements[j].natural_height == least(hs));
    assert forall|k: int| 0 <= k < elements.len() implies le(least(ws), #[trigger] elements[k].natural_width) by {
        assert(ws[k] == elements[k].natural_width);
    }
    assert forall|k: int| 0 <= k < elements.len() implies le(least(hs), #[trigger] elements[k].natural_height) by {
        assert(hs[k] == elements[k].natural_height);
    }
}

/// Every layout but the free one keeps the aspect of every screenshot: it is
/// scaled, never stretched.
#[verifier::rlimit(50)]
pub proof fn law_layouts_keep_the_aspect(
    mode: LayoutMode,
    elements: Seq<ScreenshotElementView>,
    spacing: Double,
    margin: Double,
    i: int,
)
    requires
        mode != LayoutMode::Free,
        0 <= i < elements.len(),
        forall|k: int| 0 <= k < elements.len() ==> has_extent(#[trigger] elements[k]),
        ({
            let p = layout_of(mode, elements, spacing, margin)[i];
            p.width.finite() && p.height.finite()
        }),
    ensures
        keeps_aspect(layout_of(mode, elements, spacing, margin)[i], elements[i]),
        !layout_of(mode, elements, spacing, margin)[i].width.neg(),
        !layout_of(mode, elements, spacing, margin)[i].height.neg(),
{
    let p = layout_of(mode, elements, spacing, margin)[i];
    let e = elements[i];
    assert(has_extent(e));
    lemma_common_sides(elements);
    lemma_int_double_exact(0);
    lemma_pow2_pos(UNIT_EXP as nat);
    let u = one_unit() as int;
    let (w, h, nw, nh) = (p.width.val(), p.height.val(), e.natural_width.val(), e.natural_height.val());
    match mode {
        LayoutMode::Vertical => {
            lemma_scaled_side(e.natural_height, e.natural_width, p.width);
            assert(h * nw == nw * h && nh * w == w * nh && nh * nw == nw * nh && u * nw == nw * u) by (nonlinear_arith);
        },
        _ => {
            lemma_scaled_side(e.natural_width, e.natural_height, p.height);
        },
    }
    assert((w * nh) * u >= 0 && (nw * h) * u >= 0 && u * nw >= 0 && u * nh >= 0) by (nonlinear_arith)
        requires
            w >= 0,
            h >= 0,
            nw > 0,
            nh > 0,
            u > 0,
    ;
}

/// The common side is that of the smallest screenshot: in rows and grids no
/// screenshot is higher than it is naturally, and one is as high; in columns
/// the same goes for widths.
pub proof fn law_layouts_scale_to_the_smallest(
    mode: LayoutMode,
    elements: Seq<ScreenshotElementView>,
    spacing: Double,
    margin: Double,
)
    requires
        elements.len() > 0,
        mode != LayoutMode::Free,
        forall|k: int| 0 <= k < elements.len() ==> has_extent(#[trigger] elements[k]),
    ensures
        ({
            let placements = layout_of(mode, elements, spacing, margin);
            if mode == LayoutMode::Vertical {
                &&& forall|i: int, k: int|
                    0 <= i < elements.len() && 0 <= k < elements.len() ==> le(
                        (#[trigger] placements[i]).width,
                        (#[trigger] elements[k]).natural_width,
                    )
                &&& exists|k: int|
                    0 <= k < elements.len() && (#[trigger] elements[k]).natural_width == placements[k].width
            } else {
                &&& forall|i: int, k: int|
                    0 <= i < elements.len() && 0 <= k < elements.len() ==> le(
                        (#[trigger] placements[i]).height,
                        (#[trigger] elements[k]).natural_height,
                    )
                &&& exists|k: int|
                    0 <= k < elements.len() && (#[trigger] elements[k]).natural_height == placements[k].height
            }
        }),
{
    let placements = layout_of(mode, elements, spacing, margin);
    lemma_common_sides(elements);
    let (w, h) = (least(natural_widths(elements)), least(natural_heights(elements)));
    let i = choose|k: int| 0 <= k < elements.len() && #[trigger] elements[k].natural_width == w;
    let j = choose|k: int| 0 <= k < elements.len() && #[trigger] elements[k].natural_height == h;
    if mode == LayoutMode::Vertical {
        assert(elements[i].natural_width == placements[i].width);
    } else {
        assert(elements[j].natural_height == placements[j].height);
    }
}

/// Whether the stretch that follows one from `start` on for `extent` starts the
/// spacing behind it, up to rounding.
pub open spec fn is_spaced(start: Double, extent: Double, spacing: Double, next: Double) -> bool {
    0x4_0000_0000_0000 * gap(next.val(), start.val() + extent.val() + spacing.val()) <= gap(start.val(), 0) + gap(extent.val(), 0)
        + gap(spacing.val(), 0)
}

proof fn lemma_spaced(start: Double, extent: Double, spacing: Double)
    requires
        start.finite(),
        extent.finite(),
        spacing.finite(),
        sum(extent, spacing).finite(),
        next_start(start, extent, spacing).finite(),
    ensures
        is_spaced(start, extent, spacing, next_start(start, extent, spacing)),
{
    lemma_sum_near(extent, spacing);
    lemma_sum_near(start, sum(extent, spacing));
    lemma_spaced_values(
        start.val(),
        extent.val(),
        spacing.val(),
        sum(extent, spacing).val(),
        next_start(start, extent, spacing).val(),
    );
}

proof fn lemma_spaced_values(start: int, extent: int, spacing: int, step: int, next: int)
    requires
        0x20_0000_0000_0000 * gap(step, extent + spacing) <= gap(extent + spacing, 0),
        0x20_0000_0000_0000 * gap(next, start + step) <= gap(start + step, 0),
    ensures
        0x4_0000_0000_0000 * gap(next, start + extent + spacing) <= gap(start, 0) + gap(extent, 0) + gap(spacing, 0),
{
}

/// Whether all numbers that a layout computes with at two neighbours are
/// finite.
pub open spec fn finite_neighbours(a: Placement, b: Placement, spacing: Double) -> bool {
    &&& a.x.finite() && a.y.finite() && a.width.finite() && a.height.finite()
    &&& b.x.finite() && b.y.finite() && spacing.finite()
    &&& sum(a.width, spacing).finite() && sum(a.height, spacing).finite()
}

/// Neighbours are the spacing apart: in a row and in a row of a grid from left
/// to right, in a column and from one row of a grid to the next from top to
/// bottom. The first one is the margin away from both edges. With a spacing
/// that is not negative no two neighbours overlap.
#[verifier::rlimit(50)]
pub proof fn law_neighbours_are_spaced(
    mode: LayoutMode,
    elements: Seq<ScreenshotElementView>,
    spacing: Double,
    margin: Double,
    i: int,
)
    requires
        mode != LayoutMode::Free,
        0 <= i < elements.len() - 1,
        column_count(elements.len()) > 0,
        ({
            let placements = layout_of(mode, elements, spacing, margin);
            finite_neighbours(placements[i], placements[i + 1], spacing)
        }),
    ensures
        ({
            let placements = layout_of(mode, elements, spacing, margin);
            let (a, b) = (placements[i], placements[i + 1]);
            let breaks = mode == LayoutMode::Grid && (i + 1) % (column_count(elements.len()) as int) == 0;
            &&& placements[0].x == margin && placements[0].y == margin
            &&& mode == LayoutMode::Vertical || breaks ==> {
                &&& b.x == margin
                &&& is_spaced(a.y, a.height, spacing, b.y)
                &&& spacing.val() >= 0 ==> le(sum(a.y, a.height), b.y)
            }
            &&& !(mode == LayoutMode::Vertical || breaks) ==> {
                &&& b.y == a.y
                &&& is_spaced(a.x, a.width, spacing, b.x)
                &&& spacing.val() >= 0 ==> le(sum(a.x, a.width), b.x)
            }
        }),
{
    let placements = layout_of(mode, elements, spacing, margin);
    let (a, b) = (placements[i], placements[i + 1]);
    let breaks = mode == LayoutMode::Grid && (i + 1) % (column_count(elements.len()) as int) == 0;
    if mode == LayoutMode::Vertical || breaks {
        assert(b.y == next_start(a.y, a.height, spacing));
        lemma_spaced(a.y, a.height, spacing);
        if spacing.val() >= 0 {
            lemma_follows(a.y, a.height, spacing);
        }
    } else {
        assert(b.x == next_start(a.x, a.width, spacing));
        lemma_spaced(a.x, a.width, spacing);
        if spacing.val() >= 0 {
            lemma_follows(a.x, a.width, spacing);
        }
    }
}

proof fn lemma_follows(start: Double, extent: Double, spacing: Double)
    requires
        start.finite(),
        extent.finite(),
        spacing.finite(),
        spacing.val() >= 0,
        sum(extent, spacing).finite(),
    ensures
        le(sum(start, extent), next_start(start, extent, spacing)),
{
    lemma_sum_grows(extent, spacing);
    lemma_sum_monotone(extent, sum(extent, spacing), start);
    lemma_sum_commutes(start, extent);
    lemma_sum_commutes(start, sum(extent, spacing));
}

/// In the free layout a screenshot is where its own transform says.
pub proof fn law_free_layout_follows_the_transforms(
    elements: Seq<ScreenshotElementView>,
    spacing: Double,
    margin: Double,
    i: int,
)
    requires
        0 <= i < elements.len(),
    ensures
        ({
            let (p, t) = (layout_of(LayoutMode::Free, elements, spacing, margin)[i], elements[i].transform);
            p.x == t.x && p.y == t.y && p.width == t.width && p.height == t.height
        }),
{
}

/// Every visible screenshot is placed, and no other: the visible ones are those
/// that are marked so, in their order.
pub proof fn law_visible_screenshots_are_placed(elements: Seq<ScreenshotElementView>)
    ensures
        forall|i: int| 0 <= i < visible_of(elements).len() ==> (#[trigger] visible_of(elements)[i]).visible,
        forall|k: int|
            0 <= k < elements.len() && (#[trigger] elements[k]).visible ==> visible_of(elements).contains(elements[k]),
        forall|i: int|
            0 <= i < visible_of(elements).len() ==> elements.contains(#[trigger] visible_of(elements)[i]),
        (forall|k: int| 0 <= k < elements.len() ==> (#[trigger] elements[k]).visible) ==> visible_of(elements)
            == elements,
    decreases elements.len(),
{
    if elements.len() > 0 {
        let init = elements.drop_last();
        let n = elements.len() - 1;
        law_visible_screenshots_are_placed(init);
        let all = visible_of(elements);
        assert forall|k: int| 0 <= k < elements.len() && (#[trigger] elements[k]).visible implies all.contains(
            elements[k],
        ) by {
            if k < n {
                assert(init[k] == elements[k]);
                let j = choose|j: int| 0 <= j < visible_of(init).len() && visible_of(init)[j] == elements[k];
                assert(all[j] == elements[k]);
            } else {
                assert(all[all.len() - 1] == elements[k]);
            }
        }
        assert forall|i: int| 0 <= i < all.len() implies elements.contains(#[trigger] all[i]) by {
            if i < visible_of(init).len() {
                assert(all[i] == visible_of(init)[i]);
                let j = choose|j: int| 0 <= j < init.len() && init[j] == all[i];
                assert(elements[j] == all[i]);
            } else {
                assert(elements[n] == all[i]);
            }
        }
        if forall|k: int| 0 <= k < elements.len() ==> (#[trigger] elements[k]).visible {
            assert forall|k: int| 0 <= k < init.len() implies (#[trigger] init[k]).visible by {
                assert(elements[k].visible);
            }
            assert(elements[n].visible);
            assert(init.push(elements.last()) =~= elements);
        }
    }
}

pub proof fn lemma_greatest_is_reached(values: Seq<Double>)
    ensures
        greatest(values) == int_double(0) || values.contains(greatest(values)),
    decreases values.len(),
{
    if values.len() > 0 {
        let init = values.drop_last();
        lemma_greatest_is_reached(init);
        if greatest(values) == values.last() {
            assert(values[values.len() - 1] == greatest(values));
        } else if init.contains(greatest(init)) {
            let k = choose|k: int| 0 <= k < init.len() && init[k] == greatest(init);
            assert(values[k] == greatest(init));
        }
    }
}

/// The extent is no larger than it has to be: some placement ends where it
/// does, but for the margin, unless all of them end at or before zero.
pub proof fn law_extent_is_reached(placements: Seq<Placement>, margin: Double)
    ensures
        ({
            let extent = extent_of(placements, margin);
            &&& extent.width == sum(int_double(0), margin) || exists|i: int|
                0 <= i < placements.len() && extent.width == sum(
                    sum((#[trigger] placements[i]).x, placements[i].width),
                    margin,
                )
            &&& extent.height == sum(int_double(0), margin) || exists|i: int|
                0 <= i < placements.len() && extent.height == sum(
                    sum((#[trigger] placements[i]).y, placements[i].height),
                    margin,
                )
        }),
{
    let right = placements.map_values(|p: Placement| sum(p.x, p.width));
    let bottom = placements.map_values(|p: Placement| sum(p.y, p.height));
    lemma_greatest_is_reached(right);
    lemma_greatest_is_reached(bottom);
    if greatest(right) != int_double(0) {
        let k = choose|k: int| 0 <= k < right.len() && right[k] == greatest(right);
        assert(greatest(right) == sum(placements[k].x, placements[k].width));
    }
    if greatest(bottom) != int_double(0) {
        let k = choose|k: int| 0 <= k < bottom.len() && bottom[k] == greatest(bottom);
        assert(greatest(bottom) == sum(placements[k].y, placements[k].height));
    }
}

proof fn lemma_rounded_up(a: Double)
    requires
        a.finite(),
        a.val() >= 0,
    ensures
        ({
            let (n, u) = (whole(a, Rounding::Up), one_unit());
            n * u >= a.val() && (n - 1) * u < a.val() || (a.val() == 0 && n == 0)
        }),
{
    let (u, m) = (one_unit() as int, a.mag() as int);
    lemma_pow2_pos(UNIT_EXP as nat);
    lemma_fundamental_div_mod(m, u);
    lemma_mod_bound(m, u);
    lemma_div_pos_is_pos(m, u);
    let (w, part) = (m / u, m % u);
    let n = whole(a, Rounding::Up);
    if a.neg() {
        assert(m == 0);
        assert(w == 0) by (nonlinear_arith)
            requires
                0 == u * w + part,
                w >= 0,
                part >= 0,
                u > 0,
        ;
    } else {
        assert(u * w == w * u && (w + 1) * u == w * u + u && (w - 1) * u == w * u - u) by (nonlinear_arith);
    }
}

/// A fitted canvas holds the extent of the layout and is less than a pixel
/// larger, in each direction.
#[verifier::rlimit(50)]
pub proof fn law_canvas_holds_the_layout(doc: DocumentView)
    requires
        visible_of(doc.elements).len() > 0,
        ({
            let extent = extent_of(current_layout(doc), doc.layout.margin_px);
            &&& extent.width.finite() && 0 < extent.width.val() <= u32::MAX * one_unit()
            &&& extent.height.finite() && 0 < extent.height.val() <= u32::MAX * one_unit()
        }),
    ensures
        ({
            let extent = extent_of(current_layout(doc), doc.layout.margin_px);
            let (canvas, u) = (fitted(doc).canvas, one_unit());
            &&& extent.width.val() <= canvas.export_width * u < extent.width.val() + u
            &&& extent.height.val() <= canvas.export_height * u < extent.height.val() + u
        }),
{
    let extent = extent_of(current_layout(doc), doc.layout.margin_px);
    lemma_whole_side(extent.width);
    lemma_whole_side(extent.height);
}

proof fn lemma_whole_side(a: Double)
    requires
        a.finite(),
        0 < a.val() <= u32::MAX * one_unit(),
    ensures
        a.val() <= crate::layout::whole_pixels(a) * one_unit() < a.val() + one_unit(),
{
    let (u, n) = (one_unit() as int, whole(a, Rounding::Up));
    lemma_pow2_pos(UNIT_EXP as nat);
    lemma_rounded_up(a);
    assert(0 <= n <= u32::MAX) by (nonlinear_arith)
        requires
            n * u >= a.val(),
            (n - 1) * u < a.val(),
            0 < a.val() <= u32::MAX * u,
            u > 0,
    ;
    assert((n - 1) * u == n * u - u) by (nonlinear_arith);
}

} // verus!
