//! What boxes promise: a resize moves the corner that is dragged and keeps the
//! others' edges, and a text sits where its anchors say.
use crate::arith_laws::{lemma_int_double_exact, lemma_prod_commutes, lemma_round_exact};
use crate::double::{diff, lemma_mag_ordered, one_unit, prod, quot, signed, sum, Double, UNIT_EXP};
use crate::model::{Corner, Transform};
use crate::model::geometry::{least_size, moved_extent, resized};
use crate::model::text::{wrap_room, HorizontalAnchor, TextPosition, VerticalAnchor};
use crate::near_laws::{
    lemma_diff_near, lemma_gap_of_product, lemma_gap_scales, lemma_half_near, lemma_prod_by_int, lemma_prod_near,
    lemma_quot_near, lemma_sum_near, lemma_times_one,
};
use crate::preset_laws::gap;
use crate::rounding::{lemma_round_scale, round_low};
use crate::whole::int_double;
use vstd::arithmetic::power2::*;
use vstd::prelude::*;

verus! {

/// A number times minus one is its opposite.
proof fn lemma_times_minus_one(d: Double)
    requires
        d.finite(),
    ensures
        prod(int_double(-1), d).finite(),
        prod(int_double(-1), d).val() == -d.val(),
{
    let u = one_unit();
    lemma_int_double_exact(-1);
    lemma_pow2_pos(UNIT_EXP as nat);
    lemma_round_scale(d.mag(), 1, u);
    lemma_round_exact(d.low());
    lemma_mag_ordered(0, d.low());
    assert(u * d.mag() == d.mag() * u) by (nonlinear_arith);
    assert(prod(int_double(-1), d) == signed(true != d.neg(), round_low(d.mag() * u, u))) by {
        reveal(prod);
    }
}

/// Whether a side has changed by `change`, up to rounding.
pub open spec fn has_changed(side: Double, from: Double, change: int) -> bool {
    0x4_0000_0000_0000 * gap(side.val() - from.val(), change) <= gap(from.val() + change, 0)
}

proof fn lemma_moved_extent(size: Double, positive: bool, d: Double)
    requires
        size.finite(),
        d.finite(),
        moved_extent(size, positive, d).finite(),
    ensures
        moved_extent(size, positive, d) == least_size() || has_changed(
            moved_extent(size, positive, d),
            size,
            if positive {
                d.val()
            } else {
                -d.val()
            },
        ),
{
    lemma_times_one(d);
    lemma_times_minus_one(d);
    let step = prod(int_double(if positive { 1 } else { -1 }), d);
    if moved_extent(size, positive, d) != least_size() {
        lemma_sum_near(size, step);
    }
}

/// A resize makes a side longer by as much as the corner is dragged outward and
/// shorter by as much as it is dragged inward, down to the least size. The
/// height of a box with a free aspect follows the pointer like the width.
pub proof fn law_resize_follows_the_pointer(t: Transform, corner: Corner, dx: Double, dy: Double)
    requires
        t.width.finite(),
        t.height.finite(),
        dx.finite(),
        dy.finite(),
        resized(t, corner, dx, dy).width.finite(),
        resized(t, corner, dx, dy).height.finite(),
    ensures
        ({
            let r = resized(t, corner, dx, dy);
            let right = corner == Corner::TopRight || corner == Corner::BottomRight;
            let bottom = corner == Corner::BottomLeft || corner == Corner::BottomRight;
            &&& r.width == int_double(20) || has_changed(
                r.width,
                t.width,
                if right {
                    dx.val()
                } else {
                    -dx.val()
                },
            )
            &&& !t.aspect_locked ==> r.height == int_double(20) || has_changed(
                r.height,
                t.height,
                if bottom {
                    dy.val()
                } else {
                    -dy.val()
                },
            )
        }),
{
    lemma_moved_extent(t.width, corner.right(), dx);
    if !t.aspect_locked {
        lemma_moved_extent(t.height, corner.bottom(), dy);
    }
}

/// Whether an edge of a resized stretch stays where it was, up to rounding.
pub open spec fn edge_stays(start: Double, extent: Double, old_start: Double, old_extent: Double) -> bool {
    0x4_0000_0000_0000 * gap(start.val() + extent.val(), old_start.val() + old_extent.val()) <= gap(
        old_start.val() + old_extent.val(),
        0,
    ) + gap(start.val(), 0)
}

/// The corner opposite to the one that is dragged stays in place: its left and
/// upper edges exactly, its right and lower ones up to rounding.
pub proof fn law_resize_keeps_the_opposite_corner(t: Transform, corner: Corner, dx: Double, dy: Double)
    requires
        t.x.finite(),
        t.y.finite(),
        t.width.finite(),
        t.height.finite(),
        sum(t.x, t.width).finite(),
        sum(t.y, t.height).finite(),
        ({
            let r = resized(t, corner, dx, dy);
            r.x.finite() && r.y.finite() && r.width.finite() && r.height.finite()
        }),
    ensures
        ({
            let r = resized(t, corner, dx, dy);
            &&& corner == Corner::BottomRight ==> r.x == t.x && r.y == t.y
            &&& corner == Corner::TopRight ==> r.x == t.x && edge_stays(r.y, r.height, t.y, t.height)
            &&& corner == Corner::BottomLeft ==> edge_stays(r.x, r.width, t.x, t.width) && r.y == t.y
            &&& corner == Corner::TopLeft ==> edge_stays(r.x, r.width, t.x, t.width) && edge_stays(
                r.y,
                r.height,
                t.y,
                t.height,
            )
        }),
{
    let r = resized(t, corner, dx, dy);
    lemma_sum_near(t.x, t.width);
    lemma_sum_near(t.y, t.height);
    if !corner.right() {
        lemma_diff_near(sum(t.x, t.width), r.width);
    }
    if !corner.bottom() {
        lemma_diff_near(sum(t.y, t.height), r.height);
    }
}

/// A resize with the aspect locked keeps the ratio of the sides, wherever it
/// does not end at the least height.
#[verifier::rlimit(50)]
pub proof fn law_locked_resize_keeps_the_aspect(t: Transform, corner: Corner, dx: Double, dy: Double)
    requires
        t.aspect_locked,
        t.width.finite(),
        t.height.finite(),
        t.width.val() > 0,
        quot(t.height, t.width).finite(),
        ({
            let r = resized(t, corner, dx, dy);
            r.width.finite() && r.height.finite() && prod(r.width, quot(t.height, t.width)).finite()
        }),
    ensures
        ({
            let r = resized(t, corner, dx, dy);
            let u = one_unit() as int;
            let exact = r.width.val() * t.height.val();
            ||| r.height == int_double(20)
            ||| 0x4_0000_0000_0000 * gap(r.height.val() * t.width.val() * u, exact * u) <= gap(exact * u, 0)
                + 0x4_0000_0000_0000 * (t.width.val() * gap(r.width.val(), 0) + t.width.val() * u)
        }),
{
    let r = resized(t, corner, dx, dy);
    let u = one_unit() as int;
    lemma_int_double_exact(0);
    assert(0 * one_unit() == 0);
    lemma_pow2_pos(UNIT_EXP as nat);
    let q = quot(t.height, t.width);
    let (a, b, w) = (t.width.val(), t.height.val(), r.width.val());
    let p = prod(r.width, q);
    lemma_quot_near(t.height, t.width);
    lemma_prod_near(r.width, q);
    let qv = q.val();
    // The quotient's error, times the new width.
    lemma_gap_scales(qv * a, b * u, w);
    lemma_gap_of_product(b * u, w);
    let (g, gw) = (gap(qv * a, b * u), gap(w, 0));
    assert(0x20_0000_0000_0000 * (g * gw) <= gap(b * u, 0) * gw + 0x10_0000_0000_0000 * (a * gw)) by (nonlinear_arith)
        requires
            0x20_0000_0000_0000 * g <= gap(b * u, 0) + 0x10_0000_0000_0000 * a,
            gw >= 0,
    ;
    // The product's error, times the old width.
    lemma_gap_scales(p.val() * u, w * qv, a);
    lemma_gap_of_product(w * qv, a);
    let h = gap(p.val() * u, w * qv);
    assert(0x20_0000_0000_0000 * (h * a) <= gap(w * qv, 0) * a + 0x10_0000_0000_0000 * (u * a)) by (nonlinear_arith)
        requires
            0x20_0000_0000_0000 * h <= gap(w * qv, 0) + 0x10_0000_0000_0000 * u,
            a > 0,
    ;
    let (exact, found, between) = ((w * b) * u, p.val() * a * u, (qv * a) * w);
    assert((b * u) * w == exact && (p.val() * u) * a == found && (w * qv) * a == between && u * a == a * u)
        by (nonlinear_arith)
        requires
            exact == (w * b) * u,
            found == p.val() * a * u,
            between == (qv * a) * w,
    ;
    lemma_aspect_sums(found, between, exact, a * gw, a * u);
}

proof fn lemma_aspect_sums(found: int, between: int, exact: int, x: int, y: int)
    requires
        0x20_0000_0000_0000 * gap(found, between) <= gap(between, 0) + 0x10_0000_0000_0000 * y,
        0x20_0000_0000_0000 * gap(between, exact) <= gap(exact, 0) + 0x10_0000_0000_0000 * x,
    ensures
        0x4_0000_0000_0000 * gap(found, exact) <= gap(exact, 0) + 0x4_0000_0000_0000 * (x + y),
{
    assert(gap(found, exact) <= gap(found, between) + gap(between, exact));
    assert(gap(between, 0) <= gap(exact, 0) + gap(between, exact));
}

/// Whether a stretch leaves as much of the room before it as behind it.
pub open spec fn is_centered(start: Double, extent: Double, room: Double) -> bool {
    0x4_0000_0000_0000 * gap(2 * start.val() + extent.val(), room.val()) <= gap(room.val() - extent.val(), 0)
        + 0x4_0000_0000_0000
}

/// Whether a stretch ends as far from the end of the room as the padding says.
pub open spec fn ends_before(start: Double, extent: Double, padding: Double, room: Double) -> bool {
    0x4_0000_0000_0000 * gap(start.val() + extent.val() + padding.val(), room.val()) <= gap(
        room.val() - extent.val(),
        0,
    ) + gap(padding.val(), 0)
}

/// A text sits where its anchors say: beside the edge that it is anchored to at
/// the distance of the padding, or in the middle with as much room on one side
/// as on the other.
pub proof fn law_anchors_place_the_text(
    horizontal: HorizontalAnchor,
    vertical: VerticalAnchor,
    padding: Double,
    ref_w: Double,
    ref_h: Double,
    box_w: Double,
    box_h: Double,
)
    requires
        padding.finite(),
        ref_w.finite(),
        ref_h.finite(),
        box_w.finite(),
        box_h.finite(),
        diff(ref_w, box_w).finite(),
        diff(ref_h, box_h).finite(),
        diff(diff(ref_w, box_w), padding).finite(),
        diff(diff(ref_h, box_h), padding).finite(),
    ensures
        ({
            let (x, y) = (TextPosition::Semantic { horizontal, vertical, padding }).origin(ref_w, ref_h, box_w, box_h);
            &&& horizontal == HorizontalAnchor::Left ==> x == padding
            &&& horizontal == HorizontalAnchor::Center ==> is_centered(x, box_w, ref_w)
            &&& horizontal == HorizontalAnchor::Right ==> ends_before(x, box_w, padding, ref_w)
            &&& vertical == VerticalAnchor::Top ==> y == padding
            &&& vertical == VerticalAnchor::Center ==> is_centered(y, box_h, ref_h)
            &&& vertical == VerticalAnchor::Bottom ==> ends_before(y, box_h, padding, ref_h)
        }),
{
    let (a, b) = (diff(ref_w, box_w), diff(ref_h, box_h));
    lemma_diff_near(ref_w, box_w);
    lemma_diff_near(ref_h, box_h);
    lemma_half_near(a);
    lemma_half_near(b);
    lemma_diff_near(a, padding);
    lemma_diff_near(b, padding);
}

/// The lines of a text that is anchored wrap so that they keep the padding on
/// both sides, and those of one that is not within the whole width; one is the
/// least.
pub proof fn law_lines_wrap_within_the_padding(position: TextPosition, ref_w: Double)
    requires
        ref_w.finite(),
        position matches TextPosition::Semantic { padding, .. } ==> padding.finite() && prod(
            int_double(2),
            padding,
        ).finite() && diff(ref_w, prod(int_double(2), padding)).finite(),
    ensures
        ({
            let room = wrap_room(position, ref_w);
            &&& room.val() >= one_unit()
            &&& match position {
                TextPosition::Absolute { .. } => room == int_double(1) || room == ref_w,
                TextPosition::Semantic { padding, .. } => room == int_double(1) || 0x4_0000_0000_0000 * gap(
                    room.val() + 2 * padding.val(),
                    ref_w.val(),
                ) <= gap(ref_w.val(), 0) + gap(2 * padding.val(), 0) + 0x4_0000_0000_0000,
            }
        }),
{
    lemma_int_double_exact(1);
    if let TextPosition::Semantic { padding, .. } = position {
        lemma_int_double_exact(2);
        lemma_prod_commutes(int_double(2), padding);
        lemma_prod_by_int(padding, 2);
        lemma_diff_near(ref_w, prod(int_double(2), padding));
    }
}

} // verus!
