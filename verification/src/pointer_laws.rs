//! What the preview promises: a press finds what is drawn under it, a drag
//! moves things as far as the pointer goes, and the preview fits its widget.
use crate::arith_laws::{
    lemma_fraction, lemma_int_double_exact, lemma_round_exact, lemma_round_monotone, lemma_round_units_exact,
    lemma_round_units_monotone, lemma_short_is_double, lemma_sum_val,
};
use crate::canvas::{
    corner_point, covers, document_point, dragged, drawn_at, drawn_offset, ended, grabs, handle_from, handle_reach,
    handle_square, hit_from, hover_position, insertion_from, pixels_at, position_among_others, preview_scale, updated,
    wanted_rendering, zoomed_in, zoomed_out, CanvasView, DragOutcome, HANDLE_DRAW_HALF_PX,
};
use crate::double::{diff, lemma_mag_ordered, one_unit, opposite, prod, quot, signed, sum, Double, UNIT_EXP};
use crate::export::lemma_exact_product;
use crate::generator::{half, Point};
use crate::layout::Placement;
use crate::model::Corner;
use crate::near_laws::{
    about, lemma_diff_near, lemma_gap_of_product, lemma_gap_scales, lemma_half_near, lemma_middle_near,
    lemma_plus_zero, lemma_prod_near, lemma_quot_by_int, lemma_quot_near, lemma_sum_exact, lemma_sum_near,
    lemma_times_zero,
};
use crate::order::{le, lt, smaller};
use crate::palette_laws::lemma_small_product;
use crate::preset_laws::gap;
use crate::rounding::{lemma_round_scale, lemma_round_zero, round_low};
use crate::whole::{int_double, ratio, whole, Rounding};
use vstd::arithmetic::div_mod::*;
use vstd::arithmetic::power2::*;
use vstd::prelude::*;

verus! {

/// The composition is drawn in the middle of the widget: as much is left before
/// it as behind it.
pub proof fn law_composition_is_centered(widget: i32, rendered: i32)
    ensures
        drawn_offset(widget, rendered).finite(),
        2 * drawn_offset(widget, rendered).val() == (widget - rendered) * one_unit(),
{
    let d = widget - rendered;
    let (a, b) = (int_double(widget as int), int_double(rendered as int));
    let u = one_unit() as int;
    lemma_pow2_pos(UNIT_EXP as nat);
    lemma_pow2_unfold(UNIT_EXP as nat);
    lemma_pow2_pos((UNIT_EXP - 1) as nat);
    lemma_int_double_exact(widget as int);
    lemma_int_double_exact(rendered as int);
    lemma_int_double_exact(d);
    assert(opposite(b).val() == -b.val());
    assert(widget * u - rendered * u == d * u) by (nonlinear_arith)
        requires
            d == widget - rendered,
    ;
    lemma_sum_exact(a, opposite(b), int_double(d));
    lemma_half_near(diff(a, b));
    // Both sides are even.
    let h = half(diff(a, b)).val();
    let k = pow2((UNIT_EXP - 1) as nat) as int;
    assert(d * u == 2 * (d * k)) by (nonlinear_arith)
        requires
            u == 2 * k,
    ;
}

/// The value of a point that was found, in whole numbers: `x` is where the
/// pointer is from the drawing's corner, `d` the same rounded, `s` the scale
/// and `q` what was found.
proof fn lemma_found(u: int, x: int, d: int, s: int, q: int)
    requires
        u > 0,
        s > 0,
        0x20_0000_0000_0000 * gap(d, x) <= gap(x, 0),
        0x20_0000_0000_0000 * gap(q * s, d * u) <= gap(d * u, 0) + 0x10_0000_0000_0000 * s,
    ensures
        0x20_0000_0000_0000 * gap(q * s, x * u) <= 3 * gap(x * u, 0) + 0x10_0000_0000_0000 * s,
{
    lemma_gap_scales(d, x, u);
    lemma_gap_of_product(x, u);
    lemma_gap_of_product(d, u);
    let (g, gx, gd) = (gap(d, x), gap(x, 0), gap(d, 0));
    assert(0x20_0000_0000_0000 * (g * u) <= gx * u) by (nonlinear_arith)
        requires
            0x20_0000_0000_0000 * g <= gx,
            u > 0,
    ;
    assert(gap(d * u, 0) <= gap(x * u, 0) + gap(d * u, x * u));
    assert(gap(q * s, x * u) <= gap(q * s, d * u) + gap(d * u, x * u));
}

/// Whether a coordinate that a pointer found is the one that is drawn under it:
/// taken by the scale and from the offset on, it is where the pointer is, up to
/// rounding.
pub open spec fn is_under(found: Double, pointer: Double, widget: i32, rendered: i32, scale: Double) -> bool {
    about(
        2 * (found.val() * scale.val()),
        (2 * pointer.val() - (widget - rendered) * one_unit()) * one_unit(),
        2 * scale.val(),
    )
}

proof fn lemma_is_under(pointer: Double, widget: i32, rendered: i32, scale: Double)
    requires
        pointer.finite(),
        scale.finite(),
        scale.val() > 0,
        diff(pointer, drawn_offset(widget, rendered)).finite(),
        quot(diff(pointer, drawn_offset(widget, rendered)), scale).finite(),
    ensures
        is_under(
            quot(diff(pointer, drawn_offset(widget, rendered)), scale),
            pointer,
            widget,
            rendered,
            scale,
        ),
        ({
            let (x, o) = (pointer.val(), drawn_offset(widget, rendered).val());
            let (q, s) = (quot(diff(pointer, drawn_offset(widget, rendered)), scale).val(), scale.val());
            let u = one_unit() as int;
            0x20_0000_0000_0000 * gap(q * s, (x - o) * u) <= 3 * gap((x - o) * u, 0) + 0x10_0000_0000_0000 * s
        }),
{
    let o = drawn_offset(widget, rendered);
    let d = diff(pointer, o);
    let q = quot(d, scale);
    let u = one_unit() as int;
    lemma_pow2_pos(UNIT_EXP as nat);
    law_composition_is_centered(widget, rendered);
    lemma_diff_near(pointer, o);
    lemma_quot_near(d, scale);
    let x = pointer.val() - o.val();
    lemma_found(u, x, d.val(), scale.val(), q.val());
    assert((2 * pointer.val() - (widget - rendered) * u) * u == 2 * (x * u)) by (nonlinear_arith)
        requires
            2 * x == 2 * pointer.val() - (widget - rendered) * u,
    ;
}

/// A press finds the point of the document that is drawn under it.
pub proof fn law_press_finds_what_is_drawn_under_it(v: CanvasView, width: i32, height: i32, x: Double, y: Double)
    requires
        x.finite(),
        y.finite(),
        v.scale.finite(),
        v.scale.val() > 0,
        v.rendered matches Some((w, h)) && diff(x, drawn_offset(width, w)).finite() && diff(
            y,
            drawn_offset(height, h),
        ).finite(),
        document_point(v, width, height, x, y) matches Some(at) ==> at.x.finite() && at.y.finite(),
    ensures
        document_point(v, width, height, x, y) matches Some(at) && (v.rendered matches Some((w, h)) && is_under(
            at.x,
            x,
            width,
            w,
            v.scale,
        ) && is_under(at.y, y, height, h, v.scale)),
{
    lemma_int_double_exact(0);
    let (w, h) = v.rendered->0;
    lemma_is_under(x, width, w, v.scale);
    lemma_is_under(y, height, h, v.scale);
}

/// Drawing a coordinate and finding it again gives it back, up to rounding: the
/// error on the screen is a part in `2^50` of how far the point is from the
/// corners of the drawing and of the widget.
#[verifier::rlimit(50)]
pub proof fn law_drawn_points_are_found_again(coordinate: Double, widget: i32, rendered: i32, scale: Double)
    requires
        coordinate.finite(),
        scale.finite(),
        scale.val() > 0,
        ({
            let o = drawn_offset(widget, rendered);
            let drawn = drawn_at(o, coordinate, scale);
            &&& prod(coordinate, scale).finite()
            &&& drawn.finite()
            &&& diff(drawn, o).finite()
            &&& quot(diff(drawn, o), scale).finite()
        }),
    ensures
        ({
            let o = drawn_offset(widget, rendered);
            let found = quot(diff(drawn_at(o, coordinate, scale), o), scale);
            let (s, u, exact) = (scale.val(), one_unit() as int, coordinate.val() * scale.val());
            0x4_0000_0000_0000 * gap(found.val() * s, exact) <= gap(exact, 0) + gap(o.val() * u, 0)
                + 0x4_0000_0000_0000 * (s + u)
        }),
{
    let o = drawn_offset(widget, rendered);
    let p = prod(coordinate, scale);
    let drawn = drawn_at(o, coordinate, scale);
    let found = quot(diff(drawn, o), scale);
    let (s, u, exact) = (scale.val(), one_unit() as int, coordinate.val() * scale.val());
    lemma_pow2_pos(UNIT_EXP as nat);
    law_composition_is_centered(widget, rendered);
    lemma_is_under(drawn, widget, rendered, scale);
    lemma_prod_near(coordinate, scale);
    lemma_sum_near(o, p);
    let x = drawn.val() - o.val();
    let g = gap(x, p.val());
    assert(g == gap(drawn.val(), o.val() + p.val()));
    lemma_gap_scales(x, p.val(), u);
    lemma_gap_of_product(p.val(), u);
    lemma_gap_of_product(o.val(), u);
    assert(0x20_0000_0000_0000 * (g * u) <= gap(o.val(), 0) * u + gap(p.val(), 0) * u) by (nonlinear_arith)
        requires
            0x20_0000_0000_0000 * g <= gap(o.val(), 0) + gap(p.val(), 0),
            u > 0,
    ;
    lemma_found_again(found.val() * s, x * u, p.val() * u, exact, gap(o.val() * u, 0), s, u);
}

proof fn lemma_found_again(found: int, x: int, p: int, exact: int, o: int, s: int, u: int)
    requires
        0x20_0000_0000_0000 * gap(found, x) <= 3 * gap(x, 0) + 0x10_0000_0000_0000 * s,
        0x20_0000_0000_0000 * gap(x, p) <= o + gap(p, 0),
        0x20_0000_0000_0000 * gap(p, exact) <= gap(exact, 0) + 0x10_0000_0000_0000 * u,
        o >= 0,
        s > 0,
        u > 0,
    ensures
        0x4_0000_0000_0000 * gap(found, exact) <= gap(exact, 0) + o + 0x4_0000_0000_0000 * (s + u),
{
    assert(gap(found, exact) <= gap(found, x) + gap(x, p) + gap(p, exact));
    assert(gap(p, 0) <= gap(exact, 0) + gap(p, exact));
    assert(gap(x, 0) <= gap(p, 0) + gap(x, p));
}

/// Whether a stretch of the document is drawn around a pointer, with room for
/// rounding on both sides.
pub open spec fn drawn_around(start: Double, extent: Double, pointer: Double, offset: Double, scale: Double) -> bool {
    let (u, s) = (one_unit() as int, scale.val());
    let at = (pointer.val() - offset.val()) * u;
    let room = 3 * gap(at, 0) + 0x10_0000_0000_0000 * s;
    &&& 0x20_0000_0000_0000 * (start.val() * s) + room <= 0x20_0000_0000_0000 * at
    &&& 0x20_0000_0000_0000 * at + room <= 0x20_0000_0000_0000 * ((start.val() + extent.val()) * s)
}

proof fn lemma_found_inside(start: Double, extent: Double, pointer: Double, widget: i32, rendered: i32, scale: Double)
    requires
        start.finite(),
        extent.finite(),
        pointer.finite(),
        scale.finite(),
        scale.val() > 0,
        diff(pointer, drawn_offset(widget, rendered)).finite(),
        quot(diff(pointer, drawn_offset(widget, rendered)), scale).finite(),
        drawn_around(start, extent, pointer, drawn_offset(widget, rendered), scale),
    ensures
        ({
            let found = quot(diff(pointer, drawn_offset(widget, rendered)), scale);
            le(start, found) && le(found, sum(start, extent))
        }),
{
    let o = drawn_offset(widget, rendered);
    let found = quot(diff(pointer, o), scale);
    let (u, s, q) = (one_unit() as int, scale.val(), found.val());
    let at = (pointer.val() - o.val()) * u;
    law_composition_is_centered(widget, rendered);
    lemma_is_under(pointer, widget, rendered, scale);
    let end = start.val() + extent.val();
    assert(start.val() * s <= q * s && q * s <= end * s);
    assert(start.val() <= q && q <= end) by (nonlinear_arith)
        requires
            start.val() * s <= q * s,
            q * s <= end * s,
            s > 0,
    ;
    lemma_sum_val(start, extent);
    lemma_round_units_monotone(q, end);
    lemma_round_units_exact(found);
}

/// A press into the box of a screenshot, as it is drawn at whatever scale, hits
/// that screenshot, or one that comes before it and covers the same point.
pub proof fn law_press_hits_what_is_drawn(v: CanvasView, width: i32, height: i32, x: Double, y: Double, k: int)
    requires
        0 <= k < v.placements.len() <= usize::MAX,
        x.finite(),
        y.finite(),
        v.scale.finite(),
        v.scale.val() > 0,
        v.placements[k].x.finite(),
        v.placements[k].y.finite(),
        v.placements[k].width.finite(),
        v.placements[k].height.finite(),
        v.rendered matches Some((w, h)) && {
            let (ox, oy) = (drawn_offset(width, w), drawn_offset(height, h));
            &&& diff(x, ox).finite() && diff(y, oy).finite()
            &&& drawn_around(v.placements[k].x, v.placements[k].width, x, ox, v.scale)
            &&& drawn_around(v.placements[k].y, v.placements[k].height, y, oy, v.scale)
        },
        document_point(v, width, height, x, y) matches Some(at) ==> at.x.finite() && at.y.finite(),
    ensures
        document_point(v, width, height, x, y) matches Some(at) && covers(v.placements[k], at) && (hit_from(
            v.placements,
            at,
            0,
        ) matches Some(i) && i <= k && covers(v.placements[i as int], at)),
{
    lemma_int_double_exact(0);
    let (w, h) = v.rendered->0;
    let p = v.placements[k];
    let at = document_point(v, width, height, x, y)->0;
    lemma_found_inside(p.x, p.width, x, width, w, v.scale);
    lemma_found_inside(p.y, p.height, y, height, h, v.scale);
    law_hit_is_the_first_that_covers(v.placements, at, 0);
}

/// What is hit is the first screenshot that covers the point; nothing is hit
/// only where none does.
pub proof fn law_hit_is_the_first_that_covers(placements: Seq<Placement>, at: Point, i: nat)
    requires
        i <= placements.len() <= usize::MAX,
    ensures
        match hit_from(placements, at, i) {
            Some(k) => {
                &&& i <= k < placements.len()
                &&& covers(placements[k as int], at)
                &&& forall|j: int| i <= j < k ==> !covers(#[trigger] placements[j], at)
            },
            None => forall|j: int| i <= j < placements.len() ==> !covers(#[trigger] placements[j], at),
        },
    decreases placements.len() - i,
{
    if i < placements.len() && !covers(placements[i as int], at) {
        law_hit_is_the_first_that_covers(placements, at, i + 1);
    }
}

/// A placement covers what lies between its edges, and nothing else.
pub proof fn law_placements_cover_their_box(p: Placement, at: Point)
    requires
        p.x.finite(),
        p.y.finite(),
        p.width.finite(),
        p.height.finite(),
        at.x.finite(),
        at.y.finite(),
    ensures
        p.x.val() <= at.x.val() <= p.x.val() + p.width.val() && p.y.val() <= at.y.val() <= p.y.val() + p.height.val()
            ==> covers(p, at),
        at.x.val() < p.x.val() || at.y.val() < p.y.val() ==> !covers(p, at),
        covers(p, at) && sum(p.x, p.width).finite() ==> 0x20_0000_0000_0000 * (at.x.val() - p.x.val() - p.width.val())
            <= gap(p.x.val() + p.width.val(), 0),
        covers(p, at) && sum(p.y, p.height).finite() ==> 0x20_0000_0000_0000 * (at.y.val() - p.y.val() - p.height.val())
            <= gap(p.y.val() + p.height.val(), 0),
{
    lemma_sum_val(p.x, p.width);
    lemma_sum_val(p.y, p.height);
    lemma_round_units_exact(at.x);
    lemma_round_units_exact(at.y);
    if at.x.val() <= p.x.val() + p.width.val() {
        lemma_round_units_monotone(at.x.val(), p.x.val() + p.width.val());
    }
    if at.y.val() <= p.y.val() + p.height.val() {
        lemma_round_units_monotone(at.y.val(), p.y.val() + p.height.val());
    }
    if sum(p.x, p.width).finite() {
        lemma_sum_near(p.x, p.width);
    }
    if sum(p.y, p.height).finite() {
        lemma_sum_near(p.y, p.height);
    }
}

/// A press on a corner grabs its handle.
pub proof fn law_handles_are_at_the_corners(p: Placement, corner: Corner, reach: Double)
    requires
        corner_point(p, corner).x.finite(),
        corner_point(p, corner).y.finite(),
        reach.finite(),
        prod(reach, reach).finite(),
    ensures
        grabs(p, corner, corner_point(p, corner), reach),
        ({
            let c = corner_point(p, corner);
            &&& corner == Corner::TopLeft ==> c.x == p.x && c.y == p.y
            &&& corner == Corner::TopRight ==> c.x == sum(p.x, p.width) && c.y == p.y
            &&& corner == Corner::BottomLeft ==> c.x == p.x && c.y == sum(p.y, p.height)
            &&& corner == Corner::BottomRight ==> c.x == sum(p.x, p.width) && c.y == sum(p.y, p.height)
        }),
{
    let c = corner_point(p, corner);
    let zero = int_double(0);
    lemma_int_double_exact(0);
    lemma_nothing_left(c.x);
    lemma_nothing_left(c.y);
    let (dx, dy) = (diff(c.x, c.x), diff(c.y, c.y));
    lemma_times_zero(dx, dx);
    lemma_times_zero(dy, dy);
    lemma_plus_zero(prod(dx, dx), prod(dy, dy));
    lemma_prod_near(reach, reach);
}

proof fn lemma_nothing_left(a: Double)
    requires
        a.finite(),
    ensures
        diff(a, a).finite(),
        diff(a, a).val() == 0,
{
    lemma_int_double_exact(0);
    assert(opposite(a).val() == -a.val());
    assert(0 * one_unit() == 0);
    lemma_sum_exact(a, opposite(a), int_double(0));
}

/// A handle reaches as far on the screen at every scale: its reach in the
/// document times the scale is ten pixels.
pub proof fn law_handles_reach_the_same_on_the_screen(scale: Double)
    requires
        scale.finite(),
        scale.val() > 0,
        handle_reach(scale).finite(),
    ensures
        about(handle_reach(scale).val() * scale.val(), 10 * (one_unit() as int * one_unit()), scale.val()),
{
    let u = one_unit() as int;
    lemma_pow2_pos(UNIT_EXP as nat);
    lemma_int_double_exact(10);
    lemma_quot_near(int_double(10), scale);
    assert((10 * u) * u == 10 * (u * u)) by (nonlinear_arith);
    assert(u * u >= 0) by (nonlinear_arith);
}

/// The handle at a point is one that the point grabs: of the first screenshot
/// with such a corner. Where there is none, no corner is in reach.
pub proof fn law_handle_is_the_first_in_reach(placements: Seq<Placement>, at: Point, reach: Double, i: nat)
    requires
        i <= placements.len() <= usize::MAX,
    ensures
        match handle_from(placements, at, reach, i) {
            Some((k, corner)) => {
                &&& i <= k < placements.len()
                &&& grabs(placements[k as int], corner, at, reach)
                &&& forall|j: int, c: Corner| i <= j < k ==> !(#[trigger] grabs(placements[j], c, at, reach))
            },
            None => forall|j: int, c: Corner|
                i <= j < placements.len() ==> !(#[trigger] grabs(placements[j], c, at, reach)),
        },
    decreases placements.len() - i,
{
    if i < placements.len() {
        law_handle_is_the_first_in_reach(placements, at, reach, i + 1);
    }
}

/// What a handle grabs is no farther from its corner than its reach, in squares
/// and up to rounding.
pub proof fn law_handles_grab_within_reach(p: Placement, corner: Corner, at: Point, reach: Double)
    requires
        grabs(p, corner, at, reach),
        reach.finite(),
        prod(reach, reach).finite(),
        ({
            let c = corner_point(p, corner);
            let (dx, dy) = (diff(at.x, c.x), diff(at.y, c.y));
            &&& dx.finite() && dy.finite()
            &&& prod(dx, dx).finite() && prod(dy, dy).finite()
        }),
    ensures
        ({
            let c = corner_point(p, corner);
            let (dx, dy, r, u) = (diff(at.x, c.x).val(), diff(at.y, c.y).val(), reach.val(), one_unit() as int);
            &&& 0x1F_FFFF_FFFF_FFFF * (dx * dx) <= 0x20_0000_0000_0001 * (r * r) + 0x20_0000_0000_0000 * u
            &&& 0x1F_FFFF_FFFF_FFFF * (dy * dy) <= 0x20_0000_0000_0001 * (r * r) + 0x20_0000_0000_0000 * u
        }),
{
    let c = corner_point(p, corner);
    let (dx, dy) = (diff(at.x, c.x), diff(at.y, c.y));
    let (a, b, m) = (prod(dx, dx), prod(dy, dy), prod(reach, reach));
    let u = one_unit() as int;
    lemma_pow2_pos(UNIT_EXP as nat);
    lemma_prod_near(dx, dx);
    lemma_prod_near(dy, dy);
    lemma_prod_near(reach, reach);
    lemma_square_sign(dx.val());
    lemma_square_sign(dy.val());
    lemma_square_sign(reach.val());
    // Both squares are at most their sum.
    lemma_sum_val(a, b);
    lemma_round_units_monotone(a.val(), a.val() + b.val());
    lemma_round_units_monotone(b.val(), a.val() + b.val());
    lemma_round_units_exact(a);
    lemma_round_units_exact(b);
    assert(a.val() <= m.val() && b.val() <= m.val());
    assert(a.val() * u <= m.val() * u && b.val() * u <= m.val() * u) by (nonlinear_arith)
        requires
            a.val() <= m.val(),
            b.val() <= m.val(),
            u > 0,
    ;
}

proof fn lemma_square_sign(a: int)
    ensures
        a * a >= 0,
{
    assert(a * a >= 0) by (nonlinear_arith);
}

/// Where a dragged screenshot would be put in: behind all whose middles lie at
/// or before the pointer, and before the next one, whose middle lies behind it.
pub proof fn law_insertion_goes_by_the_middles(placements: Seq<Placement>, x: Double, i: nat)
    requires
        i <= placements.len() <= usize::MAX,
        x.finite(),
        forall|j: int|
            0 <= j < placements.len() ==> (#[trigger] placements[j]).x.finite() && placements[j].width.finite() && sum(
                placements[j].x,
                half(placements[j].width),
            ).finite(),
    ensures
        ({
            let k = insertion_from(placements, x, i);
            &&& i <= k <= placements.len()
            &&& forall|j: int| i <= j < k ==> !middle_is_behind(#[trigger] placements[j], x)
            &&& k < placements.len() ==> middle_is_behind(placements[k as int], x)
        }),
        forall|j: int|
            0 <= j < placements.len() ==> (#[trigger] middle_is_behind(placements[j], x) ==> 0x4_0000_0000_0000 * (2
                * x.val() - 2 * placements[j].x.val() - placements[j].width.val()) < gap(
                2 * placements[j].x.val() + placements[j].width.val(),
                0,
            ) + 0x8_0000_0000_0000),
        forall|j: int|
            0 <= j < placements.len() ==> (!(#[trigger] middle_is_behind(placements[j], x)) ==> 0x4_0000_0000_0000 * (2
                * placements[j].x.val() + placements[j].width.val() - 2 * x.val()) <= gap(
                2 * placements[j].x.val() + placements[j].width.val(),
                0,
            ) + 0x8_0000_0000_0000),
    decreases placements.len() - i,
{
    if i < placements.len() && !middle_is_behind(placements[i as int], x) {
        law_insertion_goes_by_the_middles(placements, x, i + 1);
    }
    assert forall|j: int| 0 <= j < placements.len() implies about(
        2 * sum(placements[j].x, half(placements[j].width)).val(),
        2 * (#[trigger] placements[j]).x.val() + placements[j].width.val(),
        2,
    ) by {
        lemma_middle_near(placements[j].x, placements[j].width);
    }
}

/// Whether a placement's middle, as it is computed, lies behind a position.
pub open spec fn middle_is_behind(p: Placement, x: Double) -> bool {
    lt(x, sum(p.x, half(p.width)))
}

/// A dropped screenshot ends up right before the one that it was dropped
/// before.
pub proof fn law_dropped_screenshots_land_where_they_were_dropped<T>(items: Seq<T>, from: usize, insertion: usize)
    requires
        from < items.len(),
        insertion <= items.len() <= usize::MAX,
    ensures
        ({
            let to = position_among_others(from, insertion);
            let after = items.remove(from as int).insert(to as int, items[from as int]);
            &&& to < items.len()
            &&& after[to as int] == items[from as int]
            &&& insertion < items.len() && insertion != from ==> after[to + 1] == items[insertion as int] || insertion
                == from + 1
            &&& insertion == items.len() ==> to == items.len() - 1
            &&& insertion == from || insertion == from + 1 ==> after =~= items
        }),
{
}

/// Whether a coordinate has moved from `origin` by as much as another one from
/// `start` to `now`, up to rounding.
pub open spec fn follows(new: Double, origin: Double, now: Double, start: Double) -> bool {
    0x4_0000_0000_0000 * gap(new.val() - origin.val(), now.val() - start.val()) <= gap(origin.val(), 0) + gap(
        now.val() - start.val(),
        0,
    )
}

/// A move takes a screenshot as far as the pointer goes.
pub proof fn law_moves_follow_the_pointer(origin: Double, now: Double, start: Double)
    requires
        origin.finite(),
        now.finite(),
        start.finite(),
        diff(now, start).finite(),
        dragged(origin, now, start).finite(),
    ensures
        follows(dragged(origin, now, start), origin, now, start),
{
    lemma_diff_near(now, start);
    lemma_sum_near(origin, diff(now, start));
}

/// While a screenshot is moved it is shown where the drag takes it: its own
/// corner goes as far as the pointer went in the document.
pub proof fn law_moved_screenshots_follow_the_pointer(
    v: CanvasView,
    width: i32,
    height: i32,
    x: Double,
    y: Double,
    i: usize,
)
    requires
        v.drag.resizing is None,
        v.drag.from == Some(i),
        i < v.document.elements.len(),
        v.drag.moving matches Some(m) && (document_point(v, width, height, x, y) matches Some(at) && {
            &&& m.origin.x.finite() && m.origin.y.finite() && m.start.x.finite() && m.start.y.finite()
            &&& at.x.finite() && at.y.finite()
            &&& diff(at.x, m.start.x).finite() && diff(at.y, m.start.y).finite()
            &&& dragged(m.origin.x, at.x, m.start.x).finite() && dragged(m.origin.y, at.y, m.start.y).finite()
        }),
    ensures
        ({
            let t = updated(v, width, height, x, y).0.document.elements[i as int].transform;
            let (m, at) = (v.drag.moving->0, document_point(v, width, height, x, y)->0);
            &&& follows(t.x, m.origin.x, at.x, m.start.x)
            &&& follows(t.y, m.origin.y, at.y, m.start.y)
            &&& t.width == v.document.elements[i as int].transform.width
            &&& t.height == v.document.elements[i as int].transform.height
        }),
{
    let (m, at) = (v.drag.moving->0, document_point(v, width, height, x, y)->0);
    law_moves_follow_the_pointer(m.origin.x, at.x, m.start.x);
    law_moves_follow_the_pointer(m.origin.y, at.y, m.start.y);
}

/// A drag that is finished stands for what was shown last: the outcome of
/// ending it at a point is the transform, or the place, that the point showed.
pub proof fn law_outcome_is_what_was_shown(v: CanvasView, width: i32, height: i32, x: Double, y: Double)
    ensures
        ended(v, width, height, x, y).1 matches Some(DragOutcome::Resize { index, transform }) ==> index
            < v.document.elements.len() ==> updated(v, width, height, x, y).0.document.elements[index as int].transform
            == transform,
        ended(v, width, height, x, y).1 matches Some(DragOutcome::Move { index, x: nx, y: ny }) ==> index
            < v.document.elements.len() ==> {
            let t = updated(v, width, height, x, y).0.document.elements[index as int].transform;
            t.x == nx && t.y == ny
        },
{
}

/// A preview that is fitted shows the whole document, as large as the widget
/// has room: scaled, neither side is longer than the widget's, and one is as
/// long. Only a document a thousand times too large is cut off.
pub proof fn law_fitted_preview_fills_the_widget(doc_w: u32, doc_h: u32, width: i32, height: i32)
    requires
        doc_w > 0,
        doc_h > 0,
        width > 0,
        height > 0,
    ensures
        ({
            let s = preview_scale(None, int_double(doc_w as int), int_double(doc_h as int), width, height);
            let u = one_unit() as int;
            &&& s.finite() && s.val() > 0
            &&& s == ratio(1, 1000) || {
                &&& 0x4_0000_0000_0000 * (s.val() * doc_w - width * u) <= width * u + 0x4_0000_0000_0000 * doc_w
                &&& 0x4_0000_0000_0000 * (s.val() * doc_h - height * u) <= height * u + 0x4_0000_0000_0000 * doc_h
                &&& about(s.val() * doc_w, width * u, doc_w as int) || about(s.val() * doc_h, height * u, doc_h as int)
            }
        }),
{
    let (a, b) = (int_double(width as int), int_double(height as int));
    let u = one_unit() as int;
    lemma_pow2_pos(UNIT_EXP as nat);
    lemma_int_double_exact(width as int);
    lemma_int_double_exact(height as int);
    lemma_quot_by_int(a, doc_w as int);
    lemma_quot_by_int(b, doc_h as int);
    lemma_fraction(1, 1000);
    assert(width * u > 0 && height * u > 0) by (nonlinear_arith)
        requires
            width > 0,
            height > 0,
            u > 0,
    ;
    let (p, q) = (quot(a, int_double(doc_w as int)), quot(b, int_double(doc_h as int)));
    let s = smaller(p, q);
    assert(s.val() * doc_w <= p.val() * doc_w && s.val() * doc_h <= q.val() * doc_h) by (nonlinear_arith)
        requires
            s.val() <= p.val(),
            s.val() <= q.val(),
            doc_w > 0,
            doc_h > 0,
    ;
}

/// A fixed zoom is the scale, down to a hundredth.
pub proof fn law_zoom_is_the_scale(zoom: Double, doc_w: Double, doc_h: Double, width: i32, height: i32)
    requires
        le(ratio(1, 100), zoom),
    ensures
        preview_scale(Some(zoom), doc_w, doc_h, width, height) == zoom || preview_scale(
            Some(zoom),
            doc_w,
            doc_h,
            width,
            height,
        ).val() == zoom.val(),
{
}

/// A rendering is as many pixels large as the document is at the scale, rounded
/// to whole ones, and one at least.
#[verifier::rlimit(50)]
pub proof fn law_renderings_have_the_scaled_size(side: u32, scale: Double)
    requires
        scale.finite(),
        scale.val() > 0,
        prod(int_double(side as int), scale).finite(),
        side * scale.val() <= 0x4000_0000 * one_unit(),
    ensures
        has_scaled_size(pixels_at(side, scale) as int, side, scale),
{
    let (u, exact) = (one_unit() as int, side * scale.val());
    let p = prod(int_double(side as int), scale);
    lemma_pow2_pos(UNIT_EXP as nat);
    lemma_int_double_exact(side as int);
    lemma_prod_near(int_double(side as int), scale);
    assert((side * u) * scale.val() == exact * u && exact >= 0) by (nonlinear_arith)
        requires
            exact == side * scale.val(),
            scale.val() > 0,
            side >= 0,
    ;
    lemma_gap_scales(p.val(), exact, u);
    lemma_gap_of_product(exact, u);
    assert(0x20_0000_0000_0000 * gap(p.val(), exact) <= gap(exact, 0) + 0x10_0000_0000_0000) by (nonlinear_arith)
        requires
            0x20_0000_0000_0000 * (gap(p.val(), exact) * u) <= gap(exact, 0) * u + 0x10_0000_0000_0000 * u,
            u > 0,
    ;
    lemma_nearest_pixels(p);
    let n = whole(p, Rounding::Nearest);
    assert(n * u <= 0x4000_0001 * u) by {
        lemma2_to64();
        lemma2_to64_rest();
        crate::rounding::lemma_pow2_le(64, UNIT_EXP as nat);
        assert(0x4000_0001 * u == 0x4000_0000 * u + u) by (nonlinear_arith);
    }
    assert(n <= 0x4000_0001) by (nonlinear_arith)
        requires
            n * u <= 0x4000_0001 * u,
            u > 0,
    ;
}

pub proof fn lemma_nearest_pixels(a: Double)
    requires
        a.finite(),
        !a.neg(),
    ensures
        ({
            let (n, u) = (whole(a, Rounding::Nearest), one_unit() as int);
            n >= 0 && 2 * gap(n * u, a.val()) <= u
        }),
{
    let (u, m) = (one_unit() as int, a.mag() as int);
    lemma_pow2_pos(UNIT_EXP as nat);
    lemma_fundamental_div_mod(m, u);
    lemma_mod_bound(m, u);
    lemma_div_pos_is_pos(m, u);
    let w = m / u;
    assert(u * w == w * u && (w + 1) * u == w * u + u) by (nonlinear_arith);
}

/// One step closer shows everything a quarter larger, and one step away takes it
/// back, within the range of the zoom.
#[verifier::rlimit(50)]
pub proof fn law_zoom_steps_by_a_quarter(z: Double)
    requires
        le(ratio(1, 10), z),
        le(z, int_double(8)),
    ensures
        zoomed_in(Some(z)) == int_double(8) || about(4 * zoomed_in(Some(z)).val(), 5 * z.val(), 8),
        zoomed_out(Some(z)) == ratio(1, 10) || about(5 * zoomed_out(Some(z)).val(), 4 * z.val(), 8),
        zoomed_in(None) == zoomed_in(Some(int_double(1))),
        zoomed_out(None) == zoomed_out(Some(int_double(1))),
{
    let u = one_unit() as int;
    let step = ratio(5, 4);
    lemma2_to64();
    lemma2_to64_rest();
    crate::rounding::lemma_pow2_le(64, UNIT_EXP as nat);
    lemma_int_double_exact(8);
    lemma_fraction(1, 10);
    lemma_mag_ordered(z.low(), int_double(8).low());
    lemma_five_quarters();
    lemma_small_product(z, step);
    lemma_prod_near(z, step);
    let (m, s) = (z.val(), step.val());
    let (p, q) = (prod(z, step), quot(z, step));
    // In quarters of a unit.
    assert(4 * s == 5 * u);
    assert(4 * (m * s) == (5 * m) * u) by (nonlinear_arith)
        requires
            4 * s == 5 * u,
    ;
    lemma_gap_scales(4 * p.val(), 5 * m, u);
    lemma_gap_of_product(5 * m, u);
    let g = gap(4 * p.val(), 5 * m);
    assert(4 * (p.val() * u) == (4 * p.val()) * u) by (nonlinear_arith);
    assert(0x20_0000_0000_0000 * g <= gap(5 * m, 0) + 0x40_0000_0000_0000) by (nonlinear_arith)
        requires
            0x20_0000_0000_0000 * (g * u) <= gap(5 * m, 0) * u + 0x40_0000_0000_0000 * u,
            u > 0,
    ;
    lemma_quot_shrinks(z, step);
    lemma_quot_near(z, step);
    let h = gap(5 * q.val(), 4 * m);
    assert(4 * (q.val() * s) == (5 * q.val()) * u && 4 * (m * u) == (4 * m) * u) by (nonlinear_arith)
        requires
            4 * s == 5 * u,
    ;
    lemma_gap_scales(5 * q.val(), 4 * m, u);
    assert(m * u >= 0) by (nonlinear_arith)
        requires
            m >= 0,
            u > 0,
    ;
    assert(0x20_0000_0000_0000 * h <= 4 * m + 0x50_0000_0000_0000) by (nonlinear_arith)
        requires
            0x20_0000_0000_0000 * (h * u) <= (4 * m) * u + 0x50_0000_0000_0000 * u,
            u > 0,
    ;
}

/// Five quarters are a double.
proof fn lemma_five_quarters()
    ensures
        ratio(5, 4).finite(),
        !ratio(5, 4).neg(),
        4 * ratio(5, 4).val() == 5 * one_unit(),
{
    let u = one_unit();
    let x = (UNIT_EXP - 2) as nat;
    lemma_int_double_exact(5);
    lemma_int_double_exact(4);
    lemma_pow2_pos(UNIT_EXP as nat);
    lemma_pow2_adds(x, 2);
    lemma2_to64();
    lemma_short_is_double(5, x);
    let k = 5 * pow2(x);
    assert(4 * k == 5 * u) by (nonlinear_arith)
        requires
            k == 5 * pow2(x),
            u == pow2(x) * 4,
    ;
    assert((5 * u) * u == k * (4 * u)) by (nonlinear_arith)
        requires
            4 * k == 5 * u,
    ;
    lemma_round_scale(k as nat, 1, (4 * u) as nat);
    assert(ratio(5, 4) == signed(false, round_low(k as nat, 1))) by {
        reveal(quot);
    }
}

/// Dividing by one or more leaves no more than there was.
pub proof fn lemma_quot_shrinks(a: Double, b: Double)
    requires
        a.finite(),
        b.finite(),
        b.mag() >= one_unit(),
    ensures
        quot(a, b).finite(),
        quot(a, b).mag() <= a.mag(),
{
    let (u, m, d) = (one_unit(), a.mag(), b.mag());
    lemma_pow2_pos(UNIT_EXP as nat);
    assert((m * u) * 1 <= m * d) by (nonlinear_arith)
        requires
            d >= u,
    ;
    lemma_round_monotone(m * u, d, m, 1);
    lemma_round_exact(a.low());
    lemma_round_zero(d);
    lemma_mag_ordered(0, a.low());
    lemma_mag_ordered(round_low(m * u, d), a.low());
    assert(m == 0 ==> m * u == 0) by (nonlinear_arith);
    assert(quot(a, b) == signed(a.neg() != b.neg(), round_low(m * u, d))) by {
        reveal(quot);
    }
}

/// A handle's square is drawn around its corner: as much to the left of it as
/// to the right, and as much above as below.
pub proof fn law_handles_are_drawn_around_the_corners(p: Placement, corner: Corner, offset: Point, scale: Double)
    requires
        ({
            let c = corner_point(p, corner);
            let (x, y) = (drawn_at(offset.x, c.x, scale), drawn_at(offset.y, c.y, scale));
            x.finite() && y.finite() && handle_square(p, corner, offset, scale).x.finite() && handle_square(
                p,
                corner,
                offset,
                scale,
            ).y.finite()
        }),
    ensures
        ({
            let (c, s) = (corner_point(p, corner), handle_square(p, corner, offset, scale));
            let (x, y) = (drawn_at(offset.x, c.x, scale).val(), drawn_at(offset.y, c.y, scale).val());
            &&& s.side.val() > 0
            &&& 0x4_0000_0000_0000 * gap(2 * s.x.val() + s.side.val(), 2 * x) <= gap(s.x.val(), 0)
            &&& 0x4_0000_0000_0000 * gap(2 * s.y.val() + s.side.val(), 2 * y) <= gap(s.y.val(), 0)
        }),
{
    let c = corner_point(p, corner);
    let h = int_double(HANDLE_DRAW_HALF_PX as int);
    lemma_pow2_pos(UNIT_EXP as nat);
    lemma_int_double_exact(HANDLE_DRAW_HALF_PX as int);
    lemma_int_double_exact(2 * HANDLE_DRAW_HALF_PX);
    lemma_exact_product(HANDLE_DRAW_HALF_PX as int, 2);
    lemma_diff_near(drawn_at(offset.x, c.x, scale), h);
    lemma_diff_near(drawn_at(offset.y, c.y, scale), h);
}

/// The line of a reorder stands where the screenshot would go: at the left edge
/// of the one that it is put before, or at the right edge of the last.
pub proof fn law_line_stands_where_the_screenshot_goes(placements: Seq<Placement>, x: Double)
    requires
        0 < placements.len() <= usize::MAX,
    ensures
        ({
            let at = hover_position(placements, insertion_from(placements, x, 0));
            ||| exists|k: int|
                0 <= k < placements.len() && at == (#[trigger] placements[k]).x && middle_is_behind(placements[k], x)
                    && forall|j: int| 0 <= j < k ==> !middle_is_behind(#[trigger] placements[j], x)
            ||| at == sum(placements.last().x, placements.last().width) && forall|j: int|
                0 <= j < placements.len() ==> !middle_is_behind(#[trigger] placements[j], x)
        }),
{
    lemma_insertion(placements, x, 0);
    let k = insertion_from(placements, x, 0);
    if k < placements.len() {
        assert(hover_position(placements, k) == placements[k as int].x);
    }
}

proof fn lemma_insertion(placements: Seq<Placement>, x: Double, i: nat)
    requires
        i <= placements.len() <= usize::MAX,
    ensures
        ({
            let k = insertion_from(placements, x, i);
            &&& i <= k <= placements.len()
            &&& forall|j: int| i <= j < k ==> !middle_is_behind(#[trigger] placements[j], x)
            &&& k < placements.len() ==> middle_is_behind(placements[k as int], x)
        }),
    decreases placements.len() - i,
{
    if i < placements.len() && !middle_is_behind(placements[i as int], x) {
        lemma_insertion(placements, x, i + 1);
    }
}

/// A rendering shows the whole document: its width is the document's at the
/// scale and its height the document's, each to the nearest pixel, and the scale
/// is the one that the zoom asks for in the widget.
pub proof fn law_renderings_show_the_document(v: CanvasView, width: i32, height: i32)
    requires
        wanted_rendering(v, width, height) matches Some(r) ==> r.scale.finite() && r.scale.val() > 0 && prod(
            int_double(v.document.canvas.export_width as int),
            r.scale,
        ).finite() && prod(int_double(v.document.canvas.export_height as int), r.scale).finite()
            && v.document.canvas.export_width * r.scale.val() <= 0x4000_0000 * one_unit()
            && v.document.canvas.export_height * r.scale.val() <= 0x4000_0000 * one_unit(),
    ensures
        wanted_rendering(v, width, height) matches Some(r) ==> {
            let (w, h) = (v.document.canvas.export_width, v.document.canvas.export_height);
            &&& r.scale == preview_scale(v.zoom, int_double(w as int), int_double(h as int), width, height)
            &&& has_scaled_size(r.width as int, w, r.scale)
            &&& has_scaled_size(r.height as int, h, r.scale)
        },
{
    if let Some(r) = wanted_rendering(v, width, height) {
        law_renderings_have_the_scaled_size(v.document.canvas.export_width, r.scale);
        law_renderings_have_the_scaled_size(v.document.canvas.export_height, r.scale);
    }
}

/// Whether a number of pixels is a side at a scale, to the nearest one, and one
/// at least.
pub open spec fn has_scaled_size(n: int, side: u32, scale: Double) -> bool {
    let (u, exact) = (one_unit() as int, side * scale.val());
    &&& n >= 1
    &&& n == 1 || 0x4_0000_0000_0000 * (2 * gap(n * u, exact) - u) <= 2 * exact + 0x4_0000_0000_0000 * 2
}

} // verus!
