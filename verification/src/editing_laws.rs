//! What editing promises: the entries of a screenshot's menu do what they say, a
//! box that snaps meets what it snaps to, and a shadow is cast where it points.
use crate::arith_laws::{lemma_int_double_exact, lemma_round_is_near};
use crate::color_laws::{lemma_large_unit, lemma_pi_moderate};
use crate::command::{inserted_at, shifted, with_transform, Edit};
use crate::controls::{from_percent, to_percent};
use crate::double::{diff, one_unit, prod, quot, signed, sum, Double, UNIT_EXP};
use crate::editor::{distinct_ids, latest, lemma_first_of_distinct, quality_of, EditorView};
use crate::editor::effects::recast;
use crate::editor::elements::{
    action_applies, action_done, order_set, quarter_on, renamed, transform_set, ElementAction,
};
use crate::generator::half;
use crate::model::{ShadowParams, Transform};
use crate::model::document::ScreenshotElementView;
use crate::model::geometry::{offset_along, pi, turn_degrees};
use crate::near_laws::{
    about, lemma_diff_near, lemma_gap_of_product, lemma_gap_scales, lemma_middle_near, lemma_prod_by_int,
    lemma_prod_near, lemma_quot_by_int, lemma_quot_near, lemma_sum_near, lemma_times_one, lemma_times_zero,
};
use crate::order::magnitude;
use crate::palette_laws::{lemma_small_product, lemma_small_sum};
use crate::pointer_laws::{follows, lemma_nearest_pixels, lemma_quot_shrinks};
use crate::preset_laws::gap;
use crate::shadow_cache::quantized;
use crate::snap::{features, snapped_start, targets, Rect};
use crate::whole::{int_double, whole, Rounding};
use vstd::arithmetic::power2::*;
use vstd::prelude::*;

verus! {

/// What an entry of the menu leaves: one screenshot less, or one more behind
/// the one that was copied, or the same ones with two neighbours exchanged, or
/// with one moved to an end, or with one turned or flipped. All others stay as
/// they are, in their order.
pub open spec fn is_outcome(action: ElementAction, k: int, before: EditorView, after: EditorView) -> bool {
    let (old, new) = (before.document.elements, after.document.elements);
    let (t, r) = (old[k].transform, new[k].transform);
    match action {
        ElementAction::Delete => {
            &&& new.len() == old.len() - 1
            &&& forall|i: int| 0 <= i < k ==> new[i] == old[i]
            &&& forall|i: int| k <= i < new.len() ==> new[i] == old[i + 1]
        },
        ElementAction::Duplicate => {
            &&& new.len() == old.len() + 1
            &&& forall|i: int| 0 <= i <= k ==> new[i] == old[i]
            &&& new[k + 1] == renamed(old[k], new[k + 1].id)
            &&& forall|i: int| k + 1 < i < new.len() ==> new[i] == old[i - 1]
        },
        ElementAction::BringForward => {
            &&& new.len() == old.len()
            &&& new[k - 1] == old[k]
            &&& new[k] == old[k - 1]
            &&& forall|i: int| 0 <= i < old.len() && i != k && i != k - 1 ==> new[i] == old[i]
        },
        ElementAction::SendBackward => {
            &&& new.len() == old.len()
            &&& new[k + 1] == old[k]
            &&& new[k] == old[k + 1]
            &&& forall|i: int| 0 <= i < old.len() && i != k && i != k + 1 ==> new[i] == old[i]
        },
        ElementAction::BringToFront => {
            &&& new.len() == old.len()
            &&& new[0] == old[k]
            &&& forall|i: int| 0 < i <= k ==> new[i] == old[i - 1]
            &&& forall|i: int| k < i < old.len() ==> new[i] == old[i]
        },
        ElementAction::SendToBack => {
            &&& new.len() == old.len()
            &&& new.last() == old[k]
            &&& forall|i: int| 0 <= i < k ==> new[i] == old[i]
            &&& forall|i: int| k <= i < old.len() - 1 ==> new[i] == old[i + 1]
        },
        ElementAction::Rotate | ElementAction::FlipHorizontal | ElementAction::FlipVertical => {
            &&& new.len() == old.len()
            &&& forall|i: int| 0 <= i < old.len() && i != k ==> new[i] == old[i]
            &&& r == Transform {
                rotation_deg: r.rotation_deg,
                flip_horizontal: r.flip_horizontal,
                flip_vertical: r.flip_vertical,
                ..t
            }
            &&& r.flip_horizontal == (t.flip_horizontal != (action == ElementAction::FlipHorizontal))
            &&& r.flip_vertical == (t.flip_vertical != (action == ElementAction::FlipVertical))
            &&& action != ElementAction::Rotate ==> r.rotation_deg == t.rotation_deg
            &&& action == ElementAction::Rotate ==> r.rotation_deg == quarter_on(t.rotation_deg)
        },
    }
}

proof fn lemma_reordered(old: Seq<ScreenshotElementView>, from: int, to: int)
    requires
        0 <= from < old.len(),
        0 <= to < old.len(),
    ensures
        ({
            let new = shifted(old, from as nat, to as nat);
            &&& new.len() == old.len()
            &&& new[to] == old[from]
            &&& forall|i: int| 0 <= i < old.len() && i < from && i < to ==> new[i] == old[i]
            &&& forall|i: int| 0 <= i < old.len() && i > from && i > to ==> new[i] == old[i]
            &&& forall|i: int| from <= i < to ==> new[i] == old[i + 1]
            &&& forall|i: int| to < i <= from ==> new[i] == old[i - 1]
        }),
{
}

proof fn lemma_order_outcome(k: int, to: int, before: EditorView, after: EditorView)
    requires
        0 <= k < before.document.elements.len(),
        0 <= to < before.document.elements.len() < usize::MAX,
        order_set(before, after, k, to),
    ensures
        after.document.elements == shifted(before.document.elements, k as nat, to as nat),
{
}

proof fn lemma_transform_outcome(k: int, before: EditorView, after: EditorView, new: Transform)
    requires
        0 <= k < before.document.elements.len(),
        distinct_ids(before.document.elements),
        transform_set(before, after, k, new),
    ensures
        after.document.elements == before.document.elements.update(
            k,
            with_transform(before.document.elements[k], new),
        ),
{
    lemma_first_of_distinct(before.document.elements, k);
}

/// The entries of a screenshot's menu do what they say.
#[verifier::rlimit(50)]
pub proof fn law_menu_entries_do_what_they_say(action: ElementAction, k: int, before: EditorView, after: EditorView)
    requires
        action_applies(action, k, before.document.elements.len() as int),
        before.document.elements.len() < usize::MAX,
        distinct_ids(before.document.elements),
        action_done(action, k, before, after),
    ensures
        is_outcome(action, k, before, after),
{
    match action {
        ElementAction::Delete => lemma_deleted(k, before, after),
        ElementAction::Duplicate => lemma_copied(k, before, after),
        ElementAction::BringForward => lemma_exchanged(action, k, k - 1, before, after),
        ElementAction::SendBackward => lemma_exchanged(action, k, k + 1, before, after),
        ElementAction::BringToFront => lemma_sent_to_an_end(action, k, 0, before, after),
        ElementAction::SendToBack => lemma_sent_to_an_end(
            action,
            k,
            before.document.elements.len() - 1,
            before,
            after,
        ),
        _ => lemma_transformed(action, k, before, after),
    }
}

proof fn lemma_deleted(k: int, before: EditorView, after: EditorView)
    requires
        0 <= k < before.document.elements.len() < usize::MAX,
        action_done(ElementAction::Delete, k, before, after),
    ensures
        is_outcome(ElementAction::Delete, k, before, after),
{
    assert(after.document.elements == before.document.elements.remove(k));
}

proof fn lemma_exchanged(action: ElementAction, k: int, to: int, before: EditorView, after: EditorView)
    requires
        0 <= k < before.document.elements.len() < usize::MAX,
        0 <= to < before.document.elements.len(),
        action == ElementAction::BringForward && to == k - 1 || action == ElementAction::SendBackward && to == k + 1,
        action_done(action, k, before, after),
    ensures
        is_outcome(action, k, before, after),
{
    lemma_order_outcome(k, to, before, after);
    lemma_reordered(before.document.elements, k, to);
}

proof fn lemma_sent_to_an_end(action: ElementAction, k: int, to: int, before: EditorView, after: EditorView)
    requires
        0 <= k < before.document.elements.len() < usize::MAX,
        action == ElementAction::BringToFront && to == 0 || action == ElementAction::SendToBack && to
            == before.document.elements.len() - 1,
        action_done(action, k, before, after),
    ensures
        is_outcome(action, k, before, after),
{
    lemma_order_outcome(k, to, before, after);
    lemma_reordered(before.document.elements, k, to);
}

#[verifier::rlimit(50)]
proof fn lemma_transformed(action: ElementAction, k: int, before: EditorView, after: EditorView)
    requires
        0 <= k < before.document.elements.len() < usize::MAX,
        distinct_ids(before.document.elements),
        action == ElementAction::Rotate || action == ElementAction::FlipHorizontal || action
            == ElementAction::FlipVertical,
        action_done(action, k, before, after),
    ensures
        is_outcome(action, k, before, after),
{
    let t = before.document.elements[k].transform;
    if action == ElementAction::Rotate {
        lemma_transform_outcome(k, before, after, (Transform { rotation_deg: quarter_on(t.rotation_deg), ..t }));
    } else if action == ElementAction::FlipHorizontal {
        lemma_transform_outcome(k, before, after, (Transform { flip_horizontal: !t.flip_horizontal, ..t }));
    } else {
        lemma_transform_outcome(k, before, after, (Transform { flip_vertical: !t.flip_vertical, ..t }));
    }
}

#[verifier::rlimit(50)]
proof fn lemma_copied(k: int, before: EditorView, after: EditorView)
    requires
        0 <= k < before.document.elements.len() < usize::MAX,
        action_done(ElementAction::Duplicate, k, before, after),
    ensures
        is_outcome(ElementAction::Duplicate, k, before, after),
{
    let old = before.document.elements;
    match latest(after) {
        Edit::DuplicateScreenshot(c) => {
            assert(after.document.elements == inserted_at(old, (k + 1) as nat, c.duplicate@));
        },
        _ => {},
    }
}

/// A quarter turn takes an angle within the full turn on by ninety degrees, up
/// to rounding, past the full turn from zero on.
pub proof fn law_rotation_turns_by_a_quarter(angle: Double)
    requires
        angle.finite(),
        0 <= angle.val() < 360 * one_unit(),
    ensures
        ({
            let (r, u) = (quarter_on(angle), one_unit() as int);
            &&& r.finite()
            &&& 0x4_0000_0000_0000 * gap(r.val(), angle.val() + 90 * u) <= 450 * u || 0x4_0000_0000_0000 * gap(
                r.val(),
                angle.val() - 270 * u,
            ) <= 450 * u
            &&& 0 <= r.val() <= 360 * u
        }),
{
    let u = one_unit() as int;
    lemma_pow2_pos(UNIT_EXP as nat);
    lemma_int_double_exact(90);
    lemma_int_double_exact(360);
    let s = sum(angle, int_double(90));
    crate::palette_laws::lemma_small_sum(angle, int_double(90));
    lemma_sum_near(angle, int_double(90));
    lemma_remainder_near(s, int_double(360));
    let n = s.mag() as int;
    let full = 360 * u;
    if n < full {
        vstd::arithmetic::div_mod::lemma_small_mod(n as nat, full as nat);
    } else {
        assert(n - full < full);
        vstd::arithmetic::div_mod::lemma_fundamental_div_mod_converse(n, full, 1, n - full);
    }
}

/// The remainder of a number that is not negative, up to rounding.
proof fn lemma_remainder_near(a: Double, b: Double)
    requires
        a.finite(),
        b.finite(),
        !b.neg(),
        b.val() > 0,
        a.val() > 0,
    ensures
        ({
            let (r, m) = (crate::root::remainder(a, b), (a.mag() % b.mag()) as int);
            &&& r.finite()
            &&& 0 <= r.val() <= b.val()
            &&& 0x20_0000_0000_0000 * gap(r.val(), m) <= m
        }),
{
    let m = a.mag() % b.mag();
    let r = crate::root::remainder(a, b);
    let low = crate::rounding::round_low(m, 1);
    vstd::arithmetic::div_mod::lemma_mod_bound(a.mag() as int, b.mag() as int);
    crate::arith_laws::lemma_round_monotone(m, 1, b.mag(), 1);
    crate::arith_laws::lemma_round_exact(b.low());
    crate::double::lemma_mag_ordered(low, b.low());
    assert(r == signed(false, low)) by {
        reveal(crate::root::remainder);
    }
    lemma_round_is_near(m, 1);
    lemma2_to64();
    assert(m / 1 == m);
    if crate::rounding::excess(m) == 0 {
        assert(pow2(0) == 1);
    }
}

/// A box that snaps meets what it snaps to: it moves as far as its edge or its
/// middle was from the target, so that the one comes to lie on the other.
pub proof fn law_snapped_boxes_meet_the_target(start: Double, feature: Double, target: Double)
    requires
        start.finite(),
        feature.finite(),
        target.finite(),
        diff(target, feature).finite(),
        snapped_start(start, Some((feature, target))).finite(),
    ensures
        follows(snapped_start(start, Some((feature, target))), start, target, feature),
{
    lemma_diff_near(target, feature);
    lemma_sum_near(start, diff(target, feature));
}

/// A box snaps by its two edges and by its middle.
pub proof fn law_boxes_snap_by_edges_and_middle(start: Double, extent: Double)
    requires
        start.finite(),
        extent.finite(),
        sum(start, extent).finite(),
        sum(start, half(extent)).finite(),
    ensures
        ({
            let f = features(start, extent);
            let (s, e) = (start.val(), extent.val());
            &&& f.len() == 3
            &&& f[0] == start
            &&& 0x20_0000_0000_0000 * gap(f[1].val(), s + e) <= gap(s + e, 0)
            &&& about(2 * f[2].val(), 2 * s + e, 2)
        }),
{
    lemma_sum_near(start, extent);
    lemma_middle_near(start, extent);
}

/// A box snaps to the edges and the middle of the canvas, and to those of every
/// other box.
pub proof fn law_boxes_snap_to_the_canvas_and_the_others(others: Seq<Rect>, extent: Double, across: bool, i: int, f: int)
    ensures
        targets(others, extent, across).contains(int_double(0)),
        targets(others, extent, across).contains(extent),
        targets(others, extent, across).contains(half(extent)),
        targets(others, extent, across).len() == 3 * others.len() + 3,
        0 <= i < others.len() && 0 <= f < 3 ==> targets(others, extent, across).contains(
            features(
                if across {
                    others[i].x
                } else {
                    others[i].y
                },
                if across {
                    others[i].width
                } else {
                    others[i].height
                },
            )[f],
        ),
    decreases others.len(),
{
    let all = targets(others, extent, across);
    if others.len() == 0 {
        assert(all[0] == int_double(0) && all[1] == extent && all[2] == half(extent));
    } else {
        let (rest, o) = (others.drop_last(), others.last());
        let before = targets(rest, extent, across);
        let more = if across {
            features(o.x, o.width)
        } else {
            features(o.y, o.height)
        };
        law_boxes_snap_to_the_canvas_and_the_others(rest, extent, across, i, f);
        assert(all == before + more);
        assert forall|t: Double| before.contains(t) implies all.contains(t) by {
            let k = choose|k: int| 0 <= k < before.len() && before[k] == t;
            assert(all[k] == t);
        }
        if 0 <= i < others.len() && 0 <= f < 3 {
            if i == others.len() - 1 {
                assert(all[before.len() + f] == more[f]);
            } else {
                assert(rest[i] == others[i]);
            }
        }
    }
}

/// How far a feature is from a target does not depend on the side.
pub proof fn law_snap_measures_the_distance(feature: Double, target: Double)
    requires
        feature.finite(),
        target.finite(),
        diff(feature, target).finite(),
    ensures
        ({
            let (d, exact) = (crate::snap::gap(feature, target), gap(feature.val(), target.val()));
            &&& d.val() >= 0
            &&& 0x20_0000_0000_0000 * gap(d.val(), exact) <= exact
        }),
{
    lemma_diff_near(feature, target);
    let d = diff(feature, target);
    assert(magnitude(d).val() == d.mag());
}

/// A shadow is cast in the direction of its angle: its offset is the distance
/// times the cosine to the right and times the sine down. Straight to the right
/// it lies beside the box and straight down below it, as far as the distance.
pub proof fn law_shadows_are_cast_along_the_angle(shadow: ShadowParams, cosine: Double, sine: Double, distance: Double, blur: Double)
    requires
        cosine.finite(),
        sine.finite(),
        distance.finite(),
        prod(distance, cosine).finite(),
        prod(distance, sine).finite(),
    ensures
        ({
            let (x, y) = offset_along(cosine, sine, distance);
            let r = recast(shadow, cosine, sine, distance, blur);
            let u = one_unit() as int;
            &&& about(x.val() * u, distance.val() * cosine.val(), u)
            &&& about(y.val() * u, distance.val() * sine.val(), u)
            &&& cosine == int_double(1) && sine.val() == 0 ==> x == distance && y.val() == 0
            &&& cosine.val() == 0 && sine == int_double(1) ==> x.val() == 0 && y == distance
            &&& r.offset_x == x && r.offset_y == y && r.blur == blur
            &&& r.enabled == shadow.enabled && r.opacity == shadow.opacity && r.color == shadow.color
        }),
{
    lemma_pow2_pos(UNIT_EXP as nat);
    lemma_prod_near(distance, cosine);
    lemma_prod_near(distance, sine);
    lemma_times_one(distance);
    if sine.val() == 0 {
        lemma_times_zero(distance, sine);
    }
    if cosine.val() == 0 {
        lemma_times_zero(distance, cosine);
    }
}

/// A percentage is a hundred times the fraction that it stands for.
pub proof fn law_percentages_are_hundredths(v: Double)
    requires
        v.finite(),
    ensures
        from_percent(v).finite(),
        about(100 * from_percent(v).val(), v.val(), 100),
        to_percent(v).finite() ==> about(to_percent(v).val(), 100 * v.val(), 1),
{
    lemma_quot_by_int(v, 100);
    if to_percent(v).finite() {
        lemma_prod_by_int(v, 100);
    }
}

/// A quality is the nearest whole percentage, from one to a hundred.
pub proof fn law_quality_is_the_nearest_percentage(v: Double)
    requires
        v.finite(),
        !v.neg(),
    ensures
        1 <= quality_of(v) <= 100,
        one_unit() <= v.val() <= 100 * one_unit() ==> 2 * gap(quality_of(v) * one_unit(), v.val()) <= one_unit(),
        v.val() >= 100 * one_unit() ==> quality_of(v) == 100,
        v.val() <= one_unit() ==> quality_of(v) == 1,
{
    let u = one_unit() as int;
    lemma_pow2_pos(UNIT_EXP as nat);
    lemma_nearest_pixels(v);
    let n = whole(v, Rounding::Nearest);
    let nu = n * u;
    if v.val() <= 100 * u {
        assert(n <= 100) by (nonlinear_arith)
            requires
                2 * (nu - 100 * u) <= u,
                nu == n * u,
                u > 0,
        ;
    }
    if v.val() >= 100 * u {
        assert(n >= 100) by (nonlinear_arith)
            requires
                2 * (100 * u - nu) <= u,
                nu == n * u,
                u > 0,
        ;
    }
    if v.val() <= u {
        assert(n <= 1) by (nonlinear_arith)
            requires
                2 * (nu - u) <= u,
                nu == n * u,
                u > 0,
        ;
    }
    if v.val() >= u {
        assert(n >= 1) by (nonlinear_arith)
            requires
                2 * (u - nu) <= u,
                nu == n * u,
                u > 0,
        ;
    }
}

/// What a shadow's bitmap is found by again is counted in whole units: the
/// number times the factor, to the nearest.
pub proof fn law_keys_count_whole_units(v: Double, factor: Double)
    requires
        v.finite(),
        factor.finite(),
        !v.neg(),
        !factor.neg(),
        prod(v, factor).finite(),
        prod(v, factor).val() <= 0x4000_0000 * one_unit(),
    ensures
        ({
            let (n, u) = (quantized(v, factor) as int, one_unit() as int);
            &&& n >= 0
            &&& 2 * gap(n * u, prod(v, factor).val()) <= u
            &&& about(prod(v, factor).val() * u, v.val() * factor.val(), u)
        }),
{
    let u = one_unit() as int;
    lemma_pow2_pos(UNIT_EXP as nat);
    lemma_prod_near(v, factor);
    let p = prod(v, factor);
    lemma_nearest_pixels(p);
    let n = whole(p, Rounding::Nearest);
    assert(n <= 0x4000_0001) by (nonlinear_arith)
        requires
            2 * (n * u - 0x4000_0000 * u) <= u,
            u > 0,
    ;
}

/// Whether a number of degrees is an angle in radians: as much of a half turn's
/// hundred and eighty degrees as the angle is of the circle's ratio.
pub open spec fn is_in_degrees(degrees: int, radians: int) -> bool {
    let u = one_unit() as int;
    0x1_0000_0000 * gap(degrees * pi().val(), 180 * (radians * u)) <= u * u
}

/// An angle in radians is given in degrees as it is where it is not negative,
/// and with a full turn added where it is; one so little below zero that it
/// comes to the full turn is none.
#[verifier::rlimit(50)]
pub proof fn law_degrees_measure_the_angle(angle: Double)
    requires
        angle.finite(),
        gap(angle.val(), 0) <= 4 * one_unit(),
    ensures
        ({
            let (d, u) = (turn_degrees(angle).val(), one_unit() as int);
            &&& angle.val() >= 0 ==> is_in_degrees(d, angle.val())
            &&& angle.val() < 0 ==> is_in_degrees(d - 360 * u, angle.val()) || d == 0 && is_in_degrees(0, angle.val())
        }),
{
    let u = one_unit() as int;
    lemma_large_unit();
    lemma_pi_moderate();
    lemma_int_double_exact(180);
    lemma_int_double_exact(360);
    lemma_int_double_exact(0);
    assert(0 * u == 0);
    let q = quot(int_double(180), pi());
    lemma_quot_shrinks(int_double(180), pi());
    lemma_quot_near(int_double(180), pi());
    lemma_small_product(angle, q);
    lemma_prod_near(angle, q);
    let t = prod(angle, q);
    let (av, tv, pv) = (angle.val(), t.val(), pi().val());
    lemma_degrees(av, q.val(), pv, tv, u);
    if av == 0 {
        lemma_times_zero(q, angle);
    }
    lemma_small_degrees(tv, av, pv, u);
    if tv < 0 {
        lemma_small_sum(t, int_double(360));
        lemma_sum_near(t, int_double(360));
        lemma_full_turn(tv, sum(t, int_double(360)).val() - 360 * u, av, pv, u);
    } else {
        lemma_full_turn(tv, tv, av, pv, u);
    }
}

proof fn lemma_small_degrees(t: int, a: int, p: int, u: int)
    requires
        u > 0,
        3 * u <= p,
        gap(a, 0) <= 4 * u,
        0x8_0000_0000 * gap(t * p, 180 * (a * u)) <= u * u,
    ensures
        gap(t, 0) <= 300 * u,
{
    let (g, uu, tp, au) = (gap(t, 0), u * u, t * p, a * u);
    lemma_gap_of_product(t, p);
    lemma_gap_of_product(a, u);
    assert(gap(a, 0) * u <= 4 * uu && uu > 0) by (nonlinear_arith)
        requires
            gap(a, 0) <= 4 * u,
            u > 0,
            uu == u * u,
    ;
    assert(gap(tp, 0) <= 180 * gap(au, 0) + gap(tp, 180 * au));
    assert(g <= 300 * u) by (nonlinear_arith)
        requires
            g * p <= 721 * uu,
            3 * u <= p,
            g >= 0,
            u > 0,
            uu == u * u,
    ;
}

/// A difference of a little in degrees changes nothing.
proof fn lemma_full_turn(t: int, r: int, a: int, p: int, u: int)
    requires
        u == one_unit(),
        p == pi().val(),
        u > 0,
        0 <= p <= 4 * u,
        0x20_0000_0000_0000 * gap(r, t) <= 1000 * u,
        0x8_0000_0000 * gap(t * p, 180 * (a * u)) <= u * u,
    ensures
        is_in_degrees(r, a),
{
    lemma_gap_scales(r, t, p);
    let (g, uu) = (gap(r, t), u * u);
    assert(0x20_0000_0000_0000 * (g * p) <= 4000 * uu) by (nonlinear_arith)
        requires
            0x20_0000_0000_0000 * g <= 1000 * u,
            0 <= p <= 4 * u,
            g >= 0,
            uu == u * u,
    ;
    assert(gap(r * p, 180 * (a * u)) <= gap(r * p, t * p) + gap(t * p, 180 * (a * u)));
}

/// The degrees of an angle, in whole numbers: `q` stands for 180 over `p`.
#[verifier::rlimit(50)]
proof fn lemma_degrees(a: int, q: int, p: int, t: int, u: int)
    requires
        u >= 0x10_0000_0000_0000_0000_0000,
        3 * u <= p <= 4 * u,
        gap(a, 0) <= 4 * u,
        gap(q, 0) <= 180 * u,
        0x20_0000_0000_0000 * gap(q * p, (180 * u) * u) <= gap((180 * u) * u, 0) + 0x10_0000_0000_0000 * gap(p, 0),
        0x20_0000_0000_0000 * gap(t * u, a * q) <= gap(a * q, 0) + 0x10_0000_0000_0000 * u,
    ensures
        0x8_0000_0000 * gap(t * p, 180 * (a * u)) <= u * u,
{
    let (uu, aq, ga) = (u * u, a * q, gap(a, 0));
    let uuu = uu * u;
    assert((180 * u) * u == 180 * uu && 0x10_0000_0000_0000 * u <= uu && uu > 0) by (nonlinear_arith)
        requires
            uu == u * u,
            u >= 0x10_0000_0000_0000_0000_0000,
    ;
    lemma_gap_of_product(a, q);
    assert(ga * gap(q, 0) <= 720 * uu) by (nonlinear_arith)
        requires
            0 <= ga <= 4 * u,
            0 <= gap(q, 0) <= 180 * u,
            uu == u * u,
    ;
    lemma_gap_scales(t * u, aq, p);
    lemma_gap_scales(q * p, 180 * uu, a);
    let (g, h) = (gap(t * u, aq), gap(q * p, 180 * uu));
    assert(0x20_0000_0000_0000 * (g * p) <= 2884 * uuu && 0x20_0000_0000_0000 * (h * ga) <= 800 * uuu)
        by (nonlinear_arith)
        requires
            0x20_0000_0000_0000 * g <= 721 * uu,
            0x20_0000_0000_0000 * h <= 200 * uu,
            0 <= p <= 4 * u,
            0 <= ga <= 4 * u,
            g >= 0,
            h >= 0,
            uuu == uu * u,
            uu > 0,
    ;
    let (x, y) = (t * p, 180 * (a * u));
    assert((t * u) * p == x * u && aq * p == (q * p) * a && (180 * uu) * a == y * u) by (nonlinear_arith)
        requires
            x == t * p,
            y == 180 * (a * u),
            aq == a * q,
            uu == u * u,
    ;
    assert(gap(x * u, y * u) <= gap((t * u) * p, aq * p) + gap((q * p) * a, (180 * uu) * a));
    lemma_gap_scales(x, y, u);
    let e = gap(x, y);
    assert(0x8_0000_0000 * e <= uu) by (nonlinear_arith)
        requires
            0x20_0000_0000_0000 * (e * u) <= 3684 * uuu,
            uuu == uu * u,
            u > 0,
            e >= 0,
            uu > 0,
    ;
}

} // verus!
