//! What holds of angles: the range they are brought into, and the sweep that
//! reaches a set of directions.
use crate::arith_laws::{
    lemma_encoded, lemma_fraction, lemma_int_double_exact, lemma_quot_monotone, lemma_quot_sign,
    lemma_round_bounded, lemma_round_exact, lemma_round_monotone, lemma_round_units_exact, lemma_round_units_monotone,
    lemma_short_is_double, lemma_sum_grows, lemma_sum_sign, lemma_sum_val,
};
use crate::double::{diff, lemma_mag_ordered, one_unit, opposite, prod, quot, signed, sum, UNIT_EXP, Double};
use crate::generator::{half, next_below, sweep_over, widest, wrapped};
use crate::layout::{greatest, lemma_greatest};
use crate::model::geometry::{pi, radians, turn_degrees};
use crate::order::{le, lt, magnitude, smaller};
use crate::root::remainder;
use crate::rounding::{lemma_round_scale, lemma_round_zero, mag_of, round_low, BINADE, INF_LOW};
use crate::whole::{int_double, ratio};
use vstd::arithmetic::div_mod::*;
use vstd::arithmetic::power2::*;
use vstd::prelude::*;

verus! {

/// The digits of the circle's ratio.
pub const PI_DIGITS: u64 = 0x19_21FB_5444_2D18;

/// Half a turn and a full one, digit by digit.
pub proof fn lemma_turns()
    ensures
        pi().finite(),
        !pi().neg(),
        pi().mag() == PI_DIGITS as nat * pow2(1023),
        pi().low() == 1023 * BINADE + PI_DIGITS,
        ({
            let full = prod(pi(), int_double(2));
            &&& full.finite()
            &&& !full.neg()
            &&& full.mag() == PI_DIGITS as nat * pow2(1024)
            &&& full.low() == 1024 * BINADE + PI_DIGITS
        }),
{
    let (n, d) = (884279719003555nat, 281474976710656nat);
    let u = one_unit();
    let digits = PI_DIGITS as nat;
    lemma_int_double_exact(n as int);
    lemma_int_double_exact(d as int);
    lemma_int_double_exact(2);
    lemma_pow2_pos(UNIT_EXP as nat);
    lemma2_to64();
    lemma2_to64_rest();
    // The quotient of the digits.
    lemma_pow2_adds(48, 1026);
    lemma_pow2_adds(3, 1023);
    let p = digits * pow2(1023);
    assert(n * pow2(1026) == p) by (nonlinear_arith)
        requires
            digits == 8 * n,
            pow2(1026) == 8 * pow2(1023),
            p == digits * pow2(1023),
    ;
    assert((n * u) * u == p * (d * u)) by (nonlinear_arith)
        requires
            u == d * pow2(1026),
            n * pow2(1026) == p,
    ;
    assert(d * u > 0) by (nonlinear_arith)
        requires
            d > 0,
            u > 0,
    ;
    lemma_round_scale(p, 1, d * u);
    assert(1 * (d * u) == d * u);
    lemma_short_is_double(digits, 1023);
    assert(pi() == signed(false, round_low(p, 1))) by {
        reveal(quot);
    }
    lemma_encoded(1023, digits);
    lemma_mag_ordered(pi().low(), (1023 * BINADE + PI_DIGITS) as nat);
    // Twice that.
    lemma_pow2_adds(1, 1023);
    let q = digits * pow2(1024);
    assert(p * (2 * u) == q * u) by (nonlinear_arith)
        requires
            p == digits * pow2(1023),
            q == digits * pow2(1024),
            pow2(1024) == 2 * pow2(1023),
    ;
    lemma_round_scale(q, 1, u);
    assert(1 * u == u);
    lemma_short_is_double(digits, 1024);
    assert(prod(pi(), int_double(2)) == signed(false, round_low(q, 1))) by {
        reveal(prod);
    }
    lemma_encoded(1024, digits);
    lemma_mag_ordered(prod(pi(), int_double(2)).low(), (1024 * BINADE + PI_DIGITS) as nat);
}

/// Every angle is brought into the range from minus half a turn, left out, to
/// half a turn.
pub proof fn law_wrapped_angles_are_in_range(angle: Double)
    requires
        angle.finite(),
    ensures
        lt(opposite(pi()), wrapped(angle)),
        le(wrapped(angle), pi()),
{
    let full = prod(pi(), int_double(2));
    let a = remainder(angle, full);
    let digits = PI_DIGITS as nat;
    let step = pow2(1023);
    lemma_turns();
    lemma_pow2_pos(1023);
    lemma_pow2_pos(1024);
    lemma_pow2_unfold(1024);
    lemma2_to64();
    assert(full.mag() > 0) by (nonlinear_arith)
        requires
            full.mag() == digits * pow2(1024),
            digits > 0,
            pow2(1024) > 0,
    ;
    assert(full.mag() == 2 * pi().mag()) by (nonlinear_arith)
        requires
            full.mag() == digits * pow2(1024),
            pi().mag() == digits * step,
            pow2(1024) == 2 * step,
    ;
    // The remainder is less than a full turn, and rounds to no more.
    let rest = angle.mag() % full.mag();
    lemma_mod_bound(angle.mag() as int, full.mag() as int);
    lemma_round_monotone(rest, 1, full.mag(), 1);
    lemma_round_exact(full.low());
    assert(a == signed(angle.neg(), round_low(rest, 1))) by {
        reveal(remainder);
    }
    lemma_mag_ordered(full.low(), a.low());
    lemma_round_zero(1);
    lemma_round_exact(0);
    assert(opposite(pi()).val() == -pi().val());
    if lt(pi(), a) {
        // The next double above half a turn, and the next below.
        lemma_mag_ordered(pi().low(), a.low());
        lemma_encoded(1023, digits + 1);
        lemma_encoded(1023, (digits - 1) as nat);
        lemma_mag_ordered(a.low(), (pi().low() + 1) as nat);
        let least = signed(true, (pi().low() - 1) as nat);
        let v = a.val() - full.val();
        assert((digits + 1) * step == pi().mag() + step && (digits - 1) * step == pi().mag() - step) by (nonlinear_arith)
            requires
                pi().mag() == digits * step,
        ;
        assert(least.val() == -(pi().mag() - step));
        assert(least.val() <= v <= 0);
        lemma_sum_val(a, opposite(full));
        lemma_round_units_monotone(least.val(), v);
        lemma_round_units_monotone(v, 0);
        lemma_round_units_exact(least);
    } else if le(a, opposite(pi())) {
        let v = a.val() + full.val();
        assert(0 <= v <= pi().val());
        lemma_sum_val(a, full);
        lemma_round_units_monotone(0, v);
        lemma_round_units_monotone(v, pi().val());
        lemma_round_units_exact(pi());
    }
}

/// The degrees of a direction are at least zero and less than a full turn.
pub proof fn law_degrees_are_below_a_full_turn(angle_rad: Double)
    requires
        le(opposite(pi()), angle_rad),
        le(angle_rad, pi()),
    ensures
        le(int_double(0), turn_degrees(angle_rad)),
        lt(turn_degrees(angle_rad), int_double(360)),
{
    let u = one_unit();
    let factor = quot(int_double(180), pi());
    let degrees = prod(angle_rad, factor);
    lemma_turns();
    lemma_pow2_pos(UNIT_EXP as nat);
    lemma_int_double_exact(0);
    lemma_int_double_exact(60);
    lemma_int_double_exact(180);
    lemma_int_double_exact(240);
    lemma_int_double_exact(360);
    lemma2_to64();
    lemma2_to64_rest();
    lemma_pow2_adds(51, 1023);
    lemma_pow2_pos(1023);
    assert(opposite(pi()).val() == -pi().val());
    assert(angle_rad.mag() <= pi().mag());
    lemma_mag_ordered(pi().low(), angle_rad.low());
    assert(3 * u <= pi().mag() <= 4 * u) by (nonlinear_arith)
        requires
            u == 0x8_0000_0000_0000 * pow2(1023),
            pi().mag() == PI_DIGITS as nat * pow2(1023),
    ;
    // The factor is at most 60.
    let (a, b) = ((180 * u) as nat, pi().mag());
    assert((a * u) * 1 <= ((60 * u) as nat) * b) by (nonlinear_arith)
        requires
            a == 180 * u,
            3 * u <= b,
    ;
    lemma_round_monotone(a * u, b, (60 * u) as nat, 1);
    lemma_round_exact(int_double(60).low());
    assert(factor == signed(false, round_low(a * u, b))) by {
        reveal(quot);
    }
    lemma_mag_ordered(factor.low(), int_double(60).low());
    // So there are at most 240 degrees.
    let n = angle_rad.mag() * factor.mag();
    assert(n * 1 <= ((240 * u) as nat) * u) by (nonlinear_arith)
        requires
            n == angle_rad.mag() * factor.mag(),
            angle_rad.mag() <= 4 * u,
            factor.mag() <= 60 * u,
    ;
    lemma_round_monotone(n, u, (240 * u) as nat, 1);
    lemma_round_exact(int_double(240).low());
    assert(degrees == signed(angle_rad.neg(), round_low(n, u))) by {
        reveal(prod);
    }
    lemma_mag_ordered(degrees.low(), int_double(240).low());
    assert(-240 * u <= degrees.val() <= 240 * u);
    if lt(degrees, int_double(0)) {
        lemma_sum_val(degrees, int_double(360));
        lemma_round_units_monotone(0, degrees.val() + 360 * u);
        lemma_round_units_monotone(degrees.val() + 360 * u, int_double(360).val());
        lemma_round_units_exact(int_double(360));
        lemma_round_units_exact(int_double(0));
    }
}

/// Every direction lies within the sweep around the base, up to rounding: it is
/// no farther from the base than half of the sweep and a billionth. The sweep
/// is always less than a full turn.
pub proof fn law_sweep_reaches_every_direction(base_angle: Double, angles: Seq<Double>, i: int)
    requires
        0 <= i < angles.len(),
        forall|k: int| 0 <= k < angles.len() ==> diff(#[trigger] angles[k], base_angle).finite(),
    ensures
        ({
            let sweep = sweep_over(base_angle, angles);
            &&& le(
                magnitude(wrapped(diff(angles[i], base_angle))),
                sum(half(sweep), ratio(1, 1000000000)),
            )
            &&& lt(sweep, prod(pi(), int_double(2)))
        }),
{
    let values = angles.map_values(|a: Double| magnitude(wrapped(diff(a, base_angle))));
    assert forall|k: int| 0 <= k < values.len() implies !(#[trigger] values[k]).nan() && le(
        values[k],
        pi(),
    ) && !values[k].neg() by {
        lemma_offset(angles[k], base_angle);
    }
    lemma_turns();
    lemma_int_double_exact(0);
    lemma_greatest(values, i);
    lemma_greatest_at_most(values, pi());
    lemma_sweep(widest(base_angle, angles), values[i]);
}

/// An offset is at most half a turn.
proof fn lemma_offset(angle: Double, base_angle: Double)
    requires
        diff(angle, base_angle).finite(),
    ensures
        ({
            let offset = magnitude(wrapped(diff(angle, base_angle)));
            !offset.nan() && le(offset, pi()) && !offset.neg()
        }),
{
    law_wrapped_angles_are_in_range(diff(angle, base_angle));
    lemma_turns();
}

proof fn lemma_greatest_at_most(values: Seq<Double>, most: Double)
    requires
        le(int_double(0), most),
        forall|k: int| 0 <= k < values.len() ==> le(#[trigger] values[k], most) && !values[k].neg(),
    ensures
        le(greatest(values), most),
        !greatest(values).neg(),
    decreases values.len(),
{
    lemma_int_double_exact(0);
    if values.len() > 0 {
        assert forall|k: int| 0 <= k < values.drop_last().len() implies le(
            #[trigger] values.drop_last()[k],
            most,
        ) && !values.drop_last()[k].neg() by {
            assert(values.drop_last()[k] == values[k]);
        }
        lemma_greatest_at_most(values.drop_last(), most);
    }
}

/// Twice a magnitude is a double where it is finite.
proof fn lemma_doubled(a: Double)
    requires
        a.low() + BINADE < INF_LOW,
    ensures
        round_low(2 * a.mag(), 1) < INF_LOW,
        mag_of(round_low(2 * a.mag(), 1)) == 2 * a.mag(),
{
    let low = a.low() as int;
    let b = BINADE as int;
    let (e, f) = (low / b, low % b);
    lemma_fundamental_div_mod(low, b);
    lemma_mod_bound(low, b);
    lemma2_to64();
    if e == 0 {
        assert(b * e == 0);
        lemma_encoded(0, (2 * f) as nat);
        assert((2 * f) as nat * pow2(0) == 2 * f) by (nonlinear_arith)
            requires
                pow2(0) == 1,
                f >= 0,
        ;
        lemma_round_exact((2 * f) as nat);
    } else {
        let m = (b + f) as nat;
        assert(e > 0) by (nonlinear_arith)
            requires
                low == b * e + f,
                low >= 0,
                f < b,
                b > 0,
                e != 0,
        ;
        lemma_pow2_unfold(e as nat);
        lemma_encoded(e as nat, m);
        assert(e * b == b * e) by (nonlinear_arith);
        assert(m * pow2(e as nat) == 2 * (m * pow2((e - 1) as nat))) by (nonlinear_arith)
            requires
                pow2(e as nat) == 2 * pow2((e - 1) as nat),
        ;
        lemma_round_exact((low + b) as nat);
    }
}

/// Half of what a double is doubled to is the double.
proof fn lemma_half_of_double(a: Double)
    requires
        a.low() + BINADE < INF_LOW,
        !a.neg(),
    ensures
        prod(a, int_double(2)).finite(),
        !prod(a, int_double(2)).neg(),
        prod(a, int_double(2)).mag() == 2 * a.mag(),
        half(prod(a, int_double(2))).mag() == a.mag(),
        half(prod(a, int_double(2))).finite(),
        !half(prod(a, int_double(2))).neg(),
{
    let u = one_unit();
    lemma_int_double_exact(2);
    lemma_pow2_pos(UNIT_EXP as nat);
    lemma_doubled(a);
    assert(a.mag() * (2 * u) == (2 * a.mag()) * u) by (nonlinear_arith);
    lemma_round_scale(2 * a.mag(), 1, u);
    assert(1 * u == u);
    let p = prod(a, int_double(2));
    assert(p == signed(false, round_low(2 * a.mag(), 1))) by {
        reveal(prod);
    }
    lemma_round_scale(a.mag(), 1, 2 * u);
    assert(1 * (2 * u) == 2 * u);
    assert((2 * a.mag()) * u == a.mag() * (2 * u)) by (nonlinear_arith);
    lemma_round_exact(a.low());
    lemma_mag_ordered(a.low(), 0);
    assert(mag_of(0) == 0) by {
        assert(0nat / BINADE as nat == 0);
    }
    assert(half(p) == signed(false, a.low())) by {
        reveal(quot);
    }
}

/// The margin of a sweep is a number, and not negative.
proof fn lemma_sweep_margin()
    ensures
        ({
            let margin = prod(radians(int_double(8)), int_double(2));
            !margin.nan() && !margin.neg()
        }),
{
    let u = one_unit();
    lemma_turns();
    lemma_pow2_pos(UNIT_EXP as nat);
    lemma_int_double_exact(180);
    lemma_int_double_exact(8);
    lemma_int_double_exact(2);
    let degree = quot(pi(), int_double(180));
    lemma_round_bounded(pi().mag() * u, int_double(180).mag());
    assert(!degree.nan() && !degree.neg()) by {
        reveal(quot);
    }
    lemma_round_bounded(int_double(8).mag() * degree.mag(), u);
    let eight = radians(int_double(8));
    lemma_mag_ordered(0, degree.low());
    assert(int_double(8).mag() > 0 && int_double(2).mag() > 0);
    assert(!eight.nan() && !eight.neg()) by {
        reveal(prod);
    }
    lemma_mag_ordered(0, eight.low());
    lemma_round_bounded(eight.mag() * int_double(2).mag(), u);
    assert(!prod(eight, int_double(2)).nan() && !prod(eight, int_double(2)).neg()) by {
        reveal(prod);
    }
}

/// The widest sweep and its half.
proof fn lemma_widest_sweep()
    ensures
        ({
            let full = prod(pi(), int_double(2));
            let cap = next_below(full);
            &&& cap.finite() && !cap.neg()
            &&& lt(cap, full)
            &&& half(cap).finite() && !half(cap).neg()
            &&& half(cap).mag() == pi().mag() - pow2(1023)
        }),
{
    let full = prod(pi(), int_double(2));
    let (cap, below) = (next_below(full), next_below(pi()));
    let digits = PI_DIGITS as nat;
    let step = pow2(1023);
    lemma_turns();
    lemma_pow2_pos(1023);
    lemma_pow2_unfold(1024);
    lemma_encoded(1023, (digits - 1) as nat);
    lemma_encoded(1024, (digits - 1) as nat);
    lemma_mag_ordered(cap.low(), full.low());
    lemma_half_of_double(below);
    let twice = prod(below, int_double(2));
    assert(below.mag() == (digits - 1) as nat * step);
    assert(cap.mag() == (digits - 1) as nat * pow2(1024));
    assert(twice.mag() == cap.mag()) by (nonlinear_arith)
        requires
            twice.mag() == 2 * below.mag(),
            below.mag() == (digits - 1) as nat * step,
            cap.mag() == (digits - 1) as nat * pow2(1024),
            pow2(1024) == 2 * step,
    ;
    lemma_mag_ordered(twice.low(), cap.low());
    assert(twice == cap);
    assert((digits - 1) as nat * step == pi().mag() - step) by (nonlinear_arith)
        requires
            pi().mag() == digits * step,
            digits >= 1,
    ;
}

/// Half of the widest sweep and a billionth are at least half a turn: the
/// billionth is more than the step between the doubles.
proof fn lemma_widest_sweep_reaches()
    ensures
        le(pi(), sum(half(next_below(prod(pi(), int_double(2)))), ratio(1, 1000000000))),
{
    let part = half(next_below(prod(pi(), int_double(2))));
    let bit = ratio(1, 1000000000);
    lemma_turns();
    lemma_widest_sweep();
    lemma_fraction(1, 1000000000);
    lemma_billionth();
    lemma_sum_val(part, bit);
    lemma_round_units_monotone(pi().val(), part.val() + bit.val());
    lemma_round_units_exact(pi());
}

/// A sweep that is not cut is at least twice the widest offset.
proof fn lemma_narrow_sweep_reaches(widest: Double, margin: Double, limit: Double)
    requires
        widest.low() + BINADE < INF_LOW,
        !widest.neg(),
        !margin.nan(),
        !margin.neg(),
        limit.finite(),
        !limit.neg(),
        half(limit).finite(),
        le(sum(prod(widest, int_double(2)), margin), limit),
    ensures
        ({
            let all = sum(prod(widest, int_double(2)), margin);
            le(widest, sum(half(all), ratio(1, 1000000000)))
        }),
{
    let doubled = prod(widest, int_double(2));
    let all = sum(doubled, margin);
    let bit = ratio(1, 1000000000);
    lemma_int_double_exact(2);
    lemma_pow2_pos(UNIT_EXP as nat);
    lemma_fraction(1, 1000000000);
    lemma_half_of_double(widest);
    lemma_sum_sign(doubled, margin);
    lemma_mag_ordered(limit.low(), all.low());
    assert(margin.finite()) by {
        reveal(sum);
    }
    lemma_mag_ordered(0, margin.low());
    lemma_sum_grows(doubled, margin);
    lemma_quot_monotone(doubled, all, int_double(2));
    lemma_quot_monotone(all, limit, int_double(2));
    lemma_quot_sign(all, int_double(2));
    lemma_mag_ordered(half(limit).low(), half(all).low());
    lemma_sum_grows(half(all), bit);
}

/// The sweep for a widest offset reaches every offset up to it.
proof fn lemma_sweep(widest: Double, offset: Double)
    requires
        le(int_double(0), widest),
        le(widest, pi()),
        le(offset, widest),
        !widest.neg(),
    ensures
        ({
            let margin = prod(radians(int_double(8)), int_double(2));
            let full = prod(pi(), int_double(2));
            let sweep = smaller(sum(prod(widest, int_double(2)), margin), next_below(full));
            &&& le(offset, sum(half(sweep), ratio(1, 1000000000)))
            &&& lt(sweep, full)
        }),
{
    let margin = prod(radians(int_double(8)), int_double(2));
    let cap = next_below(prod(pi(), int_double(2)));
    let doubled = prod(widest, int_double(2));
    let all = sum(doubled, margin);
    lemma_turns();
    lemma_sweep_margin();
    lemma_widest_sweep();
    lemma_mag_ordered(pi().low(), widest.low());
    lemma_half_of_double(widest);
    lemma_sum_sign(doubled, margin);
    if lt(cap, all) {
        lemma_widest_sweep_reaches();
    } else {
        lemma_narrow_sweep_reaches(widest, margin, cap);
    }
}

/// A billionth is more than the distance of the doubles around half a turn.
proof fn lemma_billionth()
    ensures
        ratio(1, 1000000000).val() >= pow2(1023),
{
    let u = one_unit();
    let bit = ratio(1, 1000000000);
    let n = 1000000000nat;
    lemma_int_double_exact(1);
    lemma_int_double_exact(n as int);
    lemma_fraction(1, n as int);
    lemma_pow2_pos(UNIT_EXP as nat);
    lemma2_to64();
    lemma2_to64_rest();
    lemma_pow2_adds(30, 1023);
    lemma_pow2_adds(21, 1053);
    lemma_pow2_pos(1053);
    assert(pow2(1023) * n <= u) by (nonlinear_arith)
        requires
            pow2(1053) == 1073741824 * pow2(1023),
            u == 2097152 * pow2(1053),
            n <= 1073741824,
    ;
    assert(n * u > 0) by (nonlinear_arith)
        requires
            n > 0,
            u > 0,
    ;
    assert(pow2(1023) * (n * u) <= (u * u) * 1) by (nonlinear_arith)
        requires
            pow2(1023) * n <= u,
            u > 0,
    ;
    lemma_round_monotone(pow2(1023), 1, u * u, n * u);
    lemma_short_is_double(1, 1023);
    assert(1 * pow2(1023) == pow2(1023));
    lemma_round_bounded(u * u, n * u);
    lemma_mag_ordered(round_low(u * u, n * u), round_low(pow2(1023), 1));
    assert(bit == signed(false, round_low(u * u, n * u))) by {
        reveal(quot);
    }
}

} // verus!
