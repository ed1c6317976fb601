//! Procedural backgrounds: a fan of nested, wavy arc layers around a focus
//! point, planned from a seed and a handful of parameters. The same inputs
//! always give the same plan. The caller draws it, and turns angles into
//! sines, cosines and back.
use crate::arith_laws::{
    lemma_int_double_exact, lemma_prod_commutes, lemma_round_bounded, lemma_round_exact, lemma_round_monotone,
};
use crate::double::{diff, lemma_mag_ordered, one_unit, opposite, prod, quot, signed, sum, UNIT_EXP, Double};
use crate::layout::greatest;
use crate::model::background::GeneratedBackgroundView;
use crate::model::geometry::{pi, radians};
use crate::model::{GeneratedBackground, Rgba};
use crate::order::{larger, le, lt, magnitude, same, smaller, within};
use crate::palette::{drawn, neutral_gray, share};
use crate::rng::{fork_seed, output, picked, stepped, Rng};
use crate::root::{remainder, square_root};
use crate::rounding::{lemma_round_zero, round_low};
use crate::turn_laws::lemma_turns;
use crate::whole::{clip, int_double, ratio, whole, Rounding};
use vstd::arithmetic::div_mod::*;
use vstd::arithmetic::mul::*;
use vstd::arithmetic::power2::*;
use vstd::prelude::*;

verus! {

/// A point of the canvas.
#[derive(Clone, Copy, Debug, PartialEq)]
pub struct Point {
    pub x: Double,
    pub y: Double,
}

/// Where a screenshot covers the canvas.
#[derive(Clone, Copy, Debug, PartialEq)]
pub struct ScreenshotRegion {
    pub x: Double,
    pub y: Double,
    pub width: Double,
    pub height: Double,
}

pub open spec fn half(v: Double) -> Double {
    quot(v, int_double(2))
}

pub open spec fn squared(v: Double) -> Double {
    prod(v, v)
}

/// The length of a step of `dx` and `dy`.
pub open spec fn distance(dx: Double, dy: Double) -> Double {
    square_root(sum(squared(dx), squared(dy)))
}

fn halved(v: Double) -> (res: Double)
    ensures
        res == half(v),
{
    v.over(Double::from_int(2))
}

fn length(dx: Double, dy: Double) -> (res: Double)
    ensures
        res == distance(dx, dy),
{
    dx.times(dx).plus(dy.times(dy)).sqrt()
}

impl ScreenshotRegion {
    pub open spec fn middle(self) -> Point {
        Point { x: sum(self.x, half(self.width)), y: sum(self.y, half(self.height)) }
    }

    /// Zero at the middle, growing to one at the edge and beyond.
    pub open spec fn remoteness(self, p: Point) -> Double {
        let m = self.middle();
        let dx = quot(diff(p.x, m.x), larger(half(self.width), int_double(1)));
        let dy = quot(diff(p.y, m.y), larger(half(self.height), int_double(1)));
        smaller(distance(dx, dy), int_double(1))
    }

    pub fn center(&self) -> (res: Point)
        ensures
            res == self.middle(),
    {
        Point { x: self.x.plus(halved(self.width)), y: self.y.plus(halved(self.height)) }
    }

    /// How far a point is from the middle of the region, softly: zero at the
    /// middle, growing to one at the edge and beyond.
    pub fn proximity(&self, p: Point) -> (res: Double)
        ensures
            res == self.remoteness(p),
    {
        let m = self.center();
        let one = Double::one();
        let dx = p.x.minus(m.x).over(halved(self.width).max(one));
        let dy = p.y.minus(m.y).over(halved(self.height).max(one));
        length(dx, dy).min(one)
    }
}

/// How strongly a point is covered by a region: what is left to its edge.
pub open spec fn cover(p: Point, region: ScreenshotRegion) -> Double {
    diff(int_double(1), region.remoteness(p))
}

/// How strongly a point is covered by any region.
pub open spec fn coverage(p: Point, regions: Seq<ScreenshotRegion>) -> Double {
    greatest(regions.map_values(|r: ScreenshotRegion| cover(p, r)))
}

/// How strongly a point is covered by any region; zero if it is clear of them.
pub fn occupancy(p: Point, regions: &[ScreenshotRegion]) -> (res: Double)
    ensures
        res == coverage(p, regions@),
{
    let ghost values = regions@.map_values(|r: ScreenshotRegion| cover(p, r));
    let mut res = Double::zero();
    let mut i: usize = 0;
    while i < regions.len()
        invariant
            i <= regions.len(),
            values == regions@.map_values(|r: ScreenshotRegion| cover(p, r)),
            res == greatest(values.take(i as int)),
        decreases regions.len() - i,
    {
        proof {
            assert(values.take(i + 1).drop_last() =~= values.take(i as int));
            assert(values.take(i + 1).last() == values[i as int]);
        }
        res = res.max(Double::one().minus(regions[i].proximity(p)));
        i = i + 1;
    }
    proof {
        assert(values.take(i as int) =~= values);
    }
    res
}

/// The four corners of a canvas.
pub open spec fn canvas_corners(width: Double, height: Double) -> Seq<Point> {
    let zero = int_double(0);
    seq![
        Point { x: zero, y: zero },
        Point { x: width, y: zero },
        Point { x: zero, y: height },
        Point { x: width, y: height },
    ]
}

/// A choice among points, how many are as good as it, and the state of the
/// generator that chose.
pub struct Choice {
    pub best: Point,
    pub ties: int,
    pub state: u64,
}

/// The choice of a least covered one among the first `n` points. Among points
/// that are covered alike the generator decides, each time anew whether the
/// later one takes the place: with a chance that gives each of them the same.
pub open spec fn clearest(points: Seq<Point>, regions: Seq<ScreenshotRegion>, state: u64, n: nat) -> Choice
    decreases n,
{
    if n <= 1 {
        Choice { best: points[0], ties: 1, state }
    } else {
        let before = clearest(points, regions, state, (n - 1) as nat);
        let next = points[n - 1];
        let (a, b) = (coverage(next, regions), coverage(before.best, regions));
        if lt(a, b) {
            Choice { best: next, ties: 1, state: before.state }
        } else if same(a, b) {
            Choice {
                best: if picked(output(before.state), (before.ties + 1) as usize) == 0 {
                    next
                } else {
                    before.best
                },
                ties: before.ties + 1,
                state: stepped(before.state),
            }
        } else {
            before
        }
    }
}

/// The corner that a generator in this state settles on.
pub open spec fn chosen_corner(state: u64, width: Double, height: Double, regions: Seq<ScreenshotRegion>, avoid: bool) -> Point {
    if !avoid || regions.len() == 0 {
        canvas_corners(width, height)[picked(output(state), 4) as int]
    } else {
        clearest(canvas_corners(width, height), regions, state, 4).best
    }
}

/// The state after settling on a corner: a random pick draws once, and a choice
/// for every tie.
pub open spec fn after_corner(state: u64, width: Double, height: Double, regions: Seq<ScreenshotRegion>, avoid: bool) -> u64 {
    if !avoid || regions.len() == 0 {
        stepped(state)
    } else {
        clearest(canvas_corners(width, height), regions, state, 4).state
    }
}

fn corners_of(width: Double, height: Double) -> (res: Vec<Point>)
    ensures
        res@ == canvas_corners(width, height),
{
    let zero = Double::zero();
    let res: Vec<Point> = vec![
        Point { x: zero, y: zero },
        Point { x: width, y: zero },
        Point { x: zero, y: height },
        Point { x: width, y: height },
    ];
    proof {
        assert(res@ =~= canvas_corners(width, height));
    }
    res
}

/// The canvas corner that the focus point sits by: one that the regions cover
/// least if they are to be avoided, else a random one. The generator decides
/// between corners that are covered alike.
pub fn choose_corner(rng: &mut Rng, width: Double, height: Double, regions: &[ScreenshotRegion], avoid: bool) -> (res: Point)
    ensures
        res == chosen_corner(old(rng)@, width, height, regions@, avoid),
        final(rng)@ == after_corner(old(rng)@, width, height, regions@, avoid),
{
    let corners = corners_of(width, height);
    if !avoid || regions.len() == 0 {
        return corners[rng.index(4)];
    }
    let ghost state = rng@;
    let mut best = corners[0];
    let mut best_occupancy = occupancy(best, regions);
    let mut ties: usize = 1;
    let mut i: usize = 1;
    while i < 4
        invariant
            1 <= i <= 4,
            1 <= ties <= i,
            corners.len() == 4,
            clearest(corners@, regions@, state, i as nat) == (Choice { best, ties: ties as int, state: rng@ }),
            best_occupancy == coverage(best, regions@),
        decreases 4 - i,
    {
        let o = occupancy(corners[i], regions);
        if o.less(best_occupancy) {
            best = corners[i];
            best_occupancy = o;
            ties = 1;
        } else if o.equals(best_occupancy) {
            ties = ties + 1;
            if rng.index(ties) == 0 {
                best = corners[i];
                best_occupancy = o;
            }
        }
        i = i + 1;
    }
    best
}

/// No corner is covered less than the one that is chosen to avoid the regions.
pub proof fn law_chosen_corner_is_clearest(state: u64, width: Double, height: Double, regions: Seq<ScreenshotRegion>, i: int)
    requires
        regions.len() > 0,
        0 <= i < 4,
    ensures
        ({
            let corners = canvas_corners(width, height);
            let chosen = chosen_corner(state, width, height, regions, true);
            &&& corners.contains(chosen)
            &&& le(coverage(chosen, regions), coverage(corners[i], regions))
        }),
{
    lemma_clearest(canvas_corners(width, height), regions, state, 4, i);
}

proof fn lemma_clearest(points: Seq<Point>, regions: Seq<ScreenshotRegion>, state: u64, n: nat, i: int)
    requires
        0 <= i < n <= points.len(),
    ensures
        ({
            let best = clearest(points, regions, state, n).best;
            &&& points.contains(best)
            &&& le(coverage(best, regions), coverage(points[i], regions))
        }),
    decreases n,
{
    lemma_coverage(points[i], regions);
    lemma_coverage(points[n - 1], regions);
    if n > 1 {
        lemma_clearest(points, regions, state, (n - 1) as nat, if i < n - 1 { i } else { 0 });
        lemma_coverage(clearest(points, regions, state, (n - 1) as nat).best, regions);
    } else {
        assert(points[0] == points[i]);
    }
}

/// How strongly a point is covered is always a number.
proof fn lemma_coverage(p: Point, regions: Seq<ScreenshotRegion>)
    ensures
        !coverage(p, regions).nan(),
{
    lemma_greatest_number(regions.map_values(|r: ScreenshotRegion| cover(p, r)));
}

proof fn lemma_greatest_number(values: Seq<Double>)
    ensures
        !greatest(values).nan(),
    decreases values.len(),
{
    lemma_int_double_exact(0);
    if values.len() > 0 {
        lemma_greatest_number(values.drop_last());
    }
}

/// A share of an integer is no more than the integer.
pub proof fn lemma_share_of(n: int, t: Double)
    requires
        0 <= n <= 0x20_0000_0000_0000,
        !t.nan(),
        0 <= t.val() <= one_unit(),
    ensures
        !prod(int_double(n), t).nan(),
        0 <= prod(int_double(n), t).val() <= n * one_unit(),
        0 <= prod(t, int_double(n)).val() <= n * one_unit(),
        !prod(t, int_double(n)).nan(),
{
    lemma_int_double_exact(n);
    lemma_pow2_pos(UNIT_EXP as nat);
    lemma_share_finite(t);
    let a = int_double(n);
    let u = one_unit();
    let m = a.mag() * t.mag();
    assert(m * 1 <= a.mag() * u) by (nonlinear_arith)
        requires
            m == a.mag() * t.mag(),
            t.mag() <= u,
    ;
    lemma_round_monotone(m, u, a.mag(), 1);
    lemma_round_exact(a.low());
    lemma_round_bounded(m, u);
    lemma_mag_ordered(round_low(m, u), a.low());
    lemma_prod_commutes(a, t);
    assert(prod(a, t) == signed(a.neg() != t.neg(), round_low(m, u))) by {
        reveal(prod);
    }
    if t.neg() {
        assert(t.mag() == 0);
        assert(m == 0) by (nonlinear_arith)
            requires
                m == a.mag() * t.mag(),
                t.mag() == 0,
        ;
        lemma_round_zero(u);
    }
    assert(n * u >= 0) by (nonlinear_arith)
        requires
            n >= 0,
    ;
}

proof fn lemma_share_finite(t: Double)
    requires
        !t.nan(),
        0 <= t.val() <= one_unit(),
    ensures
        t.finite(),
{
    lemma_int_double_exact(1);
    lemma_mag_ordered(int_double(1).low(), t.low());
}

/// What a clamped share is worth.
pub proof fn lemma_share(v: Double)
    ensures
        !v.nan() ==> !share(v).nan() && 0 <= share(v).val() <= one_unit(),
        v.nan() ==> share(v).nan(),
{
    lemma_int_double_exact(0);
    lemma_int_double_exact(1);
    lemma_pow2_pos(UNIT_EXP as nat);
}

/// Rounding what is at most `n` ones gives at most `n`.
pub proof fn lemma_whole_at_most(v: Double, n: int, mode: Rounding)
    requires
        n >= 0,
        !v.nan(),
        0 <= v.val() <= n * one_unit(),
    ensures
        0 <= whole(v, mode) <= n,
{
    let u = one_unit() as int;
    lemma_pow2_pos(UNIT_EXP as nat);
    let m = v.mag() as int;
    lemma_fundamental_div_mod(m, u);
    lemma_mod_bound(m, u);
    let (w, part) = (m / u, m % u);
    lemma_div_pos_is_pos(m, u);
    assert(w <= n && (w == n ==> part == 0)) by (nonlinear_arith)
        requires
            m == u * w + part,
            m <= n * u,
            0 <= part < u,
            u > 0,
    ;
}

/// A color between two, at a share of the way.
pub open spec fn blend(a: Rgba, b: Rgba, t: Double) -> Rgba {
    Rgba {
        r: sum(a.r, prod(diff(b.r, a.r), t)),
        g: sum(a.g, prod(diff(b.g, a.g), t)),
        b: sum(a.b, prod(diff(b.b, a.b), t)),
        a: sum(a.a, prod(diff(b.a, a.a), t)),
    }
}

/// The color at a share of the way along a palette: a blend of the two nearest
/// entries.
pub open spec fn color_along(palette: Seq<Rgba>, t: Double) -> Rgba {
    if palette.len() == 0 {
        neutral_gray()
    } else if palette.len() == 1 {
        palette[0]
    } else {
        let scaled = prod(share(t), int_double(palette.len() - 1));
        let i = whole(scaled, Rounding::Down);
        let j = if i + 1 < palette.len() {
            i + 1
        } else {
            palette.len() - 1
        };
        blend(palette[i], palette[j], diff(scaled, int_double(i)))
    }
}

fn blended(a: Rgba, b: Rgba, t: Double) -> (res: Rgba)
    ensures
        res == blend(a, b, t),
{
    Rgba::new(
        a.r.plus(b.r.minus(a.r).times(t)),
        a.g.plus(b.g.minus(a.g).times(t)),
        a.b.plus(b.b.minus(a.b).times(t)),
        a.a.plus(b.a.minus(a.a).times(t)),
    )
}

fn clamp_share(v: Double) -> (res: Double)
    ensures
        res == share(v),
{
    proof {
        lemma_int_double_exact(0);
        lemma_int_double_exact(1);
        lemma_pow2_pos(UNIT_EXP as nat);
    }
    v.clamp(Double::zero(), Double::one())
}

/// The color at a share of the way along a palette; a neutral gray along an
/// empty one.
pub fn palette_lerp(palette: &[Rgba], t: Double) -> (res: Rgba)
    requires
        palette.len() <= 0x20_0000_0000_0000,
    ensures
        res == color_along(palette@, t),
{
    if palette.len() == 0 {
        let mid = Double::ratio(5, 10);
        return Rgba::new(mid, mid, mid, Double::one());
    }
    if palette.len() == 1 {
        return palette[0];
    }
    let scaled = clamp_share(t).times(Double::from_u64(palette.len() as u64 - 1));
    proof {
        let n = palette.len() - 1;
        lemma_share(t);
        if t.nan() {
            assert(scaled.nan()) by {
                reveal(prod);
            }
        } else {
            lemma_share_of(n, share(t));
            lemma_whole_at_most(scaled, n, Rounding::Down);
        }
    }
    let i0: usize = scaled.to_int(Rounding::Down, 0, u64::MAX as i128) as usize;
    let i1: usize = if i0 + 1 < palette.len() {
        i0 + 1
    } else {
        palette.len() - 1
    };
    blended(palette[i0], palette[i1], scaled.minus(Double::from_u64(i0 as u64)))
}

/// An angle brought into the half-open range from minus half a turn, which it
/// never is, to half a turn.
pub open spec fn wrapped(angle: Double) -> Double {
    let full = prod(pi(), int_double(2));
    let a = remainder(angle, full);
    if lt(pi(), a) {
        diff(a, full)
    } else if le(a, opposite(pi())) {
        sum(a, full)
    } else {
        a
    }
}

/// An angle in radians, brought into the half-open range from minus half a
/// turn, left out, to half a turn.
pub fn wrap_to_pi(angle: Double) -> (res: Double)
    ensures
        res == wrapped(angle),
{
    let full = Double::pi().times(Double::from_int(2));
    let a = angle.rem(full);
    if Double::pi().less(a) {
        a.minus(full)
    } else if a.at_most(Double::pi().negated()) {
        a.plus(full)
    } else {
        a
    }
}

/// How far the farthest of some directions is from a base direction.
pub open spec fn widest(base_angle: Double, angles: Seq<Double>) -> Double {
    greatest(angles.map_values(|a: Double| magnitude(wrapped(diff(a, base_angle)))))
}

/// The double next below a positive one.
pub open spec fn next_below(v: Double) -> Double {
    Double { bits: (v.bits - 1) as u64 }
}

/// The sweep that reaches every direction, with a margin as far as it stays
/// below a full turn.
pub open spec fn sweep_over(base_angle: Double, angles: Seq<Double>) -> Double {
    smaller(
        sum(
            prod(widest(base_angle, angles), int_double(2)),
            prod(radians(int_double(8)), int_double(2)),
        ),
        next_below(prod(pi(), int_double(2))),
    )
}

/// The angular sweep around `base_angle` that contains every given direction,
/// so that the straight sides of a layer stay off the canvas.
pub fn required_sweep(base_angle: Double, angles: &[Double]) -> (res: Double)
    ensures
        res == sweep_over(base_angle, angles@),
{
    let ghost values = angles@.map_values(|a: Double| magnitude(wrapped(diff(a, base_angle))));
    let mut max_offset = Double::zero();
    let mut i: usize = 0;
    while i < angles.len()
        invariant
            i <= angles.len(),
            values == angles@.map_values(|a: Double| magnitude(wrapped(diff(a, base_angle)))),
            max_offset == greatest(values.take(i as int)),
        decreases angles.len() - i,
    {
        proof {
            assert(values.take(i + 1).drop_last() =~= values.take(i as int));
            assert(values.take(i + 1).last() == values[i as int]);
        }
        max_offset = max_offset.max(wrap_to_pi(angles[i].minus(base_angle)).abs());
        i = i + 1;
    }
    proof {
        assert(values.take(i as int) =~= values);
    }
    let two = Double::from_int(2);
    let margin = Double::from_int(8).to_radians();
    let full = Double::pi().times(two);
    proof {
        lemma_turns();
    }
    max_offset.times(two).plus(margin.times(two)).min(Double::from_bits(full.bits - 1))
}

/// How the canvas is filled before the layers are drawn.
#[derive(Clone, Copy, Debug, PartialEq)]
pub enum BaseFill {
    Solid(Rgba),
    /// A gradient from edge to edge, at an angle in radians.
    Gradient { angle: Double, first: Rgba, last: Rgba },
}

pub open spec fn pale_gray() -> Rgba {
    Rgba { r: ratio(9, 10), g: ratio(9, 10), b: ratio(92, 100), a: int_double(1) }
}

/// The fill of a palette, for a generator in this state.
pub open spec fn base_of(state: u64, palette: Seq<Rgba>) -> BaseFill {
    if palette.len() < 2 {
        BaseFill::Solid(
            if palette.len() == 0 {
                pale_gray()
            } else {
                palette[0]
            },
        )
    } else {
        BaseFill::Gradient {
            angle: drawn(state, int_double(0), prod(pi(), int_double(2))),
            first: palette[0],
            last: palette[1],
        }
    }
}

fn light_gray() -> (res: Rgba)
    ensures
        res == pale_gray(),
{
    Rgba::new(Double::ratio(9, 10), Double::ratio(9, 10), Double::ratio(92, 100), Double::one())
}

fn base_fill(rng: &mut Rng, palette: &[Rgba]) -> (res: BaseFill)
    ensures
        res == base_of(old(rng)@, palette@),
{
    if palette.len() == 0 {
        BaseFill::Solid(light_gray())
    } else if palette.len() == 1 {
        BaseFill::Solid(palette[0])
    } else {
        let angle = rng.range(Double::zero(), Double::pi().times(Double::from_int(2)));
        BaseFill::Gradient { angle, first: palette[0], last: palette[1] }
    }
}

/// The ends of a gradient line that spans a canvas in the direction of the
/// cosine and sine.
pub open spec fn line_across(width: Double, height: Double, cosine: Double, sine: Double) -> (Point, Point) {
    let reach = half(distance(width, height));
    let c = Point { x: half(width), y: half(height) };
    (
        Point { x: diff(c.x, prod(cosine, reach)), y: diff(c.y, prod(sine, reach)) },
        Point { x: sum(c.x, prod(cosine, reach)), y: sum(c.y, prod(sine, reach)) },
    )
}

/// The ends of a gradient line that spans a canvas in the direction of the
/// cosine and sine.
pub fn gradient_line(width: Double, height: Double, cosine: Double, sine: Double) -> (res: (Point, Point))
    ensures
        res == line_across(width, height, cosine, sine),
{
    let reach = halved(length(width, height));
    let (cx, cy) = (halved(width), halved(height));
    (
        Point { x: cx.minus(cosine.times(reach)), y: cy.minus(sine.times(reach)) },
        Point { x: cx.plus(cosine.times(reach)), y: cy.plus(sine.times(reach)) },
    )
}

/// Where the fan of layers sits and how it is shaped.
#[derive(Clone, Copy, Debug, PartialEq)]
pub struct WaveFan {
    pub center: Point,
    pub focus: Point,
    pub max_radius: Double,
    pub min_radius: Double,
    pub amplitude: Double,
    pub freq: Double,
    pub layer_count: usize,
}

/// The unit step from the middle of the canvas toward a corner.
pub open spec fn outward(corner: Point, center: Point) -> Point {
    let dx = diff(corner.x, center.x);
    let dy = diff(corner.y, center.y);
    let len = larger(distance(dx, dy), int_double(1));
    Point { x: quot(dx, len), y: quot(dy, len) }
}

/// A shift of the focus: a share of half the canvas.
pub open spec fn shift(offset: Double, extent: Double) -> Double {
    prod(prod(within(offset, int_double(-1), int_double(1)), extent), ratio(5, 10))
}

/// The point that the layers surround: the corner, moved out along the
/// diagonal the farther the less the background leans to the corner, and then
/// shifted.
pub open spec fn focus_of(bg: GeneratedBackgroundView, corner: Point, width: Double, height: Double) -> Point {
    let center = Point { x: half(width), y: half(height) };
    let out = outward(corner, center);
    let reach = prod(
        prod(distance(half(width), half(height)), int_double(6)),
        diff(int_double(1), share(bg.corner_bias)),
    );
    Point {
        x: sum(sum(corner.x, prod(out.x, reach)), shift(bg.offset_x, width)),
        y: sum(sum(corner.y, prod(out.y, reach)), shift(bg.offset_y, height)),
    }
}

/// How far the farthest corner is from the focus.
pub open spec fn farthest_corner(focus: Point, width: Double, height: Double) -> Double {
    greatest(
        canvas_corners(width, height).map_values(
            |c: Point| distance(diff(c.x, focus.x), diff(c.y, focus.y)),
        ),
    )
}

/// A number rounded to a whole one.
pub open spec fn rounded(v: Double) -> Double {
    if v.nan() {
        v
    } else {
        int_double(clip(whole(v, Rounding::Nearest), 0, 3))
    }
}

/// The fan of a background around a corner.
pub open spec fn fan_of(bg: GeneratedBackgroundView, corner: Point, width: Double, height: Double) -> WaveFan {
    let focus = focus_of(bg, corner, width, height);
    let max_radius = prod(
        larger(farthest_corner(focus, width, height), int_double(1)),
        larger(bg.scale, ratio(5, 100)),
    );
    WaveFan {
        center: Point { x: half(width), y: half(height) },
        focus,
        max_radius,
        min_radius: prod(max_radius, ratio(15, 100)),
        amplitude: prod(
            prod(max_radius, ratio(5, 100)),
            sum(ratio(3, 10), prod(share(bg.flow), ratio(7, 10))),
        ),
        freq: sum(int_double(1), rounded(prod(share(bg.variation), int_double(3)))),
        layer_count: (4 + clip(whole(prod(int_double(6), share(bg.density)), Rounding::Nearest), 0, 6)) as usize,
    }
}

fn shifted_by(offset: Double, extent: Double) -> (res: Double)
    ensures
        res == shift(offset, extent),
{
    proof {
        lemma_int_double_exact(-1);
        lemma_int_double_exact(1);
        lemma_pow2_pos(UNIT_EXP as nat);
    }
    offset.clamp(Double::from_int(-1), Double::one()).times(extent).times(Double::ratio(5, 10))
}

fn focus_point(bg: &GeneratedBackground, corner: Point, width: Double, height: Double) -> (res: Point)
    ensures
        res == focus_of(bg@, corner, width, height),
{
    let center = Point { x: halved(width), y: halved(height) };
    let dx = corner.x.minus(center.x);
    let dy = corner.y.minus(center.y);
    let len = length(dx, dy).max(Double::one());
    let reach = length(center.x, center.y).times(Double::from_int(6)).times(
        Double::one().minus(clamp_share(bg.corner_bias)),
    );
    Point {
        x: corner.x.plus(dx.over(len).times(reach)).plus(shifted_by(bg.offset_x, width)),
        y: corner.y.plus(dy.over(len).times(reach)).plus(shifted_by(bg.offset_y, height)),
    }
}

fn reach_of(focus: Point, width: Double, height: Double) -> (res: Double)
    ensures
        res == farthest_corner(focus, width, height),
{
    let corners = corners_of(width, height);
    let ghost values = corners@.map_values(|c: Point| distance(diff(c.x, focus.x), diff(c.y, focus.y)));
    let mut res = Double::zero();
    let mut i: usize = 0;
    while i < corners.len()
        invariant
            i <= corners.len(),
            values == corners@.map_values(|c: Point| distance(diff(c.x, focus.x), diff(c.y, focus.y))),
            res == greatest(values.take(i as int)),
        decreases corners.len() - i,
    {
        proof {
            assert(values.take(i + 1).drop_last() =~= values.take(i as int));
            assert(values.take(i + 1).last() == values[i as int]);
        }
        let c = corners[i];
        res = res.max(length(c.x.minus(focus.x), c.y.minus(focus.y)));
        i = i + 1;
    }
    proof {
        assert(values.take(i as int) =~= values);
    }
    res
}

/// The fan of layers of a background around a corner of the canvas.
pub fn wave_fan(bg: &GeneratedBackground, corner: Point, width: Double, height: Double) -> (res: WaveFan)
    ensures
        res == fan_of(bg@, corner, width, height),
        4 <= res.layer_count <= 10,
{
    let focus = focus_point(bg, corner, width, height);
    let max_radius = reach_of(focus, width, height).max(Double::one()).times(bg.scale.max(Double::ratio(5, 100)));
    let flow = Double::ratio(3, 10).plus(clamp_share(bg.flow).times(Double::ratio(7, 10)));
    let bumps = clamp_share(bg.variation).times(Double::from_int(3));
    let whole_bumps = if bumps.is_nan() {
        bumps
    } else {
        Double::from_int(bumps.to_int(Rounding::Nearest, 0, 3) as i64)
    };
    let extra: usize = Double::from_int(6).times(clamp_share(bg.density)).to_int(Rounding::Nearest, 0, 6) as usize;
    WaveFan {
        center: Point { x: halved(width), y: halved(height) },
        focus,
        max_radius,
        min_radius: max_radius.times(Double::ratio(15, 100)),
        amplitude: max_radius.times(Double::ratio(5, 100)).times(flow),
        freq: Double::one().plus(whole_bumps),
        layer_count: 4 + extra,
    }
}

/// The densities and variations that a background can have never reach the
/// limits of a fan's layers and bumps.
pub proof fn law_fan_limits_cut_nothing(density: Double, variation: Double)
    ensures
        ({
            let layers = whole(prod(int_double(6), share(density)), Rounding::Nearest);
            clip(layers, 0, 6) == layers
        }),
        ({
            let bumps = whole(prod(share(variation), int_double(3)), Rounding::Nearest);
            clip(bumps, 0, 3) == bumps
        }),
{
    lemma_share(density);
    lemma_share(variation);
    if density.nan() {
        assert(prod(int_double(6), share(density)).nan()) by {
            reveal(prod);
        }
    } else {
        lemma_share_of(6, share(density));
        lemma_whole_at_most(prod(int_double(6), share(density)), 6, Rounding::Nearest);
    }
    if variation.nan() {
        assert(prod(share(variation), int_double(3)).nan()) by {
            reveal(prod);
        }
    } else {
        lemma_share_of(3, share(variation));
        lemma_whole_at_most(prod(share(variation), int_double(3)), 3, Rounding::Nearest);
    }
}

/// One layer of the fan.
#[derive(Clone, Copy, Debug, PartialEq)]
pub struct WaveLayer {
    pub radius: Double,
    pub phase: Double,
    pub amplitude: Double,
    pub color: Rgba,
    pub alpha: Double,
    /// The alpha at the outer end, if the layer fades out.
    pub outer_alpha: Option<Double>,
}

/// The states that a layer's draws start from: two draws for each layer.
pub open spec fn layer_state(state: u64, i: nat) -> u64
    decreases i,
{
    if i == 0 {
        state
    } else {
        stepped(stepped(layer_state(state, (i - 1) as nat)))
    }
}

/// The `i`th layer from outside.
pub open spec fn layer_of(bg: GeneratedBackgroundView, palette: Seq<Rgba>, fan: WaveFan, state: u64, i: int) -> WaveLayer {
    let t = quot(int_double(i), int_double(fan.layer_count - 1));
    let s = layer_state(state, i as nat);
    let color = color_along(palette, t);
    let alpha = prod(
        color.a,
        diff(
            int_double(1),
            prod(prod(ratio(3, 10), share(bg.contrast)), diff(int_double(1), t)),
        ),
    );
    WaveLayer {
        radius: sum(fan.max_radius, prod(diff(fan.min_radius, fan.max_radius), t)),
        phase: drawn(s, int_double(0), prod(pi(), int_double(2))),
        amplitude: prod(fan.amplitude, drawn(stepped(s), ratio(7, 10), ratio(13, 10))),
        color,
        alpha,
        outer_alpha: if lt(bg.softness, ratio(5, 10)) {
            None
        } else {
            Some(prod(alpha, ratio(6, 10)))
        },
    }
}

/// The layers of a fan, outermost first.
pub open spec fn layers_of(bg: GeneratedBackgroundView, palette: Seq<Rgba>, fan: WaveFan, state: u64) -> Seq<WaveLayer> {
    Seq::new(fan.layer_count as nat, |i: int| layer_of(bg, palette, fan, state, i))
}

fn wave_layers(rng: &mut Rng, bg: &GeneratedBackground, palette: &[Rgba], fan: &WaveFan) -> (res: Vec<WaveLayer>)
    requires
        palette.len() <= 0x20_0000_0000_0000,
        4 <= fan.layer_count <= 10,
    ensures
        res@ == layers_of(bg@, palette@, *fan, old(rng)@),
{
    let ghost state = rng@;
    let ghost all = layers_of(bg@, palette@, *fan, state);
    let mut res: Vec<WaveLayer> = Vec::new();
    let last = Double::from_u64(fan.layer_count as u64 - 1);
    let mut i: usize = 0;
    while i < fan.layer_count
        invariant
            i <= fan.layer_count,
            palette.len() <= 0x20_0000_0000_0000,
            4 <= fan.layer_count <= 10,
            last == int_double(fan.layer_count - 1),
            all == layers_of(bg@, palette@, *fan, state),
            rng@ == layer_state(state, i as nat),
            res@ == all.take(i as int),
        decreases fan.layer_count - i,
    {
        let t = Double::from_u64(i as u64).over(last);
        let radius = fan.max_radius.plus(fan.min_radius.minus(fan.max_radius).times(t));
        let phase = rng.range(Double::zero(), Double::pi().times(Double::from_int(2)));
        let amplitude = fan.amplitude.times(rng.range(Double::ratio(7, 10), Double::ratio(13, 10)));
        let color = palette_lerp(palette, t);
        let one = Double::one();
        let alpha = color.a.times(
            one.minus(Double::ratio(3, 10).times(clamp_share(bg.contrast)).times(one.minus(t))),
        );
        let outer_alpha = if bg.softness.less(Double::ratio(5, 10)) {
            None
        } else {
            Some(alpha.times(Double::ratio(6, 10)))
        };
        let layer = WaveLayer { radius, phase, amplitude, color, alpha, outer_alpha };
        res.push(layer);
        proof {
            assert(layer == layer_of(bg@, palette@, *fan, state, i as int));
            assert(all.take(i + 1) =~= all.take(i as int).push(all[i as int]));
        }
        i = i + 1;
    }
    proof {
        assert(all.take(i as int) =~= all);
    }
    res
}

/// A whole background, ready to draw.
#[derive(Debug, PartialEq)]
pub struct ScenePlan {
    pub base: BaseFill,
    pub fan: WaveFan,
    pub layers: Vec<WaveLayer>,
}

/// The palette that a background is drawn with: its own, or a pale gray.
pub open spec fn drawing_palette(bg: GeneratedBackgroundView) -> Seq<Rgba> {
    if bg.palette.len() == 0 {
        seq![pale_gray()]
    } else {
        bg.palette
    }
}

/// The seed of the draws for the base fill.
pub open spec fn base_seed(seed: u64) -> u64 {
    fork_seed(output(seed), 1)
}

/// The seed of the draws for the layers.
pub open spec fn layers_seed(seed: u64) -> u64 {
    fork_seed(output(stepped(seed)), 2)
}

/// Whether a plan is that of a background on a canvas.
pub open spec fn is_scene(plan: ScenePlan, bg: GeneratedBackgroundView, width: Double, height: Double, regions: Seq<ScreenshotRegion>) -> bool {
    let palette = drawing_palette(bg);
    let state = layers_seed(bg.seed);
    let avoid = bg.adapt_to_screenshots;
    let fan = fan_of(bg, chosen_corner(state, width, height, regions, avoid), width, height);
    &&& plan.base == base_of(base_seed(bg.seed), palette)
    &&& plan.fan == fan
    &&& plan.layers@ == layers_of(bg, palette, fan, after_corner(state, width, height, regions, avoid))
}

/// Plans a background for a canvas, around the regions that screenshots
/// cover. A canvas without an extent has none.
pub fn render(bg: &GeneratedBackground, width: Double, height: Double, regions: &[ScreenshotRegion]) -> (res: Option<ScenePlan>)
    requires
        bg.palette.len() <= 0x20_0000_0000_0000,
    ensures
        res is None <==> le(width, int_double(0)) || le(height, int_double(0)),
        res matches Some(plan) ==> is_scene(plan, bg@, width, height, regions@),
{
    if width.at_most(Double::zero()) || height.at_most(Double::zero()) {
        return None;
    }
    let mut rng = Rng::new(bg.seed);
    let mut fallback: Vec<Rgba> = Vec::new();
    fallback.push(light_gray());
    let palette: &Vec<Rgba> = if bg.palette.len() == 0 {
        &fallback
    } else {
        &bg.palette
    };
    proof {
        assert(palette@ =~= drawing_palette(bg@));
    }
    let mut base_rng = rng.fork(1);
    let base = base_fill(&mut base_rng, palette.as_slice());
    let mut layer_rng = rng.fork(2);
    let corner = choose_corner(&mut layer_rng, width, height, regions, bg.adapt_to_screenshots);
    let fan = wave_fan(bg, corner, width, height);
    let layers = wave_layers(&mut layer_rng, bg, palette.as_slice(), &fan);
    Some(ScenePlan { base, fan, layers })
}

/// The same background on the same canvas always gives the same plan.
pub proof fn law_scene_is_determined(a: ScenePlan, b: ScenePlan, bg: GeneratedBackgroundView, width: Double, height: Double, regions: Seq<ScreenshotRegion>)
    requires
        is_scene(a, bg, width, height, regions),
        is_scene(b, bg, width, height, regions),
    ensures
        a.base == b.base,
        a.fan == b.fan,
        a.layers@ == b.layers@,
{
}

/// Into how many pieces a layer's edge is cut.
pub const SEGMENTS: u64 = 24;

/// How far along a layer's edge a cut lies.
pub open spec fn cut_share(s: int) -> Double {
    quot(int_double(s), int_double(SEGMENTS as int))
}

/// The direction, in radians, of a cut of a layer's edge.
pub open spec fn cut_direction(base_angle: Double, sweep: Double, s: int) -> Double {
    sum(diff(base_angle, half(sweep)), prod(cut_share(s), sweep))
}

/// The direction, in radians, of a cut of a layer's edge.
pub fn cut_angle(base_angle: Double, sweep: Double, s: u64) -> (res: Double)
    ensures
        res == cut_direction(base_angle, sweep, s as int),
{
    let frac = Double::from_u64(s).over(Double::from_u64(SEGMENTS));
    base_angle.minus(halved(sweep)).plus(frac.times(sweep))
}

/// The angle whose sine is the wave's height at a cut.
pub open spec fn wave_turn(freq: Double, phase: Double, s: int) -> Double {
    sum(prod(prod(prod(cut_share(s), freq), pi()), int_double(2)), phase)
}

/// The angle whose sine is the wave's height at a cut.
pub fn wave_angle(fan: &WaveFan, layer: &WaveLayer, s: u64) -> (res: Double)
    ensures
        res == wave_turn(fan.freq, layer.phase, s as int),
{
    let frac = Double::from_u64(s).over(Double::from_u64(SEGMENTS));
    frac.times(fan.freq).times(Double::pi()).times(Double::from_int(2)).plus(layer.phase)
}

/// How far from the focus a layer's edge is where the wave has a height.
pub open spec fn edge_radius(layer: WaveLayer, wave: Double) -> Double {
    larger(sum(layer.radius, prod(wave, layer.amplitude)), int_double(1))
}

/// The point at a distance from the focus, in the direction of a cosine and a
/// sine.
pub open spec fn point_from(focus: Point, r: Double, cosine: Double, sine: Double) -> Point {
    Point { x: sum(focus.x, prod(cosine, r)), y: sum(focus.y, prod(sine, r)) }
}

/// The point of a layer's edge at a cut, from the wave's sine there and the
/// cosine and sine of the direction.
pub fn edge_point(fan: &WaveFan, layer: &WaveLayer, wave: Double, cosine: Double, sine: Double) -> (res: Point)
    ensures
        res == point_from(fan.focus, edge_radius(*layer, wave), cosine, sine),
{
    let r = layer.radius.plus(wave.times(layer.amplitude)).max(Double::one());
    Point { x: fan.focus.x.plus(cosine.times(r)), y: fan.focus.y.plus(sine.times(r)) }
}

} // verus!
