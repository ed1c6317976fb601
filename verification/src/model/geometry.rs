//! Colors, transforms, corner radii and shadows.
use crate::arith_laws::{lemma_int_double_number, lemma_round_units_exact, lemma_sum_val};
use crate::double::{diff, prod, quot, sum, Double};
use crate::order::{larger, le, lt, same};
use crate::whole::{int_double, ratio};
use vstd::prelude::*;

verus! {

/// A straight RGBA color, channels from zero to one.
#[derive(Clone, Copy, Debug, PartialEq)]
pub struct Rgba {
    pub r: Double,
    pub g: Double,
    pub b: Double,
    pub a: Double,
}

pub open spec fn opaque_white() -> Rgba {
    Rgba { r: int_double(1), g: int_double(1), b: int_double(1), a: int_double(1) }
}

pub open spec fn opaque_black() -> Rgba {
    Rgba { r: int_double(0), g: int_double(0), b: int_double(0), a: int_double(1) }
}

impl Rgba {
    pub fn new(r: Double, g: Double, b: Double, a: Double) -> (res: Rgba)
        ensures
            res == (Rgba { r, g, b, a }),
    {
        Rgba { r, g, b, a }
    }

    pub fn white() -> (res: Rgba)
        ensures
            res == opaque_white(),
    {
        Rgba { r: Double::one(), g: Double::one(), b: Double::one(), a: Double::one() }
    }

    pub fn black() -> (res: Rgba)
        ensures
            res == opaque_black(),
    {
        Rgba { r: Double::zero(), g: Double::zero(), b: Double::zero(), a: Double::one() }
    }
}

/// Position, size and rotation of a screenshot in document space.
#[derive(Clone, Copy, Debug, PartialEq)]
pub struct Transform {
    pub x: Double,
    pub y: Double,
    pub width: Double,
    pub height: Double,
    pub rotation_deg: Double,
    pub aspect_locked: bool,
    pub flip_horizontal: bool,
    pub flip_vertical: bool,
}

/// One of a transform's four resize handles. Resizing works on the unrotated
/// box.
#[derive(Clone, Copy, Debug, PartialEq, Eq, Structural)]
pub enum Corner {
    TopLeft,
    TopRight,
    BottomLeft,
    BottomRight,
}

impl Corner {
    /// Whether the corner is on the right-hand side.
    pub open spec fn right(self) -> bool {
        self == Corner::TopRight || self == Corner::BottomRight
    }

    /// Whether the corner is on the lower side.
    pub open spec fn bottom(self) -> bool {
        self == Corner::BottomLeft || self == Corner::BottomRight
    }
}

/// The smallest width or height that a resize produces.
pub open spec fn least_size() -> Double {
    int_double(20)
}

/// The extent of a side whose outer end moves by `d`: outward if `positive`.
pub open spec fn moved_extent(size: Double, positive: bool, d: Double) -> Double {
    larger(sum(size, prod(int_double(if positive { 1 } else { -1 }), d)), least_size())
}

/// What a side's ratio is taken against: the side itself, where it is positive.
pub open spec fn ratio_base(size: Double) -> Double {
    if lt(int_double(0), size) {
        size
    } else {
        least_size()
    }
}

/// The transform that results from dragging `corner` by `(dx, dy)` while the
/// opposite corner stays in place.
pub open spec fn resized(t: Transform, corner: Corner, dx: Double, dy: Double) -> Transform {
    let width = moved_extent(t.width, corner.right(), dx);
    let height = if t.aspect_locked {
        larger(prod(width, quot(t.height, ratio_base(t.width))), least_size())
    } else {
        moved_extent(t.height, corner.bottom(), dy)
    };
    Transform {
        x: if corner.right() {
            t.x
        } else {
            diff(sum(t.x, t.width), width)
        },
        y: if corner.bottom() {
            t.y
        } else {
            diff(sum(t.y, t.height), height)
        },
        width,
        height,
        ..t
    }
}

pub open spec fn default_transform() -> Transform {
    Transform {
        x: int_double(0),
        y: int_double(0),
        width: int_double(0),
        height: int_double(0),
        rotation_deg: int_double(0),
        aspect_locked: true,
        flip_horizontal: false,
        flip_vertical: false,
    }
}

impl Default for Transform {
    fn default() -> (res: Transform)
        ensures
            res == default_transform(),
    {
        Transform {
            x: Double::zero(),
            y: Double::zero(),
            width: Double::zero(),
            height: Double::zero(),
            rotation_deg: Double::zero(),
            aspect_locked: true,
            flip_horizontal: false,
            flip_vertical: false,
        }
    }
}

fn resize_extent(size: Double, positive: bool, d: Double) -> (res: Double)
    ensures
        res == moved_extent(size, positive, d),
{
    let sign: Double = Double::from_int(
        if positive {
            1
        } else {
            -1
        },
    );
    size.plus(sign.times(d)).max(Transform::min_size())
}

impl Transform {
    /// The smallest width or height that a resize produces, in document
    /// pixels.
    pub fn min_size() -> (res: Double)
        ensures
            res == least_size(),
    {
        Double::from_int(20)
    }

    /// The transform that results from dragging `corner` by `(dx, dy)`,
    /// keeping the opposite corner in place. With the aspect locked, the
    /// height follows the width and keeps its ratio to it.
    pub fn resized_from_corner(&self, corner: Corner, dx: Double, dy: Double) -> (res: Transform)
        ensures
            res == resized(*self, corner, dx, dy),
    {
        let right: bool = match corner {
            Corner::TopRight | Corner::BottomRight => true,
            Corner::TopLeft | Corner::BottomLeft => false,
        };
        let bottom: bool = match corner {
            Corner::BottomLeft | Corner::BottomRight => true,
            Corner::TopLeft | Corner::TopRight => false,
        };
        let width = resize_extent(self.width, right, dx);
        let height = if self.aspect_locked {
            let base = if Double::zero().less(self.width) {
                self.width
            } else {
                Transform::min_size()
            };
            width.times(self.height.over(base)).max(Transform::min_size())
        } else {
            resize_extent(self.height, bottom, dy)
        };
        let x = if right {
            self.x
        } else {
            self.x.plus(self.width).minus(width)
        };
        let y = if bottom {
            self.y
        } else {
            self.y.plus(self.height).minus(height)
        };
        Transform {
            x,
            y,
            width,
            height,
            rotation_deg: self.rotation_deg,
            aspect_locked: self.aspect_locked,
            flip_horizontal: self.flip_horizontal,
            flip_vertical: self.flip_vertical,
        }
    }
}

/// No resize makes a side shorter than the least size.
pub proof fn law_resize_keeps_least_size(t: Transform, corner: Corner, dx: Double, dy: Double)
    ensures
        le(least_size(), resized(t, corner, dx, dy).width),
        le(least_size(), resized(t, corner, dx, dy).height),
{
    lemma_least_size();
}

proof fn lemma_least_size()
    ensures
        !least_size().nan(),
{
    lemma_int_double_number(20);
}

/// A resize moves no edge that meets the opposite corner: dragging a right
/// corner keeps the left edge and dragging a lower corner keeps the upper one.
/// Rotation, lock and flips are untouched.
pub proof fn law_resize_keeps_near_edges(t: Transform, corner: Corner, dx: Double, dy: Double)
    ensures
        corner.right() ==> resized(t, corner, dx, dy).x == t.x,
        corner.bottom() ==> resized(t, corner, dx, dy).y == t.y,
        resized(t, corner, dx, dy).rotation_deg == t.rotation_deg,
        resized(t, corner, dx, dy).aspect_locked == t.aspect_locked,
        resized(t, corner, dx, dy).flip_horizontal == t.flip_horizontal,
        resized(t, corner, dx, dy).flip_vertical == t.flip_vertical,
{
}

/// A resize from a left corner keeps the right edge in place, and one from an
/// upper corner the lower edge, wherever the moved edge falls on a double.
pub proof fn law_resize_keeps_far_edges(t: Transform, corner: Corner, dx: Double, dy: Double)
    requires
        sum(t.x, t.width).finite(),
        sum(t.y, t.height).finite(),
        ({
            let r = resized(t, corner, dx, dy);
            &&& r.x.finite() && r.width.finite()
            &&& r.y.finite() && r.height.finite()
            &&& !corner.right() ==> r.x.val() == sum(t.x, t.width).val() - r.width.val()
            &&& !corner.bottom() ==> r.y.val() == sum(t.y, t.height).val() - r.height.val()
        }),
    ensures
        ({
            let r = resized(t, corner, dx, dy);
            &&& !corner.right() ==> same(sum(r.x, r.width), sum(t.x, t.width))
            &&& !corner.bottom() ==> same(sum(r.y, r.height), sum(t.y, t.height))
        }),
{
    let r = resized(t, corner, dx, dy);
    lemma_sum_val(r.x, r.width);
    lemma_sum_val(r.y, r.height);
    lemma_round_units_exact(sum(t.x, t.width));
    lemma_round_units_exact(sum(t.y, t.height));
}

/// Radius of each corner, in document pixels.
#[derive(Clone, Copy, Debug, PartialEq)]
pub struct CornerRadius {
    pub top_left: Double,
    pub top_right: Double,
    pub bottom_right: Double,
    pub bottom_left: Double,
}

pub open spec fn uniform_radius(radius: Double) -> CornerRadius {
    CornerRadius { top_left: radius, top_right: radius, bottom_right: radius, bottom_left: radius }
}

pub open spec fn no_radius() -> CornerRadius {
    uniform_radius(int_double(0))
}

impl CornerRadius {
    pub fn uniform(radius: Double) -> (res: CornerRadius)
        ensures
            res == uniform_radius(radius),
    {
        CornerRadius { top_left: radius, top_right: radius, bottom_right: radius, bottom_left: radius }
    }

    pub fn none() -> (res: CornerRadius)
        ensures
            res == no_radius(),
    {
        CornerRadius::uniform(Double::zero())
    }
}

impl Default for CornerRadius {
    fn default() -> (res: CornerRadius)
        ensures
            res == no_radius(),
    {
        CornerRadius::none()
    }
}

#[derive(Clone, Copy, Debug, PartialEq)]
pub struct ShadowParams {
    pub enabled: bool,
    pub offset_x: Double,
    pub offset_y: Double,
    pub blur: Double,
    pub opacity: Double,
    pub color: Rgba,
}

/// How strong a shadow is, without a direction.
#[derive(Clone, Copy, Debug, PartialEq)]
pub struct ShadowPreset {
    pub distance: Double,
    pub blur: Double,
    pub opacity: Double,
    pub color: Rgba,
}

/// A black preset with the opacity in hundredths.
pub open spec fn black_preset(distance: int, blur: int, hundredths: int) -> ShadowPreset {
    ShadowPreset {
        distance: int_double(distance),
        blur: int_double(blur),
        opacity: ratio(hundredths, 100),
        color: opaque_black(),
    }
}

/// A shadow that falls straight down as far as the preset says.
pub open spec fn falling(preset: ShadowPreset, enabled: bool) -> ShadowParams {
    ShadowParams {
        enabled,
        offset_x: int_double(0),
        offset_y: preset.distance,
        blur: preset.blur,
        opacity: preset.opacity,
        color: preset.color,
    }
}

pub open spec fn no_shadow() -> ShadowParams {
    ShadowParams {
        enabled: false,
        offset_x: int_double(0),
        offset_y: int_double(0),
        blur: int_double(0),
        opacity: int_double(0),
        color: opaque_black(),
    }
}

impl ShadowPreset {
    pub open spec fn paints(self) -> bool {
        lt(int_double(0), self.distance) || lt(int_double(0), self.blur) || lt(int_double(0), self.opacity)
    }

    fn black(distance: i64, blur: i64, hundredths: i64) -> (res: ShadowPreset)
        ensures
            res == black_preset(distance as int, blur as int, hundredths as int),
    {
        ShadowPreset {
            distance: Double::from_int(distance),
            blur: Double::from_int(blur),
            opacity: Double::ratio(hundredths, 100),
            color: Rgba::black(),
        }
    }

    pub fn none() -> (res: ShadowPreset)
        ensures
            res == (ShadowPreset {
                distance: int_double(0),
                blur: int_double(0),
                opacity: int_double(0),
                color: opaque_black(),
            }),
    {
        ShadowPreset {
            distance: Double::zero(),
            blur: Double::zero(),
            opacity: Double::zero(),
            color: Rgba::black(),
        }
    }

    pub fn subtle() -> (res: ShadowPreset)
        ensures
            res == black_preset(2, 8, 15),
    {
        ShadowPreset::black(2, 8, 15)
    }

    pub fn standard() -> (res: ShadowPreset)
        ensures
            res == black_preset(6, 16, 25),
    {
        ShadowPreset::black(6, 16, 25)
    }

    pub fn strong() -> (res: ShadowPreset)
        ensures
            res == black_preset(12, 28, 40),
    {
        ShadowPreset::black(12, 28, 40)
    }

    pub fn floating() -> (res: ShadowPreset)
        ensures
            res == black_preset(24, 40, 30),
    {
        ShadowPreset::black(24, 40, 30)
    }

    /// Whether a shadow of this preset paints anything.
    pub fn enabled(&self) -> (res: bool)
        ensures
            res == self.paints(),
    {
        let zero = Double::zero();
        zero.less(self.distance) || zero.less(self.blur) || zero.less(self.opacity)
    }
}

/// The circle's ratio, as a double.
pub open spec fn pi() -> Double {
    ratio(884279719003555, 281474976710656)
}

/// An angle in degrees, from zero up to, not including, a full turn, of an
/// angle in radians from minus a half turn to a half turn.
pub open spec fn turn_degrees(angle_rad: Double) -> Double {
    let degrees = prod(angle_rad, quot(int_double(180), pi()));
    if lt(degrees, int_double(0)) {
        let turned = sum(degrees, int_double(360));
        if same(turned, int_double(360)) {
            int_double(0)
        } else {
            turned
        }
    } else {
        degrees
    }
}

/// The offset of a shadow at a distance, in the direction of a cosine and a
/// sine.
pub open spec fn offset_along(cosine: Double, sine: Double, distance: Double) -> (Double, Double) {
    (prod(distance, cosine), prod(distance, sine))
}

/// A shadow with a preset's strength, cast in the direction of a cosine and a
/// sine.
pub open spec fn cast(preset: ShadowPreset, cosine: Double, sine: Double) -> ShadowParams {
    ShadowParams {
        enabled: preset.paints(),
        offset_x: offset_along(cosine, sine, preset.distance).0,
        offset_y: offset_along(cosine, sine, preset.distance).1,
        blur: preset.blur,
        opacity: preset.opacity,
        color: preset.color,
    }
}

/// An angle in degrees taken to radians.
pub open spec fn radians(angle_deg: Double) -> Double {
    prod(angle_deg, quot(pi(), int_double(180)))
}

impl Double {
    /// The circle's ratio.
    pub fn pi() -> (res: Double)
        ensures
            res == pi(),
    {
        Double::ratio(884279719003555, 281474976710656)
    }

    /// The angle in radians of an angle in degrees.
    pub fn to_radians(self) -> (res: Double)
        ensures
            res == radians(self),
    {
        self.times(Double::pi().over(Double::from_int(180)))
    }
}

impl ShadowParams {
    pub fn none() -> (res: ShadowParams)
        ensures
            res == no_shadow(),
    {
        ShadowParams {
            enabled: false,
            offset_x: Double::zero(),
            offset_y: Double::zero(),
            blur: Double::zero(),
            opacity: Double::zero(),
            color: Rgba::black(),
        }
    }

    fn cast_down(preset: ShadowPreset) -> (res: ShadowParams)
        ensures
            res == falling(preset, true),
    {
        ShadowParams {
            enabled: true,
            offset_x: Double::zero(),
            offset_y: preset.distance,
            blur: preset.blur,
            opacity: preset.opacity,
            color: preset.color,
        }
    }

    pub fn subtle() -> (res: ShadowParams)
        ensures
            res == falling(black_preset(2, 8, 15), true),
    {
        ShadowParams::cast_down(ShadowPreset::subtle())
    }

    pub fn standard() -> (res: ShadowParams)
        ensures
            res == falling(black_preset(6, 16, 25), true),
    {
        ShadowParams::cast_down(ShadowPreset::standard())
    }

    pub fn strong() -> (res: ShadowParams)
        ensures
            res == falling(black_preset(12, 28, 40), true),
    {
        ShadowParams::cast_down(ShadowPreset::strong())
    }

    pub fn floating() -> (res: ShadowParams)
        ensures
            res == falling(black_preset(24, 40, 30), true),
    {
        ShadowParams::cast_down(ShadowPreset::floating())
    }

    /// The direction in degrees (zero points right, ninety down; a full turn is
    /// zero again) and the distance, from the length of the offset and its angle in radians, as
    /// the two-argument arctangent gives it.
    pub fn angle_and_distance(&self, length: Double, angle_rad: Double) -> (res: (Double, Double))
        ensures
            res == (turn_degrees(angle_rad), length),
    {
        let degrees = angle_rad.times(Double::from_int(180).over(Double::pi()));
        let angle = if degrees.less(Double::zero()) {
            let turned = degrees.plus(Double::from_int(360));
            if turned.equals(Double::from_int(360)) {
                Double::zero()
            } else {
                turned
            }
        } else {
            degrees
        };
        (angle, length)
    }

    /// The offset of a shadow at a distance, in the direction whose cosine and
    /// sine are given.
    pub fn offset_for_angle_and_distance(cosine: Double, sine: Double, distance: Double) -> (res: (Double, Double))
        ensures
            res == offset_along(cosine, sine, distance),
    {
        (distance.times(cosine), distance.times(sine))
    }

    /// This shadow with the preset's distance, blur, opacity and color. The
    /// direction, whose cosine and sine are given, stays what it was.
    pub fn with_preset(&self, preset: ShadowPreset, cosine: Double, sine: Double) -> (res: ShadowParams)
        ensures
            res == cast(preset, cosine, sine),
    {
        let (offset_x, offset_y) = ShadowParams::offset_for_angle_and_distance(cosine, sine, preset.distance);
        ShadowParams {
            enabled: preset.enabled(),
            offset_x,
            offset_y,
            blur: preset.blur,
            opacity: preset.opacity,
            color: preset.color,
        }
    }
}

impl Default for ShadowParams {
    fn default() -> (res: ShadowParams)
        ensures
            res == no_shadow(),
    {
        ShadowParams::none()
    }
}

} // verus!
