//! When two values are equal. Numbers compare as numbers: the two zeros are
//! equal, and what is not a number equals nothing.
use crate::double::Double;
use crate::model::background::{GeneratedBackgroundView, GradientSpecView};
use crate::model::text::{TextBackgroundView, TextElementView, TypographyView};
use crate::model::{
    CornerRadius, GeneratedBackground, GradientKind, GradientSpec, Rgba, ShadowParams, TextBackground, TextElement,
    TextPosition, Transform, Typography,
};
use crate::order::same;
use vstd::prelude::*;

verus! {

pub open spec fn same_color(a: Rgba, b: Rgba) -> bool {
    same(a.r, b.r) && same(a.g, b.g) && same(a.b, b.b) && same(a.a, b.a)
}

pub open spec fn same_radius(a: CornerRadius, b: CornerRadius) -> bool {
    &&& same(a.top_left, b.top_left)
    &&& same(a.top_right, b.top_right)
    &&& same(a.bottom_right, b.bottom_right)
    &&& same(a.bottom_left, b.bottom_left)
}

pub open spec fn same_shadow(a: ShadowParams, b: ShadowParams) -> bool {
    &&& a.enabled == b.enabled
    &&& same(a.offset_x, b.offset_x)
    &&& same(a.offset_y, b.offset_y)
    &&& same(a.blur, b.blur)
    &&& same(a.opacity, b.opacity)
    &&& same_color(a.color, b.color)
}

pub open spec fn same_transform(a: Transform, b: Transform) -> bool {
    &&& same(a.x, b.x)
    &&& same(a.y, b.y)
    &&& same(a.width, b.width)
    &&& same(a.height, b.height)
    &&& same(a.rotation_deg, b.rotation_deg)
    &&& a.aspect_locked == b.aspect_locked
    &&& a.flip_horizontal == b.flip_horizontal
    &&& a.flip_vertical == b.flip_vertical
}

pub open spec fn same_kind(a: GradientKind, b: GradientKind) -> bool {
    match (a, b) {
        (GradientKind::Linear { angle_deg: x }, GradientKind::Linear { angle_deg: y }) => same(x, y),
        (
            GradientKind::Radial { center_x: ax, center_y: ay },
            GradientKind::Radial { center_x: bx, center_y: by },
        ) => same(ax, bx) && same(ay, by),
        _ => false,
    }
}

pub open spec fn same_stops(a: Seq<(Double, Rgba)>, b: Seq<(Double, Rgba)>) -> bool {
    &&& a.len() == b.len()
    &&& forall|i: int|
        #![trigger a[i]]
        #![trigger b[i]]
        0 <= i < a.len() ==> same(a[i].0, b[i].0) && same_color(a[i].1, b[i].1)
}

pub open spec fn same_gradient(a: GradientSpecView, b: GradientSpecView) -> bool {
    same_kind(a.kind, b.kind) && same_stops(a.stops, b.stops)
}

pub open spec fn same_colors(a: Seq<Rgba>, b: Seq<Rgba>) -> bool {
    &&& a.len() == b.len()
    &&& forall|i: int|
        #![trigger a[i]]
        #![trigger b[i]]
        0 <= i < a.len() ==> same_color(a[i], b[i])
}

pub open spec fn same_generated(a: GeneratedBackgroundView, b: GeneratedBackgroundView) -> bool {
    &&& a.seed == b.seed
    &&& a.color_strategy == b.color_strategy
    &&& same_colors(a.palette, b.palette)
    &&& a.adapt_to_screenshots == b.adapt_to_screenshots
    &&& same(a.inverse_contrast, b.inverse_contrast)
    &&& same(a.density, b.density)
    &&& same(a.flow, b.flow)
    &&& same(a.variation, b.variation)
    &&& same(a.contrast, b.contrast)
    &&& same(a.softness, b.softness)
    &&& same(a.corner_bias, b.corner_bias)
    &&& same(a.offset_x, b.offset_x)
    &&& same(a.offset_y, b.offset_y)
    &&& same(a.scale, b.scale)
}

pub open spec fn same_position(a: TextPosition, b: TextPosition) -> bool {
    match (a, b) {
        (
            TextPosition::Semantic { horizontal: ah, vertical: av, padding: ap },
            TextPosition::Semantic { horizontal: bh, vertical: bv, padding: bp },
        ) => ah == bh && av == bv && same(ap, bp),
        (TextPosition::Absolute { x: ax, y: ay }, TextPosition::Absolute { x: bx, y: by }) => same(ax, bx) && same(
            ay,
            by,
        ),
        _ => false,
    }
}

pub open spec fn same_typography(a: TypographyView, b: TypographyView) -> bool {
    &&& a.font_family == b.font_family
    &&& same(a.font_size, b.font_size)
    &&& a.weight == b.weight
    &&& a.italic == b.italic
    &&& same_color(a.color, b.color)
    &&& a.alignment == b.alignment
    &&& same(a.opacity, b.opacity)
    &&& same(a.letter_spacing, b.letter_spacing)
    &&& same(a.line_spacing, b.line_spacing)
    &&& a.wrap == b.wrap
}

pub open spec fn same_fill(a: TextBackgroundView, b: TextBackgroundView) -> bool {
    match (a, b) {
        (TextBackgroundView::Clear, TextBackgroundView::Clear) => true,
        (TextBackgroundView::Solid(x), TextBackgroundView::Solid(y)) => same_color(x, y),
        (TextBackgroundView::Gradient(x), TextBackgroundView::Gradient(y)) => same_gradient(x, y),
        _ => false,
    }
}

pub open spec fn same_text(a: TextElementView, b: TextElementView) -> bool {
    &&& a.enabled == b.enabled
    &&& a.content == b.content
    &&& same_position(a.position, b.position)
    &&& same_typography(a.typography, b.typography)
    &&& same_fill(a.background, b.background)
    &&& same_radius(a.corner_radius, b.corner_radius)
    &&& same(a.background_padding, b.background_padding)
    &&& same_shadow(a.shadow, b.shadow)
}

pub fn colors_equal(a: Rgba, b: Rgba) -> (res: bool)
    ensures
        res == same_color(a, b),
{
    a.r.equals(b.r) && a.g.equals(b.g) && a.b.equals(b.b) && a.a.equals(b.a)
}

pub fn radii_equal(a: CornerRadius, b: CornerRadius) -> (res: bool)
    ensures
        res == same_radius(a, b),
{
    a.top_left.equals(b.top_left) && a.top_right.equals(b.top_right) && a.bottom_right.equals(b.bottom_right)
        && a.bottom_left.equals(b.bottom_left)
}

pub fn shadows_equal(a: ShadowParams, b: ShadowParams) -> (res: bool)
    ensures
        res == same_shadow(a, b),
{
    a.enabled == b.enabled && a.offset_x.equals(b.offset_x) && a.offset_y.equals(b.offset_y) && a.blur.equals(b.blur)
        && a.opacity.equals(b.opacity) && colors_equal(a.color, b.color)
}

pub fn transforms_equal(a: Transform, b: Transform) -> (res: bool)
    ensures
        res == same_transform(a, b),
{
    a.x.equals(b.x) && a.y.equals(b.y) && a.width.equals(b.width) && a.height.equals(b.height)
        && a.rotation_deg.equals(b.rotation_deg) && a.aspect_locked == b.aspect_locked && a.flip_horizontal
        == b.flip_horizontal && a.flip_vertical == b.flip_vertical
}

fn kinds_equal(a: GradientKind, b: GradientKind) -> (res: bool)
    ensures
        res == same_kind(a, b),
{
    match (a, b) {
        (GradientKind::Linear { angle_deg: x }, GradientKind::Linear { angle_deg: y }) => x.equals(y),
        (
            GradientKind::Radial { center_x: ax, center_y: ay },
            GradientKind::Radial { center_x: bx, center_y: by },
        ) => ax.equals(bx) && ay.equals(by),
        _ => false,
    }
}

pub fn gradients_equal(a: &GradientSpec, b: &GradientSpec) -> (res: bool)
    ensures
        res == same_gradient(a@, b@),
{
    if !kinds_equal(a.kind, b.kind) || a.stops.len() != b.stops.len() {
        return false;
    }
    let mut i: usize = 0;
    while i < a.stops.len()
        invariant
            i <= a.stops.len(),
            a.stops.len() == b.stops.len(),
            same_kind(a.kind, b.kind),
            forall|k: int|
                #![trigger a.stops@[k]]
                #![trigger b.stops@[k]]
                0 <= k < i ==> same(a.stops@[k].0, b.stops@[k].0) && same_color(a.stops@[k].1, b.stops@[k].1),
        decreases a.stops.len() - i,
    {
        let (at, color) = a.stops[i];
        let (other_at, other_color) = b.stops[i];
        if !at.equals(other_at) || !colors_equal(color, other_color) {
            proof {
                assert(!same_stops(a.stops@, b.stops@)) by {
                    assert(a.stops@[i as int] == (at, color));
                }
            }
            return false;
        }
        i = i + 1;
    }
    true
}

pub fn palettes_equal(a: &Vec<Rgba>, b: &Vec<Rgba>) -> (res: bool)
    ensures
        res == same_colors(a@, b@),
{
    if a.len() != b.len() {
        return false;
    }
    let mut i: usize = 0;
    while i < a.len()
        invariant
            i <= a.len(),
            a.len() == b.len(),
            forall|k: int|
                #![trigger a@[k]]
                #![trigger b@[k]]
                0 <= k < i ==> same_color(a@[k], b@[k]),
        decreases a.len() - i,
    {
        if !colors_equal(a[i], b[i]) {
            return false;
        }
        i = i + 1;
    }
    true
}

pub fn generated_equal(a: &GeneratedBackground, b: &GeneratedBackground) -> (res: bool)
    ensures
        res == same_generated(a@, b@),
{
    a.seed == b.seed && a.color_strategy == b.color_strategy && palettes_equal(&a.palette, &b.palette)
        && a.adapt_to_screenshots == b.adapt_to_screenshots && a.inverse_contrast.equals(b.inverse_contrast)
        && a.density.equals(b.density) && a.flow.equals(b.flow) && a.variation.equals(b.variation)
        && a.contrast.equals(b.contrast) && a.softness.equals(b.softness) && a.corner_bias.equals(b.corner_bias)
        && a.offset_x.equals(b.offset_x) && a.offset_y.equals(b.offset_y) && a.scale.equals(b.scale)
}

fn positions_equal(a: TextPosition, b: TextPosition) -> (res: bool)
    ensures
        res == same_position(a, b),
{
    match (a, b) {
        (
            TextPosition::Semantic { horizontal: ah, vertical: av, padding: ap },
            TextPosition::Semantic { horizontal: bh, vertical: bv, padding: bp },
        ) => ah == bh && av == bv && ap.equals(bp),
        (TextPosition::Absolute { x: ax, y: ay }, TextPosition::Absolute { x: bx, y: by }) => ax.equals(bx)
            && ay.equals(by),
        _ => false,
    }
}

fn typographies_equal(a: &Typography, b: &Typography) -> (res: bool)
    ensures
        res == same_typography(a@, b@),
{
    a.font_family == b.font_family && a.font_size.equals(b.font_size) && a.weight == b.weight && a.italic == b.italic
        && colors_equal(a.color, b.color) && a.alignment == b.alignment && a.opacity.equals(b.opacity)
        && a.letter_spacing.equals(b.letter_spacing) && a.line_spacing.equals(b.line_spacing) && a.wrap == b.wrap
}

fn fills_equal(a: &TextBackground, b: &TextBackground) -> (res: bool)
    ensures
        res == same_fill(a@, b@),
{
    match (a, b) {
        (TextBackground::Clear, TextBackground::Clear) => true,
        (TextBackground::Solid(x), TextBackground::Solid(y)) => colors_equal(*x, *y),
        (TextBackground::Gradient(x), TextBackground::Gradient(y)) => gradients_equal(x, y),
        _ => false,
    }
}

pub fn texts_equal(a: &TextElement, b: &TextElement) -> (res: bool)
    ensures
        res == same_text(a@, b@),
{
    a.enabled == b.enabled && a.content == b.content && positions_equal(a.position, b.position)
        && typographies_equal(&a.typography, &b.typography) && fills_equal(&a.background, &b.background)
        && radii_equal(a.corner_radius, b.corner_radius) && a.background_padding.equals(b.background_padding)
        && shadows_equal(a.shadow, b.shadow)
}

} // verus!
