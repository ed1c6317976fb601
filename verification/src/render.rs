//! What a composition looks like: every measure, color and decision that
//! drawing it takes, for a preview and for a full-resolution export alike.
use crate::arith_laws::lemma_int_double_exact;
use crate::double::{diff, opposite, prod, quot, sum, UNIT_EXP, Double};
use crate::generator::{self, half, is_scene, Point, ScenePlan, ScreenshotRegion};
use crate::layout::{current_layout, placements_of, visible_elements, visible_of, Placement};
use crate::model::background::{copied, BackgroundView};
use crate::model::document::{views, DocumentView, ScreenshotElementView};
use crate::model::geometry::radians;
use crate::model::text::{wrap_room, TextElementView};
use crate::model::{
    Background, BackgroundImageFit, CornerRadius, Document, GradientKind, Rgba, ScreenshotElement, ShadowParams,
    TextElement,
};
use crate::order::{larger, le, lt, same, smaller};
use crate::palette::share;
use crate::shadow_cache::MAX_SHADOW_SURFACE_DIM;
use crate::whole::{clip, int_double, ratio, whole, Rounding};
use vstd::prelude::*;

verus! {

/// Why a composition cannot be drawn.
#[derive(Clone, Copy, Debug, PartialEq, Eq, Structural)]
pub enum RenderError {
    /// A visible screenshot has no decoded image.
    MissingImage(u128),
    /// The background is an image that was not decoded.
    MissingBackgroundImage,
}

/// The size of a screenshot's decoded image.
#[derive(Clone, Copy, Debug, PartialEq, Eq, Structural)]
pub struct ImageSize {
    pub id: u128,
    pub width: i32,
    pub height: i32,
}

// ---------------------------------------------------------------------------
// Rounded rectangles
// ---------------------------------------------------------------------------

/// A corner's arc: its middle and its radius.
#[derive(Clone, Copy, Debug, PartialEq)]
pub struct Arc {
    pub x: Double,
    pub y: Double,
    pub radius: Double,
}

/// The four arcs of a rounded rectangle at the origin, clockwise from the
/// upper right one.
#[derive(Clone, Copy, Debug, PartialEq)]
pub struct RoundedRect {
    pub top_right: Arc,
    pub bottom_right: Arc,
    pub bottom_left: Arc,
    pub top_left: Arc,
}

/// A radius that fits into a box: not negative, and no more than half of
/// either side.
pub open spec fn fitted_radius(r: Double, w: Double, h: Double) -> Double {
    smaller(smaller(larger(r, int_double(0)), half(w)), half(h))
}

pub open spec fn rounded_rect_of(w: Double, h: Double, r: CornerRadius) -> RoundedRect {
    let tl = fitted_radius(r.top_left, w, h);
    let tr = fitted_radius(r.top_right, w, h);
    let br = fitted_radius(r.bottom_right, w, h);
    let bl = fitted_radius(r.bottom_left, w, h);
    RoundedRect {
        top_right: Arc { x: diff(w, tr), y: tr, radius: tr },
        bottom_right: Arc { x: diff(w, br), y: diff(h, br), radius: br },
        bottom_left: Arc { x: bl, y: diff(h, bl), radius: bl },
        top_left: Arc { x: tl, y: tl, radius: tl },
    }
}

fn halved(v: Double) -> (res: Double)
    ensures
        res == half(v),
{
    v.over(Double::from_int(2))
}

fn fit_radius(r: Double, w: Double, h: Double) -> (res: Double)
    ensures
        res == fitted_radius(r, w, h),
{
    r.max(Double::zero()).min(halved(w)).min(halved(h))
}

/// The arcs of a rounded rectangle of `w` by `h`.
pub fn rounded_rect_path(w: Double, h: Double, r: &CornerRadius) -> (res: RoundedRect)
    ensures
        res == rounded_rect_of(w, h, *r),
{
    let tl = fit_radius(r.top_left, w, h);
    let tr = fit_radius(r.top_right, w, h);
    let br = fit_radius(r.bottom_right, w, h);
    let bl = fit_radius(r.bottom_left, w, h);
    RoundedRect {
        top_right: Arc { x: w.minus(tr), y: tr, radius: tr },
        bottom_right: Arc { x: w.minus(br), y: h.minus(br), radius: br },
        bottom_left: Arc { x: bl, y: h.minus(bl), radius: bl },
        top_left: Arc { x: tl, y: tl, radius: tl },
    }
}

/// No corner is rounded by more than half of either side.
pub proof fn law_corners_fit_into_the_box(r: Double, w: Double, h: Double)
    requires
        !half(w).nan(),
        !half(h).nan(),
    ensures
        le(fitted_radius(r, w, h), half(w)),
        le(fitted_radius(r, w, h), half(h)),
{
    lemma_int_double_exact(0);
}

// ---------------------------------------------------------------------------
// Shadows
// ---------------------------------------------------------------------------

/// The scale that a shadow bitmap is rendered at: the output's, reduced so
/// that the longer side does not exceed the greatest bitmap.
pub open spec fn bitmap_scale(width: Double, height: Double, scale: Double) -> Double {
    let zero = int_double(0);
    if le(width, zero) || le(height, zero) || le(scale, zero) {
        larger(scale, zero)
    } else {
        let longest = prod(larger(width, height), scale);
        let most = int_double(MAX_SHADOW_SURFACE_DIM as int);
        if le(longest, most) {
            scale
        } else {
            prod(scale, quot(most, longest))
        }
    }
}

/// The scale that a shadow bitmap is rendered at.
pub fn shadow_render_scale(width: Double, height: Double, scale: Double) -> (res: Double)
    ensures
        res == bitmap_scale(width, height, scale),
{
    let zero = Double::zero();
    if width.at_most(zero) || height.at_most(zero) || scale.at_most(zero) {
        return scale.max(zero);
    }
    let longest = width.max(height).times(scale);
    let most = Double::from_int(MAX_SHADOW_SURFACE_DIM as i64);
    if longest.at_most(most) {
        scale
    } else {
        scale.times(most.over(longest))
    }
}

/// The margin around a shadow bitmap's shape, in pixels: room for what three
/// blur passes spread.
pub open spec fn blur_margin(blur: Double, render_scale: Double) -> int {
    clip(
        whole(
            sum(prod(larger(prod(blur, render_scale), int_double(0)), int_double(3)), int_double(4)),
            Rounding::Up,
        ),
        i32::MIN as int,
        i32::MAX as int,
    )
}

/// The margin around a shadow bitmap's shape, in pixels.
pub fn shadow_pad(blur: Double, render_scale: Double) -> (res: i32)
    ensures
        res == blur_margin(blur, render_scale),
{
    blur.times(render_scale).max(Double::zero()).times(Double::from_int(3)).plus(Double::from_int(4)).to_int(
        Rounding::Up,
        i32::MIN as i128,
        i32::MAX as i128,
    ) as i32
}

/// A side of a shadow bitmap, in pixels.
pub open spec fn bitmap_side(side: Double, blur: Double, render_scale: Double) -> int {
    let n = clip(whole(prod(side, render_scale), Rounding::Up), i32::MIN as int, i32::MAX as int) + 2 * blur_margin(
        blur,
        render_scale,
    );
    if n < 1 {
        1
    } else {
        n
    }
}

fn bitmap_side_of(side: Double, blur: Double, render_scale: Double) -> (res: i64)
    ensures
        res == bitmap_side(side, blur, render_scale),
{
    let pad: i64 = shadow_pad(blur, render_scale) as i64;
    let n: i64 = side.times(render_scale).to_int(Rounding::Up, i32::MIN as i128, i32::MAX as i128) as i64 + 2 * pad;
    if n < 1 {
        1
    } else {
        n
    }
}

/// Everything that drawing a shadow takes.
#[derive(Clone, Copy, Debug, PartialEq)]
pub struct ShadowPlan {
    pub render_scale: Double,
    pub pad: i32,
    /// The bitmap's size. It does not fit into a bitmap at all if it is
    /// greater than what 32 bits hold.
    pub surface_width: i64,
    pub surface_height: i64,
    pub alpha: Double,
    /// The radius to blur with, if at all.
    pub blur_radius: Option<Double>,
    /// The factor that takes the bitmap back to document space.
    pub paint_scale: Double,
    pub paint_x: Double,
    pub paint_y: Double,
}

pub open spec fn shadow_plan_of(width: Double, height: Double, shadow: ShadowParams, scale: Double) -> ShadowPlan {
    let render_scale = bitmap_scale(width, height, scale);
    let pad = blur_margin(shadow.blur, render_scale);
    ShadowPlan {
        render_scale,
        pad: pad as i32,
        surface_width: bitmap_side(width, shadow.blur, render_scale) as i64,
        surface_height: bitmap_side(height, shadow.blur, render_scale) as i64,
        alpha: prod(shadow.color.a, shadow.opacity),
        blur_radius: if lt(int_double(0), shadow.blur) {
            Some(prod(shadow.blur, render_scale))
        } else {
            None
        },
        paint_scale: quot(int_double(1), render_scale),
        paint_x: diff(prod(shadow.offset_x, render_scale), int_double(pad)),
        paint_y: diff(prod(shadow.offset_y, render_scale), int_double(pad)),
    }
}

/// The plan of a shadow of a `width` by `height` shape. The bitmap holds the
/// shape unshifted; the offset only moves it when it is painted.
pub fn plan_shadow(width: Double, height: Double, shadow: &ShadowParams, scale: Double) -> (res: ShadowPlan)
    ensures
        res == shadow_plan_of(width, height, *shadow, scale),
{
    let render_scale = shadow_render_scale(width, height, scale);
    let pad: i32 = shadow_pad(shadow.blur, render_scale);
    let pad_length = Double::from_int(pad as i64);
    ShadowPlan {
        render_scale,
        pad,
        surface_width: bitmap_side_of(width, shadow.blur, render_scale),
        surface_height: bitmap_side_of(height, shadow.blur, render_scale),
        alpha: shadow.color.a.times(shadow.opacity),
        blur_radius: if Double::zero().less(shadow.blur) {
            Some(shadow.blur.times(render_scale))
        } else {
            None
        },
        paint_scale: Double::one().over(render_scale),
        paint_x: shadow.offset_x.times(render_scale).minus(pad_length),
        paint_y: shadow.offset_y.times(render_scale).minus(pad_length),
    }
}

/// Moving a shadow changes where its bitmap is painted, and nothing of the
/// bitmap itself.
pub proof fn law_offset_only_moves_the_bitmap(
    width: Double,
    height: Double,
    shadow: ShadowParams,
    scale: Double,
    offset_x: Double,
    offset_y: Double,
)
    ensures
        ({
            let a = shadow_plan_of(width, height, shadow, scale);
            let b = shadow_plan_of(width, height, ShadowParams { offset_x, offset_y, ..shadow }, scale);
            a == (ShadowPlan { paint_x: a.paint_x, paint_y: a.paint_y, ..b })
        }),
{
}

// ---------------------------------------------------------------------------
// Gradients and backgrounds
// ---------------------------------------------------------------------------

/// Where a gradient runs.
#[derive(Clone, Copy, Debug, PartialEq)]
pub enum GradientShape {
    /// Across the box, at an angle in radians.
    Linear { angle: Double },
    Radial { x: Double, y: Double, radius: Double },
}

pub open spec fn gradient_shape(kind: GradientKind, width: Double, height: Double) -> GradientShape {
    match kind {
        GradientKind::Linear { angle_deg } => GradientShape::Linear { angle: radians(angle_deg) },
        GradientKind::Radial { center_x, center_y } => GradientShape::Radial {
            x: prod(center_x, width),
            y: prod(center_y, height),
            radius: half(larger(width, height)),
        },
    }
}

/// Where a gradient runs in a box.
pub fn paint_gradient(kind: GradientKind, width: Double, height: Double) -> (res: GradientShape)
    ensures
        res == gradient_shape(kind, width, height),
{
    match kind {
        GradientKind::Linear { angle_deg } => GradientShape::Linear { angle: angle_deg.to_radians() },
        GradientKind::Radial { center_x, center_y } => GradientShape::Radial {
            x: center_x.times(width),
            y: center_y.times(height),
            radius: halved(width.max(height)),
        },
    }
}

/// How an image is laid onto a canvas.
#[derive(Clone, Copy, Debug, PartialEq)]
pub enum ImageLayout {
    /// Moved, then scaled.
    Placed { x: Double, y: Double, scale_x: Double, scale_y: Double },
    /// Repeated at its own size.
    Tiled,
}

/// An image scaled by one factor and centered.
pub open spec fn centered(width: Double, height: Double, img_w: Double, img_h: Double, s: Double) -> ImageLayout {
    ImageLayout::Placed {
        x: half(diff(width, prod(img_w, s))),
        y: half(diff(height, prod(img_h, s))),
        scale_x: s,
        scale_y: s,
    }
}

pub open spec fn image_layout(fit: BackgroundImageFit, width: Double, height: Double, img_w: Double, img_h: Double) -> ImageLayout {
    let (sx, sy) = (quot(width, img_w), quot(height, img_h));
    match fit {
        BackgroundImageFit::Cover => centered(width, height, img_w, img_h, larger(sx, sy)),
        BackgroundImageFit::Contain => centered(width, height, img_w, img_h, smaller(sx, sy)),
        BackgroundImageFit::Fill => ImageLayout::Placed {
            x: int_double(0),
            y: int_double(0),
            scale_x: sx,
            scale_y: sy,
        },
        BackgroundImageFit::Tile => ImageLayout::Tiled,
    }
}

fn center_image(width: Double, height: Double, img_w: Double, img_h: Double, s: Double) -> (res: ImageLayout)
    ensures
        res == centered(width, height, img_w, img_h, s),
{
    ImageLayout::Placed {
        x: halved(width.minus(img_w.times(s))),
        y: halved(height.minus(img_h.times(s))),
        scale_x: s,
        scale_y: s,
    }
}

/// How an image of `img_w` by `img_h` is laid onto a canvas.
pub fn lay_image(fit: BackgroundImageFit, width: Double, height: Double, img_w: Double, img_h: Double) -> (res: ImageLayout)
    ensures
        res == image_layout(fit, width, height, img_w, img_h),
{
    let sx = width.over(img_w);
    let sy = height.over(img_h);
    match fit {
        BackgroundImageFit::Cover => center_image(width, height, img_w, img_h, sx.max(sy)),
        BackgroundImageFit::Contain => center_image(width, height, img_w, img_h, sx.min(sy)),
        BackgroundImageFit::Fill => ImageLayout::Placed {
            x: Double::zero(),
            y: Double::zero(),
            scale_x: sx,
            scale_y: sy,
        },
        BackgroundImageFit::Tile => ImageLayout::Tiled,
    }
}

/// A covering image is scaled by no less in either direction than it takes to
/// reach the far edge, and a contained one by no more.
pub proof fn law_cover_fills_and_contain_fits(width: Double, height: Double, img_w: Double, img_h: Double)
    requires
        !quot(width, img_w).nan(),
        !quot(height, img_h).nan(),
    ensures
        image_layout(BackgroundImageFit::Cover, width, height, img_w, img_h) matches ImageLayout::Placed {
            scale_x,
            scale_y,
            ..
        } && scale_x == scale_y && le(quot(width, img_w), scale_x) && le(quot(height, img_h), scale_y),
        image_layout(BackgroundImageFit::Contain, width, height, img_w, img_h) matches ImageLayout::Placed {
            scale_x,
            scale_y,
            ..
        } && scale_x == scale_y && le(scale_x, quot(width, img_w)) && le(scale_y, quot(height, img_h)),
{
}

/// Everything that drawing the background takes.
#[derive(Debug, PartialEq)]
pub enum BackgroundPlan {
    Solid(Rgba),
    Gradient { shape: GradientShape, stops: Vec<(Double, Rgba)> },
    /// Nothing is drawn for an image without pixels.
    Image { layout: Option<ImageLayout>, opacity: Double },
    Generated(Option<ScenePlan>),
}

/// Whether a plan is that of a background, given the size of its decoded
/// image.
pub open spec fn is_background_plan(
    plan: BackgroundPlan,
    background: BackgroundView,
    width: Double,
    height: Double,
    image: Option<(i32, i32)>,
    regions: Seq<ScreenshotRegion>,
) -> bool {
    match (background, plan) {
        (BackgroundView::Solid(color), BackgroundPlan::Solid(c)) => c == color,
        (BackgroundView::Gradient(spec), BackgroundPlan::Gradient { shape, stops }) => shape == gradient_shape(
            spec.kind,
            width,
            height,
        ) && stops@ == spec.stops,
        (BackgroundView::Image(spec), BackgroundPlan::Image { layout, opacity }) => {
            &&& opacity == spec.opacity
            &&& image matches Some((w, h)) && layout == if w > 0 && h > 0 {
                Some(image_layout(spec.fit, width, height, int_double(w as int), int_double(h as int)))
            } else {
                None
            }
        },
        (BackgroundView::Generated(bg), BackgroundPlan::Generated(scene)) => {
            &&& scene is None <==> le(width, int_double(0)) || le(height, int_double(0))
            &&& scene matches Some(s) ==> is_scene(s, bg, width, height, regions)
        },
        _ => false,
    }
}

/// Whether a palette is of a size that positions along it can be told apart.
pub open spec fn palette_fits(background: BackgroundView) -> bool {
    background matches BackgroundView::Generated(bg) ==> bg.palette.len() <= 0x20_0000_0000_0000
}

/// The plan of the background. `image` is the size of the decoded background
/// image, which only an image background needs.
pub fn draw_background(
    background: &Background,
    width: Double,
    height: Double,
    image: Option<(i32, i32)>,
    regions: &[ScreenshotRegion],
) -> (res: Result<BackgroundPlan, RenderError>)
    requires
        palette_fits(background@),
    ensures
        match res {
            Ok(plan) => is_background_plan(plan, background@, width, height, image, regions@),
            Err(e) => e == RenderError::MissingBackgroundImage,
        },
        res is Err <==> background@ is Image && image is None,
{
    match background {
        Background::Solid(color) => Ok(BackgroundPlan::Solid(*color)),
        Background::Gradient(spec) => Ok(
            BackgroundPlan::Gradient {
                shape: paint_gradient(spec.kind, width, height),
                stops: copied(&spec.stops),
            },
        ),
        Background::Image(spec) => match image {
            Some((w, h)) => {
                let layout = if w > 0 && h > 0 {
                    Some(lay_image(spec.fit, width, height, Double::from_int(w as i64), Double::from_int(h as i64)))
                } else {
                    None
                };
                Ok(BackgroundPlan::Image { layout, opacity: spec.opacity })
            },
            None => Err(RenderError::MissingBackgroundImage),
        },
        Background::Generated(bg) => Ok(BackgroundPlan::Generated(generator::render(bg, width, height, regions))),
    }
}

// ---------------------------------------------------------------------------
// Texts
// ---------------------------------------------------------------------------

/// The text engine's units in a pixel.
pub const TEXT_UNITS: i64 = 1024;

/// What a text is set with.
#[derive(Clone, Copy, Debug, PartialEq)]
pub struct TextSetting {
    /// In the text engine's units.
    pub font_size: Double,
    pub line_spacing: Double,
    /// In the text engine's units; none is left to the engine.
    pub letter_spacing: Option<i32>,
    /// In the text engine's units; without it lines are not broken.
    pub wrap_width: Option<i32>,
}

/// A length in the text engine's units, cut to a whole number.
pub open spec fn text_units(v: Double) -> i32 {
    clip(whole(prod(v, int_double(TEXT_UNITS as int)), Rounding::Truncate), i32::MIN as int, i32::MAX as int) as i32
}

pub open spec fn text_setting_of(text: TextElementView, ref_w: Double) -> TextSetting {
    let least = ratio(1, 10);
    TextSetting {
        font_size: prod(larger(text.typography.font_size, least), int_double(TEXT_UNITS as int)),
        line_spacing: larger(text.typography.line_spacing, least),
        letter_spacing: if same(text.typography.letter_spacing, int_double(0)) {
            None
        } else {
            Some(text_units(text.typography.letter_spacing))
        },
        wrap_width: if text.typography.wrap {
            Some(text_units(wrap_room(text.position, ref_w)))
        } else {
            None
        },
    }
}

fn to_text_units(v: Double) -> (res: i32)
    ensures
        res == text_units(v),
{
    v.times(Double::from_int(TEXT_UNITS)).to_int(Rounding::Truncate, i32::MIN as i128, i32::MAX as i128) as i32
}

/// What a text in a reference rectangle of a width is set with.
pub fn text_setting(text: &TextElement, ref_w: Double) -> (res: TextSetting)
    ensures
        res == text_setting_of(text@, ref_w),
{
    let least = Double::ratio(1, 10);
    TextSetting {
        font_size: text.typography.font_size.max(least).times(Double::from_int(TEXT_UNITS)),
        line_spacing: text.typography.line_spacing.max(least),
        letter_spacing: if text.typography.letter_spacing.equals(Double::zero()) {
            None
        } else {
            Some(to_text_units(text.typography.letter_spacing))
        },
        wrap_width: if text.typography.wrap {
            Some(to_text_units(text.wrap_width(ref_w)))
        } else {
            None
        },
    }
}

/// Where a text's box goes and what it holds.
#[derive(Clone, Copy, Debug, PartialEq)]
pub struct TextBox {
    pub x: Double,
    pub y: Double,
    pub width: Double,
    pub height: Double,
    /// The gap between the box and the text.
    pub padding: Double,
    pub alpha: Double,
    pub shadow: Option<ShadowPlan>,
}

pub open spec fn text_box_of(text: TextElementView, ref_w: Double, ref_h: Double, content_w: int, content_h: int, scale: Double) -> TextBox {
    let gap = prod(int_double(2), text.background_padding);
    let width = sum(int_double(content_w), gap);
    let height = sum(int_double(content_h), gap);
    let origin = text.position.origin(ref_w, ref_h, width, height);
    TextBox {
        x: origin.0,
        y: origin.1,
        width,
        height,
        padding: text.background_padding,
        alpha: prod(text.typography.color.a, share(text.typography.opacity)),
        shadow: if text.shadow.enabled {
            Some(shadow_plan_of(width, height, text.shadow, scale))
        } else {
            None
        },
    }
}

/// Whether a text is drawn at all.
pub open spec fn is_drawn(text: TextElementView) -> bool {
    text.enabled && text.content.len() > 0
}

/// Whether a text is drawn at all: it is enabled and says something.
pub fn draws_text(text: &TextElement) -> (res: bool)
    ensures
        res == is_drawn(text@),
{
    text.enabled && !text.content.as_str().is_empty()
}

/// The box of a text, if it is drawn.
pub open spec fn drawn_box(
    text: TextElementView,
    ref_w: Double,
    ref_h: Double,
    content_w: int,
    content_h: int,
    scale: Double,
) -> Option<TextBox> {
    if is_drawn(text) {
        Some(text_box_of(text, ref_w, ref_h, content_w, content_h, scale))
    } else {
        None
    }
}

/// The box of a text whose set lines measure `content_w` by `content_h`; none
/// where the text is disabled or empty and nothing is drawn.
pub fn draw_text_element(
    text: &TextElement,
    ref_w: Double,
    ref_h: Double,
    content_w: i32,
    content_h: i32,
    scale: Double,
) -> (res: Option<TextBox>)
    ensures
        res == drawn_box(text@, ref_w, ref_h, content_w as int, content_h as int, scale),
{
    if !draws_text(text) {
        return None;
    }
    let gap = Double::from_int(2).times(text.background_padding);
    let width = Double::from_int(content_w as i64).plus(gap);
    let height = Double::from_int(content_h as i64).plus(gap);
    let (x, y) = text.position.resolve_box_origin(ref_w, ref_h, width, height);
    proof {
        lemma_int_double_exact(0);
        lemma_int_double_exact(1);
        vstd::arithmetic::power2::lemma_pow2_pos(UNIT_EXP as nat);
    }
    let opacity = text.typography.opacity.clamp(Double::zero(), Double::one());
    Some(
        TextBox {
            x,
            y,
            width,
            height,
            padding: text.background_padding,
            alpha: text.typography.color.a.times(opacity),
            shadow: if text.shadow.enabled {
                Some(plan_shadow(width, height, &text.shadow, scale))
            } else {
                None
            },
        },
    )
}

// ---------------------------------------------------------------------------
// Compositions
// ---------------------------------------------------------------------------

/// Everything that drawing one screenshot takes, in the order of drawing: move
/// to the middle, turn, move back by half, cast the shadow, clip to the
/// rounded box, mirror, scale the image, and draw the label.
#[derive(Clone, Copy, Debug, PartialEq)]
pub struct ElementPlan {
    pub id: u128,
    pub width: Double,
    pub height: Double,
    pub middle: Point,
    pub rotation: Double,
    pub corner: Point,
    pub shadow: Option<ShadowPlan>,
    pub outline: RoundedRect,
    /// Where the image is moved before it is mirrored, in each direction.
    pub flip_x: Option<Double>,
    pub flip_y: Option<Double>,
    pub image_scale_x: Double,
    pub image_scale_y: Double,
    pub label: bool,
}

pub open spec fn element_plan_of(e: ScreenshotElementView, p: Placement, size: ImageSize, scale: Double) -> ElementPlan {
    ElementPlan {
        id: e.id,
        width: p.width,
        height: p.height,
        middle: Point { x: sum(p.x, half(p.width)), y: sum(p.y, half(p.height)) },
        rotation: radians(e.transform.rotation_deg),
        corner: Point { x: half(opposite(p.width)), y: half(opposite(p.height)) },
        shadow: if e.shadow.enabled {
            Some(shadow_plan_of(p.width, p.height, e.shadow, scale))
        } else {
            None
        },
        outline: rounded_rect_of(p.width, p.height, e.corner_radius),
        flip_x: if e.transform.flip_horizontal {
            Some(p.width)
        } else {
            None
        },
        flip_y: if e.transform.flip_vertical {
            Some(p.height)
        } else {
            None
        },
        image_scale_x: quot(p.width, int_double(size.width as int)),
        image_scale_y: quot(p.height, int_double(size.height as int)),
        label: is_drawn(e.label),
    }
}

/// Whether `i` is the first size under an id.
pub open spec fn is_size_at(sizes: Seq<ImageSize>, id: u128, i: int) -> bool {
    &&& 0 <= i < sizes.len()
    &&& sizes[i].id == id
    &&& forall|j: int| 0 <= j < i ==> (#[trigger] sizes[j]).id != id
}

/// Whether an image was decoded for an id.
pub open spec fn is_decoded(sizes: Seq<ImageSize>, id: u128) -> bool {
    exists|i: int| is_size_at(sizes, id, i)
}

/// The size of the image of an id.
pub open spec fn decoded_size(sizes: Seq<ImageSize>, id: u128) -> ImageSize {
    sizes[choose|i: int| is_size_at(sizes, id, i)]
}

fn find_size(sizes: &[ImageSize], id: u128) -> (res: Option<ImageSize>)
    ensures
        res is None <==> !is_decoded(sizes@, id),
        res matches Some(size) ==> size == decoded_size(sizes@, id),
{
    let mut i: usize = 0;
    while i < sizes.len()
        invariant
            i <= sizes.len(),
            forall|j: int| 0 <= j < i ==> (#[trigger] sizes[j]).id != id,
        decreases sizes.len() - i,
    {
        if sizes[i].id == id {
            proof {
                assert(is_size_at(sizes@, id, i as int));
                let k = choose|k: int| is_size_at(sizes@, id, k);
                assert(is_size_at(sizes@, id, k));
                if k < i {
                    assert(sizes[k].id != id);
                } else if i < k {
                    assert(sizes@[i as int].id != id);
                }
            }
            return Some(sizes[i]);
        }
        i = i + 1;
    }
    None
}

fn plan_element(e: &ScreenshotElement, p: &Placement, size: ImageSize, scale: Double) -> (res: ElementPlan)
    ensures
        res == element_plan_of(e@, *p, size, scale),
{
    ElementPlan {
        id: e.id,
        width: p.width,
        height: p.height,
        middle: Point { x: p.x.plus(halved(p.width)), y: p.y.plus(halved(p.height)) },
        rotation: e.transform.rotation_deg.to_radians(),
        corner: Point { x: halved(p.width.negated()), y: halved(p.height.negated()) },
        shadow: if e.shadow.enabled {
            Some(plan_shadow(p.width, p.height, &e.shadow, scale))
        } else {
            None
        },
        outline: rounded_rect_path(p.width, p.height, &e.corner_radius),
        flip_x: if e.transform.flip_horizontal {
            Some(p.width)
        } else {
            None
        },
        flip_y: if e.transform.flip_vertical {
            Some(p.height)
        } else {
            None
        },
        image_scale_x: p.width.over(Double::from_int(size.width as i64)),
        image_scale_y: p.height.over(Double::from_int(size.height as i64)),
        label: draws_text(&e.label),
    }
}

/// Everything that drawing a composition takes, in the order of drawing.
#[derive(Debug, PartialEq)]
pub struct ComposePlan {
    pub background: BackgroundPlan,
    pub elements: Vec<ElementPlan>,
    pub title: bool,
}

/// The regions that placements cover.
pub open spec fn regions_of(placements: Seq<Placement>) -> Seq<ScreenshotRegion> {
    placements.map_values(|p: Placement| ScreenshotRegion { x: p.x, y: p.y, width: p.width, height: p.height })
}

/// The plans of the visible screenshots.
pub open spec fn element_plans(doc: DocumentView, scale: Double, sizes: Seq<ImageSize>) -> Seq<ElementPlan> {
    let visible = visible_of(doc.elements);
    let placements = current_layout(doc);
    Seq::new(
        visible.len(),
        |i: int| element_plan_of(visible[i], placements[i], decoded_size(sizes, visible[i].id), scale),
    )
}

/// Whether `i` is the first visible screenshot without a decoded image.
pub open spec fn first_missing(doc: DocumentView, sizes: Seq<ImageSize>, i: int) -> bool {
    let visible = visible_of(doc.elements);
    &&& 0 <= i < visible.len()
    &&& !is_decoded(sizes, visible[i].id)
    &&& forall|j: int| 0 <= j < i ==> is_decoded(sizes, (#[trigger] visible[j]).id)
}

/// Whether a background image is asked for and missing.
pub open spec fn lacks_background(doc: DocumentView, background_image: Option<(i32, i32)>) -> bool {
    doc.background is Image && background_image is None
}

fn regions_for(placements: &Vec<Placement>) -> (res: Vec<ScreenshotRegion>)
    ensures
        res@ == regions_of(placements@),
{
    let mut res: Vec<ScreenshotRegion> = Vec::new();
    let mut i: usize = 0;
    while i < placements.len()
        invariant
            i <= placements.len(),
            res@ == regions_of(placements@).take(i as int),
        decreases placements.len() - i,
    {
        let p = placements[i];
        res.push(ScreenshotRegion { x: p.x, y: p.y, width: p.width, height: p.height });
        i = i + 1;
        proof {
            assert(regions_of(placements@).take(i as int) =~= regions_of(placements@).take(i - 1).push(res@.last()));
        }
    }
    proof {
        assert(regions_of(placements@).take(i as int) =~= regions_of(placements@));
    }
    res
}

/// Plans a whole composition at a scale. `sizes` has the size of each decoded
/// image, `background_image` that of the decoded background. A background
/// image that is missing is reported first, then the first visible screenshot
/// without an image.
pub fn compose(doc: &Document, scale: Double, sizes: &[ImageSize], background_image: Option<(i32, i32)>) -> (res: Result<
    ComposePlan,
    RenderError,
>)
    requires
        palette_fits(doc.background@),
    ensures
        match res {
            Ok(plan) => {
                &&& !lacks_background(doc@, background_image)
                &&& forall|i: int| !first_missing(doc@, sizes@, i)
                &&& is_background_plan(
                    plan.background,
                    doc@.background,
                    int_double(doc@.canvas.export_width as int),
                    int_double(doc@.canvas.export_height as int),
                    background_image,
                    regions_of(current_layout(doc@)),
                )
                &&& plan.elements@ == element_plans(doc@, scale, sizes@)
                &&& plan.title == is_drawn(doc@.title)
            },
            Err(RenderError::MissingBackgroundImage) => lacks_background(doc@, background_image),
            Err(RenderError::MissingImage(id)) => !lacks_background(doc@, background_image) && exists|i: int|
                #[trigger] first_missing(doc@, sizes@, i) && visible_of(doc@.elements)[i].id == id,
        },
{
    let visible = visible_elements(doc.elements.as_slice());
    let placements = placements_of(doc);
    let regions = regions_for(&placements);
    let background = match draw_background(
        &doc.background,
        Double::from_int(doc.canvas.export_width as i64),
        Double::from_int(doc.canvas.export_height as i64),
        background_image,
        regions.as_slice(),
    ) {
        Ok(plan) => plan,
        Err(e) => {
            return Err(e);
        },
    };
    let ghost shown = visible_of(doc@.elements);
    let ghost goal = element_plans(doc@, scale, sizes@);
    let mut elements: Vec<ElementPlan> = Vec::new();
    let mut i: usize = 0;
    while i < visible.len()
        invariant
            i <= visible.len(),
            !lacks_background(doc@, background_image),
            shown == visible_of(doc@.elements),
            views(visible@) == shown,
            placements@ == current_layout(doc@),
            placements.len() == visible.len(),
            goal == element_plans(doc@, scale, sizes@),
            elements@ == goal.take(i as int),
            forall|j: int| 0 <= j < i ==> is_decoded(sizes@, (#[trigger] shown[j]).id),
        decreases visible.len() - i,
    {
        let element = &visible[i];
        proof {
            assert(shown[i as int] == element@);
        }
        match find_size(sizes, element.id) {
            Some(size) => {
                let plan = plan_element(element, &placements[i], size, scale);
                elements.push(plan);
                proof {
                    assert(goal.take(i + 1) =~= goal.take(i as int).push(goal[i as int]));
                }
            },
            None => {
                proof {
                    assert(first_missing(doc@, sizes@, i as int));
                }
                return Err(RenderError::MissingImage(element.id));
            },
        }
        i = i + 1;
    }
    proof {
        assert(goal.take(i as int) =~= goal);
    }
    Ok(ComposePlan { background, elements, title: draws_text(&doc.title) })
}

/// A composition without visible screenshots needs no decoded image, and no
/// hidden screenshot is drawn.
pub proof fn law_only_visible_screenshots_are_drawn(doc: DocumentView, scale: Double, sizes: Seq<ImageSize>)
    ensures
        element_plans(doc, scale, sizes).len() == visible_of(doc.elements).len(),
        forall|i: int|
            0 <= i < visible_of(doc.elements).len() ==> (#[trigger] visible_of(doc.elements)[i]).visible
                && element_plans(doc, scale, sizes)[i].id == visible_of(doc.elements)[i].id,
{
    lemma_visible(doc.elements);
}

/// The preview and the export draw the same picture: at another scale every
/// screenshot and every text is drawn at the same place of the document, with
/// the same outline. Only the resolution of the shadows goes by the scale.
pub proof fn law_preview_and_export_draw_the_same(
    doc: DocumentView,
    preview: Double,
    full: Double,
    sizes: Seq<ImageSize>,
    text: TextElementView,
    ref_w: Double,
    ref_h: Double,
    content_w: int,
    content_h: int,
)
    ensures
        ({
            let a = element_plans(doc, preview, sizes);
            let b = element_plans(doc, full, sizes);
            &&& a.len() == b.len()
            &&& forall|i: int|
                0 <= i < a.len() ==> (#[trigger] a[i]) == (ElementPlan { shadow: a[i].shadow, ..b[i] }) && (
                a[i].shadow is Some <==> b[i].shadow is Some)
        }),
        ({
            let a = drawn_box(text, ref_w, ref_h, content_w, content_h, preview);
            let b = drawn_box(text, ref_w, ref_h, content_w, content_h, full);
            &&& a is Some <==> b is Some
            &&& a is Some ==> a->0 == (TextBox { shadow: a->0.shadow, ..b->0 })
            &&& a is Some ==> (a->0.shadow is Some <==> b->0.shadow is Some)
        }),
{
}

proof fn lemma_visible(elements: Seq<ScreenshotElementView>)
    ensures
        forall|i: int| 0 <= i < visible_of(elements).len() ==> (#[trigger] visible_of(elements)[i]).visible,
    decreases elements.len(),
{
    if elements.len() > 0 {
        lemma_visible(elements.drop_last());
    }
}

} // verus!
