//! What the controls of the sidebar and of the label dialog stand for: which
//! entry of a list stands for which choice, which values the controls show for
//! a document, and what a set of control values describes.
use crate::arith_laws::{lemma_fraction, lemma_int_double_exact, lemma_sum_val};
use crate::double::{diff, lemma_mag_ordered, one_unit, opposite, prod, quot, Double, UNIT_EXP};
use crate::export::lemma_whole_of_int;
use crate::model::background::{BackgroundView, GeneratedBackgroundView, GradientSpecView};
use crate::model::geometry::{black_preset, opaque_black, turn_degrees, uniform_radius};
use crate::model::text::{TextBackgroundView, TextElementView, TypographyView};
use crate::model::{
    Background, BackgroundImageFit, CanvasSettings, ColorStrategy, CornerRadius, ExportFormat, GeneratedBackground,
    GradientKind, GradientSpec, HorizontalAnchor, LayoutMode, Rgba, ShadowParams, ShadowPreset, TextAlign,
    TextBackground, TextElement, TextPosition, Typography, VerticalAnchor,
};
use crate::order::{larger, lt, magnitude};
use crate::sameness::{colors_equal, same_color};
use crate::whole::{clip, int_double, ratio, whole, Rounding};
use vstd::arithmetic::power2::*;
use vstd::prelude::*;

verus! {

// ---------------------------------------------------------------------------
// Lists of choices
// ---------------------------------------------------------------------------

pub open spec fn layout_mode_at(index: u32) -> LayoutMode {
    match index {
        0 => LayoutMode::Horizontal,
        1 => LayoutMode::Vertical,
        2 => LayoutMode::Grid,
        _ => LayoutMode::Free,
    }
}

pub fn layout_mode_for_index(index: u32) -> (res: LayoutMode)
    ensures
        res == layout_mode_at(index),
{
    match index {
        0 => LayoutMode::Horizontal,
        1 => LayoutMode::Vertical,
        2 => LayoutMode::Grid,
        _ => LayoutMode::Free,
    }
}

pub open spec fn layout_mode_place(mode: LayoutMode) -> u32 {
    match mode {
        LayoutMode::Horizontal => 0,
        LayoutMode::Vertical => 1,
        LayoutMode::Grid => 2,
        LayoutMode::Free => 3,
    }
}

pub fn index_for_layout_mode(mode: LayoutMode) -> (res: u32)
    ensures
        res == layout_mode_place(mode),
{
    match mode {
        LayoutMode::Horizontal => 0,
        LayoutMode::Vertical => 1,
        LayoutMode::Grid => 2,
        LayoutMode::Free => 3,
    }
}

pub open spec fn color_strategy_at(index: u32) -> ColorStrategy {
    match index {
        0 => ColorStrategy::Manual,
        1 => ColorStrategy::FromScreenshots,
        2 => ColorStrategy::Grayscale,
        _ => ColorStrategy::Random,
    }
}

pub fn color_strategy_for_index(index: u32) -> (res: ColorStrategy)
    ensures
        res == color_strategy_at(index),
{
    match index {
        0 => ColorStrategy::Manual,
        1 => ColorStrategy::FromScreenshots,
        2 => ColorStrategy::Grayscale,
        _ => ColorStrategy::Random,
    }
}

pub open spec fn color_strategy_place(strategy: ColorStrategy) -> u32 {
    match strategy {
        ColorStrategy::Manual => 0,
        ColorStrategy::FromScreenshots => 1,
        ColorStrategy::Grayscale => 2,
        ColorStrategy::Random => 3,
    }
}

pub fn index_for_color_strategy(strategy: ColorStrategy) -> (res: u32)
    ensures
        res == color_strategy_place(strategy),
{
    match strategy {
        ColorStrategy::Manual => 0,
        ColorStrategy::FromScreenshots => 1,
        ColorStrategy::Grayscale => 2,
        ColorStrategy::Random => 3,
    }
}

pub open spec fn horizontal_anchor_at(index: u32) -> HorizontalAnchor {
    match index {
        0 => HorizontalAnchor::Left,
        2 => HorizontalAnchor::Right,
        _ => HorizontalAnchor::Center,
    }
}

pub fn horizontal_anchor_for_index(index: u32) -> (res: HorizontalAnchor)
    ensures
        res == horizontal_anchor_at(index),
{
    match index {
        0 => HorizontalAnchor::Left,
        2 => HorizontalAnchor::Right,
        _ => HorizontalAnchor::Center,
    }
}

pub open spec fn horizontal_anchor_place(anchor: HorizontalAnchor) -> u32 {
    match anchor {
        HorizontalAnchor::Left => 0,
        HorizontalAnchor::Center => 1,
        HorizontalAnchor::Right => 2,
    }
}

pub fn index_for_horizontal_anchor(anchor: HorizontalAnchor) -> (res: u32)
    ensures
        res == horizontal_anchor_place(anchor),
{
    match anchor {
        HorizontalAnchor::Left => 0,
        HorizontalAnchor::Center => 1,
        HorizontalAnchor::Right => 2,
    }
}

pub open spec fn vertical_anchor_at(index: u32) -> VerticalAnchor {
    match index {
        0 => VerticalAnchor::Top,
        2 => VerticalAnchor::Bottom,
        _ => VerticalAnchor::Center,
    }
}

pub fn vertical_anchor_for_index(index: u32) -> (res: VerticalAnchor)
    ensures
        res == vertical_anchor_at(index),
{
    match index {
        0 => VerticalAnchor::Top,
        2 => VerticalAnchor::Bottom,
        _ => VerticalAnchor::Center,
    }
}

pub open spec fn vertical_anchor_place(anchor: VerticalAnchor) -> u32 {
    match anchor {
        VerticalAnchor::Top => 0,
        VerticalAnchor::Center => 1,
        VerticalAnchor::Bottom => 2,
    }
}

pub fn index_for_vertical_anchor(anchor: VerticalAnchor) -> (res: u32)
    ensures
        res == vertical_anchor_place(anchor),
{
    match anchor {
        VerticalAnchor::Top => 0,
        VerticalAnchor::Center => 1,
        VerticalAnchor::Bottom => 2,
    }
}

pub open spec fn text_align_at(index: u32) -> TextAlign {
    match index {
        0 => TextAlign::Left,
        2 => TextAlign::Right,
        _ => TextAlign::Center,
    }
}

pub fn text_align_for_index(index: u32) -> (res: TextAlign)
    ensures
        res == text_align_at(index),
{
    match index {
        0 => TextAlign::Left,
        2 => TextAlign::Right,
        _ => TextAlign::Center,
    }
}

pub open spec fn text_align_place(align: TextAlign) -> u32 {
    match align {
        TextAlign::Left => 0,
        TextAlign::Center => 1,
        TextAlign::Right => 2,
    }
}

pub fn index_for_text_align(align: TextAlign) -> (res: u32)
    ensures
        res == text_align_place(align),
{
    match align {
        TextAlign::Left => 0,
        TextAlign::Center => 1,
        TextAlign::Right => 2,
    }
}

pub open spec fn image_fit_at(index: u32) -> BackgroundImageFit {
    match index {
        0 => BackgroundImageFit::Cover,
        1 => BackgroundImageFit::Contain,
        2 => BackgroundImageFit::Fill,
        _ => BackgroundImageFit::Tile,
    }
}

pub fn background_image_fit_for_index(index: u32) -> (res: BackgroundImageFit)
    ensures
        res == image_fit_at(index),
{
    match index {
        0 => BackgroundImageFit::Cover,
        1 => BackgroundImageFit::Contain,
        2 => BackgroundImageFit::Fill,
        _ => BackgroundImageFit::Tile,
    }
}

pub open spec fn image_fit_place(fit: BackgroundImageFit) -> u32 {
    match fit {
        BackgroundImageFit::Cover => 0,
        BackgroundImageFit::Contain => 1,
        BackgroundImageFit::Fill => 2,
        BackgroundImageFit::Tile => 3,
    }
}

pub fn index_for_background_image_fit(fit: BackgroundImageFit) -> (res: u32)
    ensures
        res == image_fit_place(fit),
{
    match fit {
        BackgroundImageFit::Cover => 0,
        BackgroundImageFit::Contain => 1,
        BackgroundImageFit::Fill => 2,
        BackgroundImageFit::Tile => 3,
    }
}

pub open spec fn export_format_at(index: u32) -> ExportFormat {
    match index {
        0 => ExportFormat::Png,
        1 => ExportFormat::Jpeg,
        2 => ExportFormat::WebP,
        _ => ExportFormat::Avif,
    }
}

pub fn export_format_for_index(index: u32) -> (res: ExportFormat)
    ensures
        res == export_format_at(index),
{
    match index {
        0 => ExportFormat::Png,
        1 => ExportFormat::Jpeg,
        2 => ExportFormat::WebP,
        _ => ExportFormat::Avif,
    }
}

pub open spec fn export_format_place(format: ExportFormat) -> u32 {
    match format {
        ExportFormat::Png => 0,
        ExportFormat::Jpeg => 1,
        ExportFormat::WebP => 2,
        ExportFormat::Avif => 3,
    }
}

pub fn index_for_export_format(format: ExportFormat) -> (res: u32)
    ensures
        res == export_format_place(format),
{
    match format {
        ExportFormat::Png => 0,
        ExportFormat::Jpeg => 1,
        ExportFormat::WebP => 2,
        ExportFormat::Avif => 3,
    }
}

/// Every choice stands where its list shows it: the entry that a choice is
/// shown at stands for that choice.
pub proof fn law_lists_round_trip(
    mode: LayoutMode,
    strategy: ColorStrategy,
    horizontal: HorizontalAnchor,
    vertical: VerticalAnchor,
    align: TextAlign,
    fit: BackgroundImageFit,
    format: ExportFormat,
)
    ensures
        layout_mode_at(layout_mode_place(mode)) == mode,
        color_strategy_at(color_strategy_place(strategy)) == strategy,
        horizontal_anchor_at(horizontal_anchor_place(horizontal)) == horizontal,
        vertical_anchor_at(vertical_anchor_place(vertical)) == vertical,
        text_align_at(text_align_place(align)) == align,
        image_fit_at(image_fit_place(fit)) == fit,
        export_format_at(export_format_place(format)) == format,
{
}

// ---------------------------------------------------------------------------
// Shadow presets
// ---------------------------------------------------------------------------

/// The preset that an entry of the list stands for.
pub open spec fn preset_at(index: u32) -> ShadowPreset {
    match index {
        0 => ShadowPreset {
            distance: int_double(0),
            blur: int_double(0),
            opacity: int_double(0),
            color: opaque_black(),
        },
        1 => black_preset(2, 8, 15),
        2 => black_preset(6, 16, 25),
        3 => black_preset(12, 28, 40),
        _ => black_preset(24, 40, 30),
    }
}

pub fn shadow_preset_for_index(index: u32) -> (res: ShadowPreset)
    ensures
        res == preset_at(index),
{
    match index {
        0 => ShadowPreset::none(),
        1 => ShadowPreset::subtle(),
        2 => ShadowPreset::standard(),
        3 => ShadowPreset::strong(),
        _ => ShadowPreset::floating(),
    }
}

/// Whether two numbers are nearer than a limit.
pub open spec fn nearer(a: Double, b: Double, limit: Double) -> bool {
    lt(magnitude(diff(a, b)), limit)
}

/// Whether a shadow of a distance has a preset's strength. The direction does
/// not matter.
pub open spec fn has_strength(p: ShadowPreset, shadow: ShadowParams, distance: Double) -> bool {
    &&& nearer(p.distance, distance, ratio(1, 100))
    &&& nearer(p.blur, shadow.blur, ratio(1, 100))
    &&& nearer(p.opacity, shadow.opacity, ratio(1, 1000))
    &&& same_color(p.color, shadow.color)
}

fn is_of_preset(p: ShadowPreset, shadow: &ShadowParams, distance: Double) -> (res: bool)
    ensures
        res == has_strength(p, *shadow, distance),
{
    let limit = Double::ratio(1, 100);
    p.distance.minus(distance).abs().less(limit) && p.blur.minus(shadow.blur).abs().less(limit) && p.opacity.minus(
        shadow.opacity,
    ).abs().less(Double::ratio(1, 1000)) && colors_equal(p.color, shadow.color)
}

/// The first entry of the list, from `from` on, whose preset a shadow has;
/// the entry without a shadow if there is none.
pub open spec fn preset_place(shadow: ShadowParams, distance: Double, from: u32) -> u32
    decreases 5 - from,
{
    if from >= 5 {
        0
    } else if has_strength(preset_at(from), shadow, distance) {
        from
    } else {
        preset_place(shadow, distance, (from + 1) as u32)
    }
}

/// The entry of the list of presets that a shadow is shown at. `distance` is
/// the length of its offset.
pub fn shadow_preset_index_for(shadow: &ShadowParams, distance: Double) -> (res: u32)
    ensures
        res == preset_place(*shadow, distance, 0),
{
    let mut i: u32 = 0;
    while i < 5
        invariant
            i <= 5,
            preset_place(*shadow, distance, 0) == preset_place(*shadow, distance, i),
        decreases 5 - i,
    {
        if is_of_preset(shadow_preset_for_index(i), shadow, distance) {
            return i;
        }
        i = i + 1;
    }
    0
}

proof fn lemma_opposite(a: Double)
    ensures
        opposite(a).low() == a.low(),
        opposite(a).val() == -a.val(),
{
    lemma_mag_ordered(0, a.low());
}

proof fn lemma_magnitude(a: Double)
    ensures
        magnitude(a).low() == a.low(),
        magnitude(a).val() == a.mag(),
{
}

proof fn lemma_nearer_itself(a: Double, limit: Double)
    requires
        a.finite(),
        !limit.nan(),
        limit.val() > 0,
    ensures
        nearer(a, a, limit),
{
    lemma_opposite(a);
    lemma_sum_val(a, opposite(a));
    lemma_int_double_exact(0);
    assert(0 * one_unit() == 0);
    assert(diff(a, a).val() == 0);
    lemma_magnitude(diff(a, a));
}

proof fn lemma_not_nearer(i: int, j: int, limit: Double)
    requires
        -1000 <= i <= 1000,
        -1000 <= j <= 1000,
        i != j,
        !limit.nan(),
        limit.val() <= one_unit(),
    ensures
        !nearer(int_double(i), int_double(j), limit),
{
    lemma_int_double_exact(i);
    lemma_int_double_exact(j);
    lemma_int_double_exact(i - j);
    lemma_opposite(int_double(j));
    lemma_sum_val(int_double(i), opposite(int_double(j)));
    lemma_magnitude(diff(int_double(i), int_double(j)));
    let u = one_unit();
    lemma_pow2_pos(UNIT_EXP as nat);
    assert(i * u - j * u == (i - j) * u) by (nonlinear_arith);
    assert((i - j) * u >= u || (i - j) * u <= -u) by (nonlinear_arith)
        requires
            i != j,
            u > 0,
    ;
}

/// A shadow is shown at the preset that it was given, whatever its direction.
pub proof fn law_presets_are_recognised(index: u32, shadow: ShadowParams, distance: Double)
    requires
        index < 5,
        distance == preset_at(index).distance,
        shadow.blur == preset_at(index).blur,
        shadow.opacity == preset_at(index).opacity,
        shadow.color == preset_at(index).color,
    ensures
        preset_place(shadow, distance, 0) == index,
{
    lemma_fraction(1, 100);
    lemma_fraction(1, 1000);
    lemma_fraction(15, 100);
    lemma_fraction(25, 100);
    lemma_fraction(40, 100);
    lemma_fraction(30, 100);
    lemma_int_double_exact(0);
    lemma_int_double_exact(1);
    let p = preset_at(index);
    lemma_int_double_exact(2);
    lemma_int_double_exact(6);
    lemma_int_double_exact(12);
    lemma_int_double_exact(24);
    lemma_int_double_exact(8);
    lemma_int_double_exact(16);
    lemma_int_double_exact(28);
    lemma_int_double_exact(40);
    lemma_nearer_itself(p.distance, ratio(1, 100));
    lemma_nearer_itself(p.blur, ratio(1, 100));
    lemma_nearer_itself(p.opacity, ratio(1, 1000));
    assert(has_strength(p, shadow, distance));
    let far: int = match index {
        0 => 0,
        1 => 2,
        2 => 6,
        3 => 12,
        _ => 24,
    };
    if index > 0 {
        lemma_not_nearer(0, far, ratio(1, 100));
    }
    if index > 1 {
        lemma_not_nearer(2, far, ratio(1, 100));
    }
    if index > 2 {
        lemma_not_nearer(6, far, ratio(1, 100));
    }
    if index > 3 {
        lemma_not_nearer(12, far, ratio(1, 100));
    }
    reveal_with_fuel(preset_place, 6);
}

// ---------------------------------------------------------------------------
// Texts
// ---------------------------------------------------------------------------

/// The units of a font description's size in a pixel.
pub const FONT_SCALE: i64 = 1024;

/// What a font button holds.
#[derive(Debug, PartialEq)]
pub struct FontChoice {
    pub family: String,
    pub size: Double,
    pub weight: i32,
    pub italic: bool,
}

#[verifier::ext_equal]
pub struct FontChoiceView {
    pub family: Seq<char>,
    pub size: Double,
    pub weight: i32,
    pub italic: bool,
}

impl View for FontChoice {
    type V = FontChoiceView;

    open spec fn view(&self) -> FontChoiceView {
        FontChoiceView { family: self.family@, size: self.size, weight: self.weight, italic: self.italic }
    }
}

/// The choice that a font description stands for: its family, or the plain
/// one if it names none, and a size of at least one pixel.
pub fn typography_from_font_desc(family: Option<String>, size: i32, weight: i32, slanted: bool) -> (res: FontChoice)
    ensures
        res@ == (FontChoiceView {
            family: match family {
                Some(name) => name@,
                None => "Sans"@,
            },
            size: larger(quot(int_double(size as int), int_double(FONT_SCALE as int)), int_double(1)),
            weight,
            italic: slanted,
        }),
{
    let name = match family {
        Some(name) => name,
        None => "Sans".to_string(),
    };
    FontChoice {
        family: name,
        size: Double::from_int(size as i64).over(Double::from_int(FONT_SCALE)).max(Double::one()),
        weight,
        italic: slanted,
    }
}

/// The size that a font description is given for a typography.
pub fn font_desc_from_typography(typography: &Typography) -> (res: Double)
    ensures
        res == prod(larger(typography.font_size, ratio(1, 10)), int_double(FONT_SCALE as int)),
{
    typography.font_size.max(Double::ratio(1, 10)).times(Double::from_int(FONT_SCALE))
}

/// The values of the controls of a title or a label.
#[derive(Debug)]
pub struct TextControls {
    pub enabled: bool,
    pub content: String,
    pub position_mode: u32,
    pub horizontal: u32,
    pub vertical: u32,
    pub padding: Double,
    pub x: Double,
    pub y: Double,
    pub background: u32,
    pub background_color: Rgba,
    pub background_color2: Rgba,
    pub corner_radius: Double,
    pub font: FontChoice,
    pub alignment: u32,
    pub letter_spacing: Double,
    pub line_spacing: Double,
    pub color: Rgba,
    /// In percent.
    pub opacity: Double,
}

#[verifier::ext_equal]
pub struct TextControlsView {
    pub enabled: bool,
    pub content: Seq<char>,
    pub position_mode: u32,
    pub horizontal: u32,
    pub vertical: u32,
    pub padding: Double,
    pub x: Double,
    pub y: Double,
    pub background: u32,
    pub background_color: Rgba,
    pub background_color2: Rgba,
    pub corner_radius: Double,
    pub font: FontChoiceView,
    pub alignment: u32,
    pub letter_spacing: Double,
    pub line_spacing: Double,
    pub color: Rgba,
    pub opacity: Double,
}

impl View for TextControls {
    type V = TextControlsView;

    open spec fn view(&self) -> TextControlsView {
        TextControlsView {
            enabled: self.enabled,
            content: self.content@,
            position_mode: self.position_mode,
            horizontal: self.horizontal,
            vertical: self.vertical,
            padding: self.padding,
            x: self.x,
            y: self.y,
            background: self.background,
            background_color: self.background_color,
            background_color2: self.background_color2,
            corner_radius: self.corner_radius,
            font: self.font@,
            alignment: self.alignment,
            letter_spacing: self.letter_spacing,
            line_spacing: self.line_spacing,
            color: self.color,
            opacity: self.opacity,
        }
    }
}

/// A gradient from one color to another.
pub open spec fn two_colors(kind: GradientKind, first: Rgba, last: Rgba) -> GradientSpecView {
    GradientSpecView { kind, stops: seq![(int_double(0), first), (int_double(1), last)] }
}

fn gradient_between(kind: GradientKind, first: Rgba, last: Rgba) -> (res: GradientSpec)
    ensures
        res@ == two_colors(kind, first, last),
{
    let stops: Vec<(Double, Rgba)> = vec![(Double::zero(), first), (Double::one(), last)];
    GradientSpec { kind, stops }
}

/// A percentage as a fraction.
pub open spec fn from_percent(v: Double) -> Double {
    quot(v, int_double(100))
}

/// A fraction as a percentage.
pub open spec fn to_percent(v: Double) -> Double {
    prod(v, int_double(100))
}

pub open spec fn described_position(c: TextControlsView) -> TextPosition {
    if c.position_mode == 1 {
        TextPosition::Absolute { x: c.x, y: c.y }
    } else {
        TextPosition::Semantic {
            horizontal: horizontal_anchor_at(c.horizontal),
            vertical: vertical_anchor_at(c.vertical),
            padding: c.padding,
        }
    }
}

pub open spec fn described_fill(c: TextControlsView) -> TextBackgroundView {
    match c.background {
        1 => TextBackgroundView::Solid(c.background_color),
        2 => TextBackgroundView::Gradient(
            two_colors(GradientKind::Linear { angle_deg: int_double(135) }, c.background_color, c.background_color2),
        ),
        _ => TextBackgroundView::Clear,
    }
}

/// The text that controls describe, with what they do not show kept.
pub open spec fn described_text(c: TextControlsView, current: TextElementView, alignment: TextAlign, wrap: bool) -> TextElementView {
    TextElementView {
        enabled: c.enabled,
        content: c.content,
        position: described_position(c),
        typography: TypographyView {
            font_family: c.font.family,
            font_size: c.font.size,
            weight: c.font.weight,
            italic: c.font.italic,
            color: c.color,
            alignment,
            opacity: from_percent(c.opacity),
            letter_spacing: c.letter_spacing,
            line_spacing: c.line_spacing,
            wrap,
        },
        background: described_fill(c),
        corner_radius: uniform_radius(c.corner_radius),
        background_padding: current.background_padding,
        shadow: current.shadow,
    }
}

fn text_from_controls(c: &TextControls, current: &TextElement, alignment: TextAlign, wrap: bool) -> (res: TextElement)
    ensures
        res@ == described_text(c@, current@, alignment, wrap),
{
    let position = if c.position_mode == 1 {
        TextPosition::Absolute { x: c.x, y: c.y }
    } else {
        TextPosition::Semantic {
            horizontal: horizontal_anchor_for_index(c.horizontal),
            vertical: vertical_anchor_for_index(c.vertical),
            padding: c.padding,
        }
    };
    let background = match c.background {
        1 => TextBackground::Solid(c.background_color),
        2 => TextBackground::Gradient(
            gradient_between(
                GradientKind::Linear { angle_deg: Double::from_int(135) },
                c.background_color,
                c.background_color2,
            ),
        ),
        _ => TextBackground::Clear,
    };
    TextElement {
        enabled: c.enabled,
        content: c.content.clone(),
        position,
        typography: Typography {
            font_family: c.font.family.clone(),
            font_size: c.font.size,
            weight: c.font.weight,
            italic: c.font.italic,
            color: c.color,
            alignment,
            opacity: c.opacity.over(Double::from_int(100)),
            letter_spacing: c.letter_spacing,
            line_spacing: c.line_spacing,
            wrap,
        },
        background,
        corner_radius: CornerRadius::uniform(c.corner_radius),
        background_padding: current.background_padding,
        shadow: current.shadow,
    }
}

/// The title that the sidebar describes. Its gap and its shadow are kept, and
/// it does not wrap.
pub open spec fn described_title(c: TextControlsView, current: TextElementView) -> TextElementView {
    described_text(c, current, text_align_at(c.alignment), false)
}

pub fn title_from_controls(c: &TextControls, current: &TextElement) -> (res: TextElement)
    ensures
        res@ == described_title(c@, current@),
{
    text_from_controls(c, current, text_align_for_index(c.alignment), false)
}

/// The label that its dialog describes. Its gap, its shadow, its alignment and
/// whether it wraps are kept.
pub open spec fn described_label(c: TextControlsView, current: TextElementView) -> TextElementView {
    described_text(c, current, current.typography.alignment, current.typography.wrap)
}

pub fn label_from_controls(c: &TextControls, current: &TextElement) -> (res: TextElement)
    ensures
        res@ == described_label(c@, current@),
{
    text_from_controls(c, current, current.typography.alignment, current.typography.wrap)
}

/// Which of the rows of a title or a label are there, of those that go by an
/// entry of another row.
#[derive(Clone, Copy, Debug, PartialEq, Eq, Structural)]
pub struct TextRowsShown {
    /// The rows for an absolute position, in place of those for a semantic one.
    pub absolute: bool,
    pub background_color: bool,
    pub background_color2: bool,
}

/// The rows for an entry of the list of positions and one of the list of
/// backgrounds.
pub open spec fn text_rows_for(position_mode: u32, background: u32) -> TextRowsShown {
    TextRowsShown {
        absolute: position_mode == 1,
        background_color: background != 0,
        background_color2: background == 2,
    }
}

/// The rows for an entry of the list of positions and one of the list of
/// backgrounds.
pub fn text_rows(position_mode: u32, background: u32) -> (res: TextRowsShown)
    ensures
        res == text_rows_for(position_mode, background),
{
    TextRowsShown {
        absolute: position_mode == 1,
        background_color: background != 0,
        background_color2: background == 2,
    }
}

/// What the controls of a title or a label show of it: the values, which of
/// the rows are there, and which can be used. A value that the text does not
/// have leaves its control as it is.
#[derive(Clone, Copy, Debug, PartialEq)]
pub struct TextRows {
    pub position_mode: u32,
    pub horizontal: Option<u32>,
    pub vertical: Option<u32>,
    pub padding: Option<Double>,
    pub x: Option<Double>,
    pub y: Option<Double>,
    pub background: u32,
    pub rows: TextRowsShown,
    pub background_color: Option<Rgba>,
    pub background_color2: Option<Rgba>,
    pub corner_radius: Double,
    pub alignment: u32,
    pub letter_spacing: Double,
    pub line_spacing: Double,
    pub color: Rgba,
    pub opacity: Double,
    pub shadow_preset: u32,
    pub shadow_angle: Double,
    pub shadow_distance: Double,
    pub shadow_blur: Double,
    /// Whether the rows can be used.
    pub sensitive: bool,
    /// Whether the rows for the shadow's geometry can be used.
    pub shadow_sensitive: bool,
}

pub open spec fn fill_place(fill: TextBackgroundView) -> u32 {
    match fill {
        TextBackgroundView::Clear => 0,
        TextBackgroundView::Solid(_) => 1,
        TextBackgroundView::Gradient(_) => 2,
    }
}

/// The color of a gradient's stop, if there is one.
pub open spec fn stop_color(g: GradientSpecView, i: int) -> Option<Rgba> {
    if i < g.stops.len() {
        Some(g.stops[i].1)
    } else {
        None
    }
}

fn color_of_stop(g: &GradientSpec, i: usize) -> (res: Option<Rgba>)
    ensures
        res == stop_color(g@, i as int),
{
    if i < g.stops.len() {
        Some(g.stops[i].1)
    } else {
        None
    }
}

pub open spec fn shown_text(text: TextElementView, length: Double, angle_rad: Double) -> TextRows {
    TextRows {
        position_mode: if text.position is Absolute {
            1
        } else {
            0
        },
        horizontal: match text.position {
            TextPosition::Semantic { horizontal, .. } => Some(horizontal_anchor_place(horizontal)),
            TextPosition::Absolute { .. } => None,
        },
        vertical: match text.position {
            TextPosition::Semantic { vertical, .. } => Some(vertical_anchor_place(vertical)),
            TextPosition::Absolute { .. } => None,
        },
        padding: match text.position {
            TextPosition::Semantic { padding, .. } => Some(padding),
            TextPosition::Absolute { .. } => None,
        },
        x: match text.position {
            TextPosition::Semantic { .. } => None,
            TextPosition::Absolute { x, .. } => Some(x),
        },
        y: match text.position {
            TextPosition::Semantic { .. } => None,
            TextPosition::Absolute { y, .. } => Some(y),
        },
        background: fill_place(text.background),
        rows: TextRowsShown {
            absolute: text.position is Absolute,
            background_color: !(text.background is Clear),
            background_color2: text.background is Gradient,
        },
        background_color: match text.background {
            TextBackgroundView::Clear => None,
            TextBackgroundView::Solid(color) => Some(color),
            TextBackgroundView::Gradient(g) => stop_color(g, 0),
        },
        background_color2: match text.background {
            TextBackgroundView::Gradient(g) => stop_color(g, 1),
            _ => None,
        },
        corner_radius: text.corner_radius.top_left,
        alignment: text_align_place(text.typography.alignment),
        letter_spacing: text.typography.letter_spacing,
        line_spacing: text.typography.line_spacing,
        color: text.typography.color,
        opacity: to_percent(text.typography.opacity),
        shadow_preset: preset_place(text.shadow, length, 0),
        shadow_angle: turn_degrees(angle_rad),
        shadow_distance: length,
        shadow_blur: text.shadow.blur,
        sensitive: text.enabled,
        shadow_sensitive: text.enabled && text.shadow.enabled,
    }
}

/// What the controls show of a title or a label. `length` and `angle_rad` are
/// the length and the direction of its shadow's offset.
pub fn sync_title_controls(text: &TextElement, length: Double, angle_rad: Double) -> (res: TextRows)
    ensures
        res == shown_text(text@, length, angle_rad),
{
    let (position_mode, horizontal, vertical, padding, x, y) = match text.position {
        TextPosition::Semantic { horizontal, vertical, padding } => (
            0u32,
            Some(index_for_horizontal_anchor(horizontal)),
            Some(index_for_vertical_anchor(vertical)),
            Some(padding),
            None,
            None,
        ),
        TextPosition::Absolute { x, y } => (1u32, None, None, None, Some(x), Some(y)),
    };
    let (background, background_color, background_color2) = match &text.background {
        TextBackground::Clear => (0u32, None, None),
        TextBackground::Solid(color) => (1u32, Some(*color), None),
        TextBackground::Gradient(g) => (2u32, color_of_stop(g, 0), color_of_stop(g, 1)),
    };
    let (angle, distance) = text.shadow.angle_and_distance(length, angle_rad);
    TextRows {
        position_mode,
        horizontal,
        vertical,
        padding,
        x,
        y,
        background,
        rows: text_rows(position_mode, background),
        background_color,
        background_color2,
        corner_radius: text.corner_radius.top_left,
        alignment: index_for_text_align(text.typography.alignment),
        letter_spacing: text.typography.letter_spacing,
        line_spacing: text.typography.line_spacing,
        color: text.typography.color,
        opacity: text.typography.opacity.times(Double::from_int(100)),
        shadow_preset: shadow_preset_index_for(&text.shadow, distance),
        shadow_angle: angle,
        shadow_distance: distance,
        shadow_blur: text.shadow.blur,
        sensitive: text.enabled,
        shadow_sensitive: text.enabled && text.shadow.enabled,
    }
}

/// Whether controls hold what is shown of a text.
pub open spec fn controls_show(c: TextControlsView, text: TextElementView, rows: TextRows) -> bool {
    &&& c.enabled == text.enabled
    &&& c.content == text.content
    &&& c.position_mode == rows.position_mode
    &&& rows.horizontal matches Some(v) ==> c.horizontal == v
    &&& rows.vertical matches Some(v) ==> c.vertical == v
    &&& rows.padding matches Some(v) ==> c.padding == v
    &&& rows.x matches Some(v) ==> c.x == v
    &&& rows.y matches Some(v) ==> c.y == v
    &&& c.background == rows.background
    &&& rows.background_color matches Some(v) ==> c.background_color == v
    &&& rows.background_color2 matches Some(v) ==> c.background_color2 == v
    &&& c.corner_radius == rows.corner_radius
    &&& c.font == (FontChoiceView {
        family: text.typography.font_family,
        size: text.typography.font_size,
        weight: text.typography.weight,
        italic: text.typography.italic,
    })
    &&& c.alignment == rows.alignment
    &&& c.letter_spacing == rows.letter_spacing
    &&& c.line_spacing == rows.line_spacing
    &&& c.color == rows.color
    &&& c.opacity == rows.opacity
}

/// Whether a text is one that the controls can describe: one radius for all
/// corners, a fill that is plain or the dialog's own gradient, and an opacity
/// that survives the way to a percentage and back.
pub open spec fn describable(text: TextElementView) -> bool {
    &&& text.corner_radius == uniform_radius(text.corner_radius.top_left)
    &&& from_percent(to_percent(text.typography.opacity)) == text.typography.opacity
    &&& text.background matches TextBackgroundView::Gradient(g) ==> g.stops.len() == 2 && g == two_colors(
        GradientKind::Linear { angle_deg: int_double(135) },
        g.stops[0].1,
        g.stops[1].1,
    )
}

/// Controls that show a text describe that text again: showing it changes
/// nothing.
pub proof fn law_shown_text_is_described(c: TextControlsView, text: TextElementView, length: Double, angle_rad: Double)
    requires
        describable(text),
        controls_show(c, text, shown_text(text, length, angle_rad)),
    ensures
        described_label(c, text) == text,
        !text.typography.wrap ==> described_title(c, text) == text,
{
    let rows = shown_text(text, length, angle_rad);
    match text.position {
        TextPosition::Semantic { horizontal, vertical, padding } => {
            assert(described_position(c) == text.position);
        },
        TextPosition::Absolute { x, y } => {},
    }
    match text.background {
        TextBackgroundView::Gradient(g) => {
            assert(rows.background_color == Some(g.stops[0].1));
            assert(rows.background_color2 == Some(g.stops[1].1));
            assert(described_fill(c) == text.background);
        },
        _ => {},
    }
}

// ---------------------------------------------------------------------------
// Backgrounds
// ---------------------------------------------------------------------------

/// The values of the controls of a plain background.
#[derive(Clone, Copy, Debug, PartialEq)]
pub struct BackgroundControls {
    pub selected: u32,
    pub color1: Rgba,
    pub color2: Rgba,
    pub angle_deg: Double,
}

/// A radial gradient around the middle of the canvas.
pub open spec fn centered() -> GradientKind {
    GradientKind::Radial { center_x: ratio(1, 2), center_y: ratio(1, 2) }
}

pub fn radial_center() -> (res: GradientKind)
    ensures
        res == centered(),
{
    GradientKind::Radial { center_x: Double::ratio(1, 2), center_y: Double::ratio(1, 2) }
}

pub open spec fn described_background(c: BackgroundControls) -> BackgroundView {
    match c.selected {
        1 => BackgroundView::Gradient(two_colors(GradientKind::Linear { angle_deg: c.angle_deg }, c.color1, c.color2)),
        2 => BackgroundView::Gradient(two_colors(centered(), c.color1, c.color2)),
        _ => BackgroundView::Solid(c.color1),
    }
}

/// The background that the controls describe.
pub fn background_from_controls(c: BackgroundControls) -> (res: Background)
    ensures
        res@ == described_background(c),
{
    match c.selected {
        1 => Background::Gradient(gradient_between(GradientKind::Linear { angle_deg: c.angle_deg }, c.color1, c.color2)),
        2 => Background::Gradient(gradient_between(radial_center(), c.color1, c.color2)),
        _ => Background::Solid(c.color1),
    }
}

/// Which of the background's rows are there.
#[derive(Clone, Copy, Debug, PartialEq, Eq, Structural)]
pub struct BackgroundRows {
    pub color1: bool,
    pub color2: bool,
    pub angle: bool,
    pub auto_colors: bool,
    pub image: bool,
    pub generator: bool,
    pub manual_colors: bool,
    pub inverse_contrast: bool,
}

/// The rows for an entry of the list of backgrounds.
pub open spec fn rows_for(selected: u32, strategy: ColorStrategy) -> BackgroundRows {
    BackgroundRows {
        color1: selected != 3 && selected != 4,
        color2: selected == 1 || selected == 2,
        angle: selected == 1,
        auto_colors: selected == 1 || selected == 2,
        image: selected == 3,
        generator: selected == 4,
        manual_colors: selected == 4 && strategy == ColorStrategy::Manual,
        inverse_contrast: selected == 4 && strategy == ColorStrategy::FromScreenshots,
    }
}

pub fn background_rows(selected: u32, strategy: ColorStrategy) -> (res: BackgroundRows)
    ensures
        res == rows_for(selected, strategy),
{
    BackgroundRows {
        color1: selected != 3 && selected != 4,
        color2: selected == 1 || selected == 2,
        angle: selected == 1,
        auto_colors: selected == 1 || selected == 2,
        image: selected == 3,
        generator: selected == 4,
        manual_colors: selected == 4 && strategy == ColorStrategy::Manual,
        inverse_contrast: selected == 4 && strategy == ColorStrategy::FromScreenshots,
    }
}

/// What the background's controls show. A value that the background does not
/// have leaves its control as it is.
#[derive(Clone, Copy, Debug, PartialEq)]
pub struct ShownBackground {
    pub rows: BackgroundRows,
    pub selected: u32,
    pub color1: Option<Rgba>,
    pub color2: Option<Rgba>,
    pub angle_deg: Option<Double>,
    pub fit: Option<u32>,
    /// In percent.
    pub opacity: Option<Double>,
}

pub open spec fn background_place(background: BackgroundView) -> u32 {
    match background {
        BackgroundView::Solid(_) => 0,
        BackgroundView::Gradient(g) => match g.kind {
            GradientKind::Linear { .. } => 1,
            GradientKind::Radial { .. } => 2,
        },
        BackgroundView::Image(_) => 3,
        BackgroundView::Generated(_) => 4,
    }
}

pub open spec fn shown_background(background: BackgroundView) -> ShownBackground {
    let linear = background matches BackgroundView::Gradient(g) && g.kind is Linear;
    ShownBackground {
        rows: BackgroundRows {
            color1: !(background is Image) && !(background is Generated),
            color2: background is Gradient,
            angle: linear,
            auto_colors: background is Gradient,
            image: background is Image,
            generator: background is Generated,
            manual_colors: background matches BackgroundView::Generated(g) && g.color_strategy
                == ColorStrategy::Manual,
            inverse_contrast: background matches BackgroundView::Generated(g) && g.color_strategy
                == ColorStrategy::FromScreenshots,
        },
        selected: background_place(background),
        color1: match background {
            BackgroundView::Solid(color) => Some(color),
            BackgroundView::Gradient(g) => stop_color(g, 0),
            _ => None,
        },
        color2: match background {
            BackgroundView::Gradient(g) => stop_color(g, 1),
            _ => None,
        },
        angle_deg: match background {
            BackgroundView::Gradient(g) => match g.kind {
                GradientKind::Linear { angle_deg } => Some(angle_deg),
                GradientKind::Radial { .. } => None,
            },
            _ => None,
        },
        fit: match background {
            BackgroundView::Image(i) => Some(image_fit_place(i.fit)),
            _ => None,
        },
        opacity: match background {
            BackgroundView::Image(i) => Some(to_percent(i.opacity)),
            _ => None,
        },
    }
}

/// What the background's controls show.
pub fn sync_background_controls(background: &Background) -> (res: ShownBackground)
    ensures
        res == shown_background(background@),
{
    match background {
        Background::Solid(color) => ShownBackground {
            rows: background_rows(0, ColorStrategy::Manual),
            selected: 0,
            color1: Some(*color),
            color2: None,
            angle_deg: None,
            fit: None,
            opacity: None,
        },
        Background::Gradient(g) => {
            let (selected, angle_deg) = match g.kind {
                GradientKind::Linear { angle_deg } => (1u32, Some(angle_deg)),
                GradientKind::Radial { .. } => (2u32, None),
            };
            ShownBackground {
                rows: background_rows(selected, ColorStrategy::Manual),
                selected,
                color1: color_of_stop(g, 0),
                color2: color_of_stop(g, 1),
                angle_deg,
                fit: None,
                opacity: None,
            }
        },
        Background::Image(image) => ShownBackground {
            rows: background_rows(3, ColorStrategy::Manual),
            selected: 3,
            color1: None,
            color2: None,
            angle_deg: None,
            fit: Some(index_for_background_image_fit(image.fit)),
            opacity: Some(image.opacity.times(Double::from_int(100))),
        },
        Background::Generated(generated) => ShownBackground {
            rows: background_rows(4, generated.color_strategy),
            selected: 4,
            color1: None,
            color2: None,
            angle_deg: None,
            fit: None,
            opacity: None,
        },
    }
}

/// Whether controls hold what is shown of a background.
pub open spec fn background_controls_show(c: BackgroundControls, shown: ShownBackground) -> bool {
    &&& c.selected == shown.selected
    &&& shown.color1 matches Some(v) ==> c.color1 == v
    &&& shown.color2 matches Some(v) ==> c.color2 == v
    &&& shown.angle_deg matches Some(v) ==> c.angle_deg == v
}

/// Controls that show a plain background describe it again, if it is a color
/// or a gradient of the kind that they describe.
pub proof fn law_shown_background_is_described(c: BackgroundControls, background: BackgroundView)
    requires
        background_controls_show(c, shown_background(background)),
        background is Solid || (background matches BackgroundView::Gradient(g) && g.stops.len() == 2 && g.stops[0].0
            == int_double(0) && g.stops[1].0 == int_double(1) && (g.kind is Radial ==> g.kind == centered())),
    ensures
        described_background(c) == background,
{
    match background {
        BackgroundView::Gradient(g) => {
            assert(two_colors(g.kind, g.stops[0].1, g.stops[1].1).stops =~= g.stops);
            assert(two_colors(g.kind, g.stops[0].1, g.stops[1].1) == g);
        },
        _ => {},
    }
}

/// The rows for the entries that a text is shown at are the rows that are shown
/// for it.
pub proof fn law_entries_decide_the_text_rows(text: TextElementView, length: Double, angle_rad: Double)
    ensures
        ({
            let shown = shown_text(text, length, angle_rad);
            text_rows_for(shown.position_mode, shown.background) == shown.rows
        }),
{
}

/// The rows for the entry that a background is shown at are the rows that are
/// shown for it.
pub proof fn law_entry_decides_the_rows(background: BackgroundView, strategy: ColorStrategy)
    requires
        background matches BackgroundView::Generated(g) ==> g.color_strategy == strategy,
    ensures
        rows_for(background_place(background), strategy) == shown_background(background).rows,
{
}

/// The values of the generator's controls, those of the sliders in percent.
#[derive(Clone, Copy, Debug, PartialEq)]
pub struct GeneratorControls {
    pub seed: Double,
    pub strategy: u32,
    pub color1: Rgba,
    pub color2: Rgba,
    pub color3: Rgba,
    pub color4: Rgba,
    pub adapt: bool,
    pub inverse_contrast: Double,
    pub corner_bias: Double,
    pub offset_x: Double,
    pub offset_y: Double,
    pub scale: Double,
    pub contrast: Double,
}

/// The four colors of the user's own.
pub open spec fn own_colors(c: GeneratorControls) -> Seq<Rgba> {
    seq![c.color1, c.color2, c.color3, c.color4]
}

pub fn manual_palette(c: GeneratorControls) -> (res: Vec<Rgba>)
    ensures
        res@ == own_colors(c),
{
    let res: Vec<Rgba> = vec![c.color1, c.color2, c.color3, c.color4];
    res
}

/// The parameters that have no control of their own.
#[derive(Clone, Copy, Debug, PartialEq)]
pub struct Drawn {
    pub seed: u64,
    pub density: Double,
    pub flow: Double,
    pub variation: Double,
    pub softness: Double,
}

/// The generated background with a palette and parameters of which the
/// controls say the rest.
pub open spec fn described_generated(c: GeneratorControls, drawn: Drawn, palette: Seq<Rgba>) -> GeneratedBackgroundView {
    GeneratedBackgroundView {
        seed: drawn.seed,
        color_strategy: color_strategy_at(c.strategy),
        palette,
        adapt_to_screenshots: c.adapt,
        inverse_contrast: from_percent(c.inverse_contrast),
        density: drawn.density,
        flow: drawn.flow,
        variation: drawn.variation,
        contrast: from_percent(c.contrast),
        softness: drawn.softness,
        corner_bias: from_percent(c.corner_bias),
        offset_x: from_percent(c.offset_x),
        offset_y: from_percent(c.offset_y),
        scale: from_percent(c.scale),
    }
}

pub fn generated_from_controls(c: GeneratorControls, drawn: Drawn, palette: Vec<Rgba>) -> (res: GeneratedBackground)
    ensures
        res@ == described_generated(c, drawn, palette@),
{
    let hundred = Double::from_int(100);
    GeneratedBackground {
        seed: drawn.seed,
        color_strategy: color_strategy_for_index(c.strategy),
        palette,
        adapt_to_screenshots: c.adapt,
        inverse_contrast: c.inverse_contrast.over(hundred),
        density: drawn.density,
        flow: drawn.flow,
        variation: drawn.variation,
        contrast: c.contrast.over(hundred),
        softness: drawn.softness,
        corner_bias: c.corner_bias.over(hundred),
        offset_x: c.offset_x.over(hundred),
        offset_y: c.offset_y.over(hundred),
        scale: c.scale.over(hundred),
    }
}

/// A number as a seed: without its fraction, and no further than a seed goes.
pub open spec fn seed_of(v: Double) -> u64 {
    clip(whole(v, Rounding::Truncate), 0, u64::MAX as int) as u64
}

pub fn seed_from(v: Double) -> (res: u64)
    ensures
        res == seed_of(v),
{
    v.to_int(Rounding::Truncate, 0, u64::MAX as i128) as u64
}

/// The gray that stands in for a color that the palette does not have.
pub open spec fn stand_in_gray() -> Rgba {
    Rgba { r: ratio(1, 2), g: ratio(1, 2), b: ratio(1, 2), a: int_double(1) }
}

pub open spec fn palette_color(palette: Seq<Rgba>, i: int) -> Rgba {
    if i < palette.len() {
        palette[i]
    } else {
        stand_in_gray()
    }
}

fn color_of_palette(palette: &Vec<Rgba>, i: usize) -> (res: Rgba)
    ensures
        res == palette_color(palette@, i as int),
{
    if i < palette.len() {
        palette[i]
    } else {
        let half = Double::ratio(1, 2);
        Rgba { r: half, g: half, b: half, a: Double::one() }
    }
}

pub open spec fn shown_generated(g: GeneratedBackgroundView) -> GeneratorControls {
    GeneratorControls {
        seed: int_double(g.seed as int),
        strategy: color_strategy_place(g.color_strategy),
        color1: palette_color(g.palette, 0),
        color2: palette_color(g.palette, 1),
        color3: palette_color(g.palette, 2),
        color4: palette_color(g.palette, 3),
        adapt: g.adapt_to_screenshots,
        inverse_contrast: to_percent(g.inverse_contrast),
        corner_bias: to_percent(g.corner_bias),
        offset_x: to_percent(g.offset_x),
        offset_y: to_percent(g.offset_y),
        scale: to_percent(g.scale),
        contrast: to_percent(g.contrast),
    }
}

/// What the generator's controls show of a generated background.
pub fn sync_generator_controls(g: &GeneratedBackground) -> (res: GeneratorControls)
    ensures
        res == shown_generated(g@),
{
    let hundred = Double::from_int(100);
    GeneratorControls {
        seed: Double::from_u64(g.seed),
        strategy: index_for_color_strategy(g.color_strategy),
        color1: color_of_palette(&g.palette, 0),
        color2: color_of_palette(&g.palette, 1),
        color3: color_of_palette(&g.palette, 2),
        color4: color_of_palette(&g.palette, 3),
        adapt: g.adapt_to_screenshots,
        inverse_contrast: g.inverse_contrast.times(hundred),
        corner_bias: g.corner_bias.times(hundred),
        offset_x: g.offset_x.times(hundred),
        offset_y: g.offset_y.times(hundred),
        scale: g.scale.times(hundred),
        contrast: g.contrast.times(hundred),
    }
}

/// The parameters of a generated background that the controls do not hold,
/// with the seed that they show.
pub open spec fn drawn_before(g: GeneratedBackgroundView, seed: u64) -> Drawn {
    Drawn { seed, density: g.density, flow: g.flow, variation: g.variation, softness: g.softness }
}

/// The palette that the controls leave a generated background: the user's own
/// colors, or the one it has.
pub open spec fn kept_palette(c: GeneratorControls, palette: Seq<Rgba>) -> Seq<Rgba> {
    if color_strategy_at(c.strategy) == ColorStrategy::Manual {
        own_colors(c)
    } else {
        palette
    }
}

/// Controls that show a generated background describe it again, if its seed
/// has no more digits than a number of the controls, its fractions survive the
/// way to a percentage and back, and a palette of the user's own has the four
/// colors that there are controls for.
pub proof fn law_shown_generator_is_described(g: GeneratedBackgroundView)
    requires
        g.seed <= 0x20_0000_0000_0000,
        g.color_strategy == ColorStrategy::Manual ==> g.palette.len() == 4,
        from_percent(to_percent(g.inverse_contrast)) == g.inverse_contrast,
        from_percent(to_percent(g.corner_bias)) == g.corner_bias,
        from_percent(to_percent(g.offset_x)) == g.offset_x,
        from_percent(to_percent(g.offset_y)) == g.offset_y,
        from_percent(to_percent(g.scale)) == g.scale,
        from_percent(to_percent(g.contrast)) == g.contrast,
    ensures
        ({
            let c = shown_generated(g);
            described_generated(c, drawn_before(g, seed_of(c.seed)), kept_palette(c, g.palette)) == g
        }),
{
    let c = shown_generated(g);
    lemma_whole_of_int(g.seed as int, Rounding::Truncate);
    if g.color_strategy == ColorStrategy::Manual {
        assert(own_colors(c) =~= g.palette);
    }
}

// ---------------------------------------------------------------------------
// Export
// ---------------------------------------------------------------------------

/// The height that an export has at its target width.
pub open spec fn export_height(canvas: CanvasSettings) -> Double {
    let width: int = if canvas.export_width < 1 {
        1
    } else {
        canvas.export_width as int
    };
    let scale = quot(int_double(canvas.export_target_width as int), int_double(width));
    let height = whole(prod(int_double(canvas.export_height as int), scale), Rounding::Nearest);
    larger(int_double(clip(height, 0, u64::MAX as int)), int_double(1))
}

/// The height that the sidebar shows next to the target width.
pub fn update_export_height_display(canvas: CanvasSettings) -> (res: Double)
    ensures
        res == export_height(canvas),
{
    let width: u32 = if canvas.export_width < 1 {
        1
    } else {
        canvas.export_width
    };
    let scale = Double::from_int(canvas.export_target_width as i64).over(Double::from_int(width as i64));
    let height: u64 = Double::from_int(canvas.export_height as i64).times(scale).to_int(
        Rounding::Nearest,
        0,
        u64::MAX as i128,
    ) as u64;
    Double::from_u64(height).max(Double::one())
}

/// Whether a format's encoder reads the quality.
pub fn format_supports_quality(format: ExportFormat) -> (res: bool)
    ensures
        res == (format != ExportFormat::Png),
{
    match format {
        ExportFormat::Png => false,
        _ => true,
    }
}

/// The extension of a format's files.
pub fn extension_for_format(format: ExportFormat) -> (res: &'static str)
    ensures
        res@ == match format {
            ExportFormat::Png => "png"@,
            ExportFormat::Jpeg => "jpg"@,
            ExportFormat::WebP => "webp"@,
            ExportFormat::Avif => "avif"@,
        },
{
    match format {
        ExportFormat::Png => "png",
        ExportFormat::Jpeg => "jpg",
        ExportFormat::WebP => "webp",
        ExportFormat::Avif => "avif",
    }
}

} // verus!
