//! Titles and labels.
use crate::double::{diff, prod, quot, Double};
use crate::model::background::{GradientSpec, GradientSpecView};
use crate::model::geometry::{no_radius, no_shadow, opaque_black, opaque_white, CornerRadius, Rgba, ShadowParams};
use crate::order::larger;
use crate::whole::{int_double, ratio};
use vstd::prelude::*;

verus! {

/// Where a text box sits horizontally within its reference rectangle.
#[derive(Clone, Copy, Debug, PartialEq, Eq, Structural)]
pub enum HorizontalAnchor {
    Left,
    Center,
    Right,
}

/// Where a text box sits vertically within its reference rectangle.
#[derive(Clone, Copy, Debug, PartialEq, Eq, Structural)]
pub enum VerticalAnchor {
    Top,
    Center,
    Bottom,
}

/// Where a text box is placed. A semantic position is resolved against the
/// current size of its reference rectangle, so that it follows a resize.
#[derive(Clone, Copy, Debug, PartialEq)]
pub enum TextPosition {
    Semantic { horizontal: HorizontalAnchor, vertical: VerticalAnchor, padding: Double },
    /// The box's upper left corner.
    Absolute { x: Double, y: Double },
}

/// How far in a box of extent `size` begins that sits in the middle of `room`.
pub open spec fn middle(room: Double, size: Double) -> Double {
    quot(diff(room, size), int_double(2))
}

pub open spec fn far(room: Double, size: Double, padding: Double) -> Double {
    diff(diff(room, size), padding)
}

impl TextPosition {
    /// The upper left corner of a box of the given size.
    pub open spec fn origin(self, ref_w: Double, ref_h: Double, box_w: Double, box_h: Double) -> (Double, Double) {
        match self {
            TextPosition::Absolute { x, y } => (x, y),
            TextPosition::Semantic { horizontal, vertical, padding } => (
                match horizontal {
                    HorizontalAnchor::Left => padding,
                    HorizontalAnchor::Center => middle(ref_w, box_w),
                    HorizontalAnchor::Right => far(ref_w, box_w, padding),
                },
                match vertical {
                    VerticalAnchor::Top => padding,
                    VerticalAnchor::Center => middle(ref_h, box_h),
                    VerticalAnchor::Bottom => far(ref_h, box_h, padding),
                },
            ),
        }
    }

    /// The upper left corner of a `box_w` by `box_h` box within a reference
    /// rectangle of `ref_w` by `ref_h`.
    pub fn resolve_box_origin(&self, ref_w: Double, ref_h: Double, box_w: Double, box_h: Double) -> (res: (Double, Double))
        ensures
            res == self.origin(ref_w, ref_h, box_w, box_h),
    {
        match *self {
            TextPosition::Absolute { x, y } => (x, y),
            TextPosition::Semantic { horizontal, vertical, padding } => {
                let x = match horizontal {
                    HorizontalAnchor::Left => padding,
                    HorizontalAnchor::Center => ref_w.minus(box_w).over(Double::from_int(2)),
                    HorizontalAnchor::Right => ref_w.minus(box_w).minus(padding),
                };
                let y = match vertical {
                    VerticalAnchor::Top => padding,
                    VerticalAnchor::Center => ref_h.minus(box_h).over(Double::from_int(2)),
                    VerticalAnchor::Bottom => ref_h.minus(box_h).minus(padding),
                };
                (x, y)
            },
        }
    }
}

/// An absolute position is the same in every reference rectangle.
pub proof fn law_absolute_position_is_fixed(
    x: Double,
    y: Double,
    ref_w: Double,
    ref_h: Double,
    box_w: Double,
    box_h: Double,
)
    ensures
        (TextPosition::Absolute { x, y }).origin(ref_w, ref_h, box_w, box_h) == (x, y),
{
}

/// How lines are aligned within the box.
#[derive(Clone, Copy, Debug, PartialEq, Eq, Structural)]
pub enum TextAlign {
    Left,
    Center,
    Right,
}

#[derive(Debug, PartialEq)]
pub struct Typography {
    pub font_family: String,
    pub font_size: Double,
    /// From 100 to 900; 400 is normal and 700 bold.
    pub weight: i32,
    pub italic: bool,
    pub color: Rgba,
    pub alignment: TextAlign,
    /// Multiplies the color's own alpha.
    pub opacity: Double,
    pub letter_spacing: Double,
    pub line_spacing: Double,
    pub wrap: bool,
}

#[verifier::ext_equal]
pub struct TypographyView {
    pub font_family: Seq<char>,
    pub font_size: Double,
    pub weight: i32,
    pub italic: bool,
    pub color: Rgba,
    pub alignment: TextAlign,
    pub opacity: Double,
    pub letter_spacing: Double,
    pub line_spacing: Double,
    pub wrap: bool,
}

impl View for Typography {
    type V = TypographyView;

    open spec fn view(&self) -> TypographyView {
        TypographyView {
            font_family: self.font_family@,
            font_size: self.font_size,
            weight: self.weight,
            italic: self.italic,
            color: self.color,
            alignment: self.alignment,
            opacity: self.opacity,
            letter_spacing: self.letter_spacing,
            line_spacing: self.line_spacing,
            wrap: self.wrap,
        }
    }
}

impl Clone for Typography {
    fn clone(&self) -> (res: Typography)
        ensures
            res@ == self@,
    {
        Typography {
            font_family: self.font_family.clone(),
            font_size: self.font_size,
            weight: self.weight,
            italic: self.italic,
            color: self.color,
            alignment: self.alignment,
            opacity: self.opacity,
            letter_spacing: self.letter_spacing,
            line_spacing: self.line_spacing,
            wrap: self.wrap,
        }
    }
}

/// Bold centered sans-serif text of one size and color.
pub open spec fn plain_typography(font_size: int, color: Rgba) -> TypographyView {
    TypographyView {
        font_family: "Sans"@,
        font_size: int_double(font_size),
        weight: 700,
        italic: false,
        color,
        alignment: TextAlign::Center,
        opacity: int_double(1),
        letter_spacing: int_double(0),
        line_spacing: ratio(12, 10),
        wrap: false,
    }
}

impl Typography {
    fn plain(font_size: i64, color: Rgba) -> (res: Typography)
        ensures
            res@ == plain_typography(font_size as int, color),
    {
        Typography {
            font_family: "Sans".to_string(),
            font_size: Double::from_int(font_size),
            weight: 700,
            italic: false,
            color,
            alignment: TextAlign::Center,
            opacity: Double::one(),
            letter_spacing: Double::zero(),
            line_spacing: Double::ratio(12, 10),
            wrap: false,
        }
    }

    pub fn title_default() -> (res: Typography)
        ensures
            res@ == plain_typography(32, opaque_black()),
    {
        Typography::plain(32, Rgba::black())
    }

    pub fn label_default() -> (res: Typography)
        ensures
            res@ == plain_typography(18, opaque_white()),
    {
        Typography::plain(18, Rgba::white())
    }
}

/// What a text box is filled with.
#[derive(Debug, PartialEq)]
pub enum TextBackground {
    Clear,
    Solid(Rgba),
    Gradient(GradientSpec),
}

#[verifier::ext_equal]
pub enum TextBackgroundView {
    Clear,
    Solid(Rgba),
    Gradient(GradientSpecView),
}

impl View for TextBackground {
    type V = TextBackgroundView;

    open spec fn view(&self) -> TextBackgroundView {
        match self {
            TextBackground::Clear => TextBackgroundView::Clear,
            TextBackground::Solid(color) => TextBackgroundView::Solid(*color),
            TextBackground::Gradient(gradient) => TextBackgroundView::Gradient(gradient@),
        }
    }
}

impl Clone for TextBackground {
    fn clone(&self) -> (res: TextBackground)
        ensures
            res@ == self@,
    {
        match self {
            TextBackground::Clear => TextBackground::Clear,
            TextBackground::Solid(color) => TextBackground::Solid(*color),
            TextBackground::Gradient(gradient) => TextBackground::Gradient(gradient.clone()),
        }
    }
}

impl Default for TextBackground {
    fn default() -> (res: TextBackground)
        ensures
            res@ == TextBackgroundView::Clear,
    {
        TextBackground::Clear
    }
}

/// A text with its box: a composition's title, placed within the canvas, or a
/// screenshot's label, placed within the screenshot.
#[derive(Debug, PartialEq)]
pub struct TextElement {
    pub enabled: bool,
    pub content: String,
    pub position: TextPosition,
    pub typography: Typography,
    pub background: TextBackground,
    pub corner_radius: CornerRadius,
    /// The gap between the box's edge and the text.
    pub background_padding: Double,
    pub shadow: ShadowParams,
}

#[verifier::ext_equal]
pub struct TextElementView {
    pub enabled: bool,
    pub content: Seq<char>,
    pub position: TextPosition,
    pub typography: TypographyView,
    pub background: TextBackgroundView,
    pub corner_radius: CornerRadius,
    pub background_padding: Double,
    pub shadow: ShadowParams,
}

impl View for TextElement {
    type V = TextElementView;

    open spec fn view(&self) -> TextElementView {
        TextElementView {
            enabled: self.enabled,
            content: self.content@,
            position: self.position,
            typography: self.typography@,
            background: self.background@,
            corner_radius: self.corner_radius,
            background_padding: self.background_padding,
            shadow: self.shadow,
        }
    }
}

impl Clone for TextElement {
    fn clone(&self) -> (res: TextElement)
        ensures
            res@ == self@,
    {
        TextElement {
            enabled: self.enabled,
            content: self.content.clone(),
            position: self.position,
            typography: self.typography.clone(),
            background: self.background.clone(),
            corner_radius: self.corner_radius,
            background_padding: self.background_padding,
            shadow: self.shadow,
        }
    }
}

/// A disabled, empty text, horizontally centered at one edge.
pub open spec fn empty_text(
    vertical: VerticalAnchor,
    padding: int,
    typography: TypographyView,
    background_padding: int,
) -> TextElementView {
    TextElementView {
        enabled: false,
        content: Seq::empty(),
        position: TextPosition::Semantic {
            horizontal: HorizontalAnchor::Center,
            vertical,
            padding: int_double(padding),
        },
        typography,
        background: TextBackgroundView::Clear,
        corner_radius: no_radius(),
        background_padding: int_double(background_padding),
        shadow: no_shadow(),
    }
}

/// The title of a new document.
pub open spec fn default_title() -> TextElementView {
    empty_text(VerticalAnchor::Top, 32, plain_typography(32, opaque_black()), 16)
}

/// The label of a new screenshot.
pub open spec fn default_label() -> TextElementView {
    empty_text(VerticalAnchor::Bottom, 16, plain_typography(18, opaque_white()), 8)
}

impl TextElement {
    fn empty(vertical: VerticalAnchor, padding: i64, typography: Typography, background_padding: i64) -> (res: TextElement)
        ensures
            res@ == empty_text(vertical, padding as int, typography@, background_padding as int),
    {
        TextElement {
            enabled: false,
            content: String::new(),
            position: TextPosition::Semantic {
                horizontal: HorizontalAnchor::Center,
                vertical,
                padding: Double::from_int(padding),
            },
            typography,
            background: TextBackground::Clear,
            corner_radius: CornerRadius::none(),
            background_padding: Double::from_int(background_padding),
            shadow: ShadowParams::none(),
        }
    }

    pub fn title_default() -> (res: TextElement)
        ensures
            res@ == default_title(),
    {
        TextElement::empty(VerticalAnchor::Top, 32, Typography::title_default(), 16)
    }

    pub fn label_default() -> (res: TextElement)
        ensures
            res@ == default_label(),
    {
        TextElement::empty(VerticalAnchor::Bottom, 16, Typography::label_default(), 8)
    }

    /// The width that long content wraps within: the reference rectangle's,
    /// less the edge padding on both sides of a semantic position.
    pub fn wrap_width(&self, ref_w: Double) -> (res: Double)
        ensures
            res == wrap_room(self.position, ref_w),
    {
        match self.position {
            TextPosition::Absolute { .. } => ref_w.max(Double::one()),
            TextPosition::Semantic { padding, .. } => {
                ref_w.minus(Double::from_int(2).times(padding)).max(Double::one())
            },
        }
    }
}

/// The width that the text at `position` wraps within.
pub open spec fn wrap_room(position: TextPosition, ref_w: Double) -> Double {
    match position {
        TextPosition::Absolute { .. } => larger(ref_w, int_double(1)),
        TextPosition::Semantic { padding, .. } => larger(
            diff(ref_w, prod(int_double(2), padding)),
            int_double(1),
        ),
    }
}

} // verus!
