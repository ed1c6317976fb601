//! The document model of a composition: pure data, with no widgets and no
//! undo history.
pub mod background;
pub mod document;
pub mod geometry;
pub mod text;

pub use background::{
    Background, BackgroundImageFit, ColorStrategy, GeneratedBackground, GradientKind, GradientSpec,
    ImageBackgroundSpec, ImageSource, VectorShape,
};
pub use document::{CanvasSettings, Document, ExportFormat, LayoutMode, LayoutSettings, ScreenshotElement};
pub use geometry::{Corner, CornerRadius, Rgba, ShadowParams, ShadowPreset, Transform};
pub use text::{
    HorizontalAnchor, TextAlign, TextBackground, TextElement, TextPosition, Typography, VerticalAnchor,
};
