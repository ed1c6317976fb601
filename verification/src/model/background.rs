//! Image sources, gradients and the canvas background.
use crate::double::Double;
use crate::model::geometry::Rgba;
use crate::whole::{int_double, ratio};
use std::path::PathBuf;
use vstd::prelude::*;

verus! {

/// A path of the file system.
#[verifier::external_type_specification]
#[verifier::external_body]
pub struct ExPathBuf(PathBuf);

/// `PathBuf::clone` returns an equal path.
pub assume_specification[ <PathBuf as Clone>::clone ](path: &PathBuf) -> (res: PathBuf)
    ensures
        res == *path,
;

/// A copy of a vector.
pub fn copied<T: Copy>(v: &Vec<T>) -> (res: Vec<T>)
    ensures
        res@ == v@,
{
    let mut res: Vec<T> = Vec::new();
    let mut i: usize = 0;
    while i < v.len()
        invariant
            i <= v.len(),
            res@ == v@.take(i as int),
        decreases v.len() - i,
    {
        res.push(v[i]);
        i = i + 1;
        proof {
            assert(v@.take(i as int) =~= v@.take(i - 1).push(v@[i - 1]));
        }
    }
    proof {
        assert(v@.take(i as int) =~= v@);
    }
    res
}

/// Where an image's pixels come from.
#[derive(Debug, PartialEq)]
pub enum ImageSource {
    Path(PathBuf),
    Embedded { filename: String, bytes: Vec<u8> },
}

#[verifier::ext_equal]
pub enum ImageSourceView {
    Path(PathBuf),
    Embedded { filename: Seq<char>, bytes: Seq<u8> },
}

impl View for ImageSource {
    type V = ImageSourceView;

    open spec fn view(&self) -> ImageSourceView {
        match self {
            ImageSource::Path(path) => ImageSourceView::Path(*path),
            ImageSource::Embedded { filename, bytes } => ImageSourceView::Embedded {
                filename: filename@,
                bytes: bytes@,
            },
        }
    }
}

impl Clone for ImageSource {
    fn clone(&self) -> (res: ImageSource)
        ensures
            res@ == self@,
    {
        match self {
            ImageSource::Path(path) => ImageSource::Path(path.clone()),
            ImageSource::Embedded { filename, bytes } => ImageSource::Embedded {
                filename: filename.clone(),
                bytes: copied(bytes),
            },
        }
    }
}

#[derive(Clone, Copy, Debug, PartialEq)]
pub enum GradientKind {
    Linear { angle_deg: Double },
    Radial { center_x: Double, center_y: Double },
}

/// A gradient: where it runs, and its stops ordered by position.
#[derive(Debug, PartialEq)]
pub struct GradientSpec {
    pub kind: GradientKind,
    pub stops: Vec<(Double, Rgba)>,
}

#[verifier::ext_equal]
pub struct GradientSpecView {
    pub kind: GradientKind,
    pub stops: Seq<(Double, Rgba)>,
}

impl View for GradientSpec {
    type V = GradientSpecView;

    open spec fn view(&self) -> GradientSpecView {
        GradientSpecView { kind: self.kind, stops: self.stops@ }
    }
}

impl Clone for GradientSpec {
    fn clone(&self) -> (res: GradientSpec)
        ensures
            res@ == self@,
    {
        GradientSpec { kind: self.kind, stops: copied(&self.stops) }
    }
}

#[derive(Clone, Copy, Debug, PartialEq, Eq, Structural)]
pub enum BackgroundImageFit {
    Cover,
    Contain,
    Fill,
    Tile,
}

#[derive(Debug, PartialEq)]
pub struct ImageBackgroundSpec {
    pub source: ImageSource,
    pub fit: BackgroundImageFit,
    pub opacity: Double,
}

#[verifier::ext_equal]
pub struct ImageBackgroundSpecView {
    pub source: ImageSourceView,
    pub fit: BackgroundImageFit,
    pub opacity: Double,
}

impl View for ImageBackgroundSpec {
    type V = ImageBackgroundSpecView;

    open spec fn view(&self) -> ImageBackgroundSpecView {
        ImageBackgroundSpecView { source: self.source@, fit: self.fit, opacity: self.opacity }
    }
}

impl Clone for ImageBackgroundSpec {
    fn clone(&self) -> (res: ImageBackgroundSpec)
        ensures
            res@ == self@,
    {
        ImageBackgroundSpec { source: self.source.clone(), fit: self.fit, opacity: self.opacity }
    }
}

/// How a generated background's palette is derived.
#[derive(Clone, Copy, Debug, PartialEq, Eq, Structural)]
pub enum ColorStrategy {
    /// The user's own colors.
    Manual,
    /// The screenshots' dominant color, shifted toward its complement.
    FromScreenshots,
    /// A lightness ramp without a hue.
    Grayscale,
    /// A fresh palette that ignores the screenshots.
    Random,
}

/// A background drawn from a seed and a handful of parameters. It holds the
/// inputs of the drawing only: the same inputs give the same scene.
#[derive(Debug, PartialEq)]
pub struct GeneratedBackground {
    pub seed: u64,
    pub color_strategy: ColorStrategy,
    /// The palette that the background was last generated with.
    pub palette: Vec<Rgba>,
    /// Whether a change of the visible screenshots derives the palette anew.
    /// Palettes that are the user's own or random derive from no screenshots.
    pub adapt_to_screenshots: bool,
    pub inverse_contrast: Double,
    pub density: Double,
    pub flow: Double,
    pub variation: Double,
    pub contrast: Double,
    pub softness: Double,
    /// Zero reads as flat wave bands, one as arcs around a canvas corner.
    pub corner_bias: Double,
    pub offset_x: Double,
    pub offset_y: Double,
    pub scale: Double,
}

#[verifier::ext_equal]
pub struct GeneratedBackgroundView {
    pub seed: u64,
    pub color_strategy: ColorStrategy,
    pub palette: Seq<Rgba>,
    pub adapt_to_screenshots: bool,
    pub inverse_contrast: Double,
    pub density: Double,
    pub flow: Double,
    pub variation: Double,
    pub contrast: Double,
    pub softness: Double,
    pub corner_bias: Double,
    pub offset_x: Double,
    pub offset_y: Double,
    pub scale: Double,
}

impl View for GeneratedBackground {
    type V = GeneratedBackgroundView;

    open spec fn view(&self) -> GeneratedBackgroundView {
        GeneratedBackgroundView {
            seed: self.seed,
            color_strategy: self.color_strategy,
            palette: self.palette@,
            adapt_to_screenshots: self.adapt_to_screenshots,
            inverse_contrast: self.inverse_contrast,
            density: self.density,
            flow: self.flow,
            variation: self.variation,
            contrast: self.contrast,
            softness: self.softness,
            corner_bias: self.corner_bias,
            offset_x: self.offset_x,
            offset_y: self.offset_y,
            scale: self.scale,
        }
    }
}

impl Clone for GeneratedBackground {
    fn clone(&self) -> (res: GeneratedBackground)
        ensures
            res@ == self@,
    {
        GeneratedBackground {
            seed: self.seed,
            color_strategy: self.color_strategy,
            palette: copied(&self.palette),
            adapt_to_screenshots: self.adapt_to_screenshots,
            inverse_contrast: self.inverse_contrast,
            density: self.density,
            flow: self.flow,
            variation: self.variation,
            contrast: self.contrast,
            softness: self.softness,
            corner_bias: self.corner_bias,
            offset_x: self.offset_x,
            offset_y: self.offset_y,
            scale: self.scale,
        }
    }
}

/// A shape of a decoration.
#[derive(Clone, Copy, Debug, PartialEq)]
pub enum VectorShape {
    Circle { cx: Double, cy: Double, radius: Double, color: Rgba },
    Line { x1: Double, y1: Double, x2: Double, y2: Double, width: Double, color: Rgba },
}

/// What a background generated for the first time starts from.
pub open spec fn fresh_generated(seed: u64) -> GeneratedBackgroundView {
    GeneratedBackgroundView {
        seed,
        color_strategy: ColorStrategy::FromScreenshots,
        palette: Seq::empty(),
        adapt_to_screenshots: true,
        inverse_contrast: ratio(5, 10),
        density: ratio(4, 10),
        flow: ratio(5, 10),
        variation: ratio(4, 10),
        contrast: ratio(5, 10),
        softness: ratio(6, 10),
        corner_bias: ratio(5, 10),
        offset_x: int_double(0),
        offset_y: int_double(0),
        scale: int_double(1),
    }
}

impl GeneratedBackground {
    /// A fresh background with restrained defaults.
    pub fn new(seed: u64) -> (res: GeneratedBackground)
        ensures
            res@ == fresh_generated(seed),
    {
        GeneratedBackground {
            seed,
            color_strategy: ColorStrategy::FromScreenshots,
            palette: Vec::new(),
            adapt_to_screenshots: true,
            inverse_contrast: Double::ratio(5, 10),
            density: Double::ratio(4, 10),
            flow: Double::ratio(5, 10),
            variation: Double::ratio(4, 10),
            contrast: Double::ratio(5, 10),
            softness: Double::ratio(6, 10),
            corner_bias: Double::ratio(5, 10),
            offset_x: Double::zero(),
            offset_y: Double::zero(),
            scale: Double::one(),
        }
    }
}

#[derive(Debug, PartialEq)]
pub enum Background {
    Solid(Rgba),
    Gradient(GradientSpec),
    Image(ImageBackgroundSpec),
    Generated(GeneratedBackground),
}

#[verifier::ext_equal]
pub enum BackgroundView {
    Solid(Rgba),
    Gradient(GradientSpecView),
    Image(ImageBackgroundSpecView),
    Generated(GeneratedBackgroundView),
}

impl View for Background {
    type V = BackgroundView;

    open spec fn view(&self) -> BackgroundView {
        match self {
            Background::Solid(color) => BackgroundView::Solid(*color),
            Background::Gradient(gradient) => BackgroundView::Gradient(gradient@),
            Background::Image(image) => BackgroundView::Image(image@),
            Background::Generated(generated) => BackgroundView::Generated(generated@),
        }
    }
}

impl Clone for Background {
    fn clone(&self) -> (res: Background)
        ensures
            res@ == self@,
    {
        match self {
            Background::Solid(color) => Background::Solid(*color),
            Background::Gradient(gradient) => Background::Gradient(gradient.clone()),
            Background::Image(image) => Background::Image(image.clone()),
            Background::Generated(generated) => Background::Generated(generated.clone()),
        }
    }
}

/// An opaque color given in hundredths.
pub open spec fn hundredths(r: int, g: int, b: int) -> Rgba {
    Rgba { r: ratio(r, 100), g: ratio(g, 100), b: ratio(b, 100), a: int_double(1) }
}

/// The background of a new document: a pale diagonal gradient.
pub open spec fn default_background() -> BackgroundView {
    BackgroundView::Gradient(
        GradientSpecView {
            kind: GradientKind::Linear { angle_deg: int_double(135) },
            stops: seq![(int_double(0), hundredths(86, 90, 97)), (int_double(1), hundredths(98, 98, 99))],
        },
    )
}

impl Default for Background {
    fn default() -> (res: Background)
        ensures
            res@ == default_background(),
    {
        let first = Rgba::new(Double::ratio(86, 100), Double::ratio(90, 100), Double::ratio(97, 100), Double::one());
        let last = Rgba::new(Double::ratio(98, 100), Double::ratio(98, 100), Double::ratio(99, 100), Double::one());
        let stops: Vec<(Double, Rgba)> = vec![(Double::zero(), first), (Double::one(), last)];
        Background::Gradient(GradientSpec { kind: GradientKind::Linear { angle_deg: Double::from_int(135) }, stops })
    }
}

} // verus!
