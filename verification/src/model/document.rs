//! Screenshots, layout and canvas settings, and the document.
use crate::double::Double;
use crate::model::background::{default_background, Background, BackgroundView, ImageSource, ImageSourceView};
use crate::model::geometry::{default_transform, no_radius, no_shadow, CornerRadius, ShadowParams, Transform};
use crate::model::text::{default_label, default_title, TextElement, TextElementView};
use crate::whole::int_double;
use vstd::prelude::*;

verus! {

/// A fresh random identifier, from `uuid::Uuid::new_v4`, as a 128-bit number.
/// All that is claimed of it are the version and variant digits that every
/// random identifier has; that two of them differ is left to chance.
#[verifier::external_body]
pub(crate) fn fresh_id() -> (id: u128)
    ensures
        id & 0xF000_C000_0000_0000_0000u128 == 0x4000_8000_0000_0000_0000u128,
{
    uuid::Uuid::new_v4().as_u128()
}

/// A screenshot placed on the canvas.
#[derive(Debug)]
pub struct ScreenshotElement {
    pub id: u128,
    pub source: ImageSource,
    /// The decoded image's size, in pixels.
    pub natural_width: Double,
    pub natural_height: Double,
    pub transform: Transform,
    pub corner_radius: CornerRadius,
    pub shadow: ShadowParams,
    pub label: TextElement,
    pub visible: bool,
}

#[verifier::ext_equal]
pub struct ScreenshotElementView {
    pub id: u128,
    pub source: ImageSourceView,
    pub natural_width: Double,
    pub natural_height: Double,
    pub transform: Transform,
    pub corner_radius: CornerRadius,
    pub shadow: ShadowParams,
    pub label: TextElementView,
    pub visible: bool,
}

impl View for ScreenshotElement {
    type V = ScreenshotElementView;

    open spec fn view(&self) -> ScreenshotElementView {
        ScreenshotElementView {
            id: self.id,
            source: self.source@,
            natural_width: self.natural_width,
            natural_height: self.natural_height,
            transform: self.transform,
            corner_radius: self.corner_radius,
            shadow: self.shadow,
            label: self.label@,
            visible: self.visible,
        }
    }
}

impl Clone for ScreenshotElement {
    fn clone(&self) -> (res: ScreenshotElement)
        ensures
            res@ == self@,
    {
        ScreenshotElement {
            id: self.id,
            source: self.source.clone(),
            natural_width: self.natural_width,
            natural_height: self.natural_height,
            transform: self.transform,
            corner_radius: self.corner_radius,
            shadow: self.shadow,
            label: self.label.clone(),
            visible: self.visible,
        }
    }
}

/// A visible screenshot that nothing has been done to yet.
pub open spec fn fresh_screenshot(
    id: u128,
    source: ImageSourceView,
    natural_width: Double,
    natural_height: Double,
) -> ScreenshotElementView {
    ScreenshotElementView {
        id,
        source,
        natural_width,
        natural_height,
        transform: default_transform(),
        corner_radius: no_radius(),
        shadow: no_shadow(),
        label: default_label(),
        visible: true,
    }
}

impl ScreenshotElement {
    /// A screenshot under a fresh identifier.
    pub fn new(source: ImageSource, natural_width: Double, natural_height: Double) -> (res: ScreenshotElement)
        ensures
            res@ == fresh_screenshot(res.id, source@, natural_width, natural_height),
            res.id & 0xF000_C000_0000_0000_0000u128 == 0x4000_8000_0000_0000_0000u128,
    {
        ScreenshotElement::with_id(fresh_id(), source, natural_width, natural_height)
    }

    /// A screenshot under a given identifier.
    pub fn with_id(id: u128, source: ImageSource, natural_width: Double, natural_height: Double) -> (res:
        ScreenshotElement)
        ensures
            res@ == fresh_screenshot(id, source@, natural_width, natural_height),
    {
        ScreenshotElement {
            id,
            source,
            natural_width,
            natural_height,
            transform: Transform::default(),
            corner_radius: CornerRadius::default(),
            shadow: ShadowParams::default(),
            label: TextElement::label_default(),
            visible: true,
        }
    }
}

/// How the screenshots are arranged.
#[derive(Clone, Copy, Debug, PartialEq, Eq, Structural)]
pub enum LayoutMode {
    Horizontal,
    Vertical,
    Grid,
    Free,
}

#[derive(Clone, Copy, Debug, PartialEq)]
pub struct LayoutSettings {
    pub mode: LayoutMode,
    pub spacing_px: Double,
    pub margin_px: Double,
}

pub open spec fn default_layout() -> LayoutSettings {
    LayoutSettings { mode: LayoutMode::Horizontal, spacing_px: int_double(24), margin_px: int_double(48) }
}

impl Default for LayoutSettings {
    fn default() -> (res: LayoutSettings)
        ensures
            res == default_layout(),
    {
        LayoutSettings {
            mode: LayoutMode::Horizontal,
            spacing_px: Double::from_int(24),
            margin_px: Double::from_int(48),
        }
    }
}

#[derive(Clone, Copy, Debug, PartialEq, Eq, Structural)]
pub enum ExportFormat {
    Png,
    Jpeg,
    WebP,
    Avif,
}

#[derive(Clone, Copy, Debug, PartialEq)]
pub struct CanvasSettings {
    /// The composition's size in content pixels: the extent of the layout.
    pub export_width: u32,
    pub export_height: u32,
    /// The width that an export is scaled to.
    pub export_target_width: u32,
    pub export_format: ExportFormat,
    /// Up to 100; a PNG ignores it.
    pub export_quality: u8,
}

pub fn default_export_target_width() -> (res: u32)
    ensures
        res == 1920,
{
    1920
}

pub open spec fn default_canvas() -> CanvasSettings {
    CanvasSettings {
        export_width: 1920,
        export_height: 1080,
        export_target_width: 1920,
        export_format: ExportFormat::Png,
        export_quality: 90,
    }
}

impl Default for CanvasSettings {
    fn default() -> (res: CanvasSettings)
        ensures
            res == default_canvas(),
    {
        CanvasSettings {
            export_width: 1920,
            export_height: 1080,
            export_target_width: default_export_target_width(),
            export_format: ExportFormat::Png,
            export_quality: 90,
        }
    }
}

/// The state of one composition.
#[derive(Debug)]
pub struct Document {
    pub id: u128,
    pub elements: Vec<ScreenshotElement>,
    pub layout: LayoutSettings,
    pub background: Background,
    pub canvas: CanvasSettings,
    pub title: TextElement,
}

#[verifier::ext_equal]
pub struct DocumentView {
    pub id: u128,
    pub elements: Seq<ScreenshotElementView>,
    pub layout: LayoutSettings,
    pub background: BackgroundView,
    pub canvas: CanvasSettings,
    pub title: TextElementView,
}

/// The views of a sequence of screenshots.
pub open spec fn views(elements: Seq<ScreenshotElement>) -> Seq<ScreenshotElementView> {
    elements.map_values(|e: ScreenshotElement| e@)
}

impl View for Document {
    type V = DocumentView;

    open spec fn view(&self) -> DocumentView {
        DocumentView {
            id: self.id,
            elements: views(self.elements@),
            layout: self.layout,
            background: self.background@,
            canvas: self.canvas,
            title: self.title@,
        }
    }
}

/// A copy of the screenshots.
pub fn clone_elements(elements: &Vec<ScreenshotElement>) -> (res: Vec<ScreenshotElement>)
    ensures
        views(res@) == views(elements@),
{
    let mut res: Vec<ScreenshotElement> = Vec::new();
    let mut i: usize = 0;
    while i < elements.len()
        invariant
            i <= elements.len(),
            views(res@) == views(elements@).take(i as int),
        decreases elements.len() - i,
    {
        let element = elements[i].clone();
        proof {
            assert(views(res@.push(element)) =~= views(res@).push(element@));
            assert(views(elements@).take(i + 1) =~= views(elements@).take(i as int).push(views(elements@)[i as int]));
        }
        res.push(element);
        i = i + 1;
    }
    proof {
        assert(views(elements@).take(i as int) =~= views(elements@));
    }
    res
}

impl Clone for Document {
    fn clone(&self) -> (res: Document)
        ensures
            res@ == self@,
    {
        Document {
            id: self.id,
            elements: clone_elements(&self.elements),
            layout: self.layout,
            background: self.background.clone(),
            canvas: self.canvas,
            title: self.title.clone(),
        }
    }
}

/// A document without screenshots.
pub open spec fn fresh_document(id: u128) -> DocumentView {
    DocumentView {
        id,
        elements: Seq::empty(),
        layout: default_layout(),
        background: default_background(),
        canvas: default_canvas(),
        title: default_title(),
    }
}

impl Document {
    /// An empty document under a fresh identifier.
    pub fn new() -> (res: Document)
        ensures
            res@ == fresh_document(res.id),
            res.id & 0xF000_C000_0000_0000_0000u128 == 0x4000_8000_0000_0000_0000u128,
    {
        Document::with_id(fresh_id())
    }

    /// An empty document under a given identifier.
    pub fn with_id(id: u128) -> (res: Document)
        ensures
            res@ == fresh_document(id),
    {
        let res = Document {
            id,
            elements: Vec::new(),
            layout: LayoutSettings::default(),
            background: Background::default(),
            canvas: CanvasSettings::default(),
            title: TextElement::title_default(),
        };
        proof {
            assert(views(res.elements@) =~= Seq::empty());
        }
        res
    }
}

impl Default for Document {
    fn default() -> (res: Document)
        ensures
            res@ == fresh_document(res.id),
    {
        Document::new()
    }
}

} // verus!
