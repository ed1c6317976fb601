//! Reusable styles: what makes a composition look the way it does, apart from
//! its screenshots.
use crate::model::background::BackgroundView;
use crate::model::document::DocumentView;
use crate::model::geometry::{no_radius, no_shadow};
use crate::model::{Background, CornerRadius, Document, LayoutSettings, ShadowParams};
use vstd::prelude::*;

verus! {

/// The version of the template files that this library writes.
pub const CURRENT_VERSION: u32 = 1;

/// A document's style. Shadow and corner radius are the same for every
/// screenshot.
#[derive(Debug, PartialEq)]
pub struct Template {
    pub layout: LayoutSettings,
    pub background: Background,
    pub shadow: ShadowParams,
    pub corner_radius: CornerRadius,
}

#[verifier::ext_equal]
pub struct TemplateView {
    pub layout: LayoutSettings,
    pub background: BackgroundView,
    pub shadow: ShadowParams,
    pub corner_radius: CornerRadius,
}

impl View for Template {
    type V = TemplateView;

    open spec fn view(&self) -> TemplateView {
        TemplateView {
            layout: self.layout,
            background: self.background@,
            shadow: self.shadow,
            corner_radius: self.corner_radius,
        }
    }
}

impl Clone for Template {
    fn clone(&self) -> (res: Template)
        ensures
            res@ == self@,
    {
        Template {
            layout: self.layout,
            background: self.background.clone(),
            shadow: self.shadow,
            corner_radius: self.corner_radius,
        }
    }
}

/// A document's style, with shadow and radius of the first screenshot.
pub open spec fn style_of(doc: DocumentView) -> TemplateView {
    TemplateView {
        layout: doc.layout,
        background: doc.background,
        shadow: if doc.elements.len() > 0 {
            doc.elements[0].shadow
        } else {
            no_shadow()
        },
        corner_radius: if doc.elements.len() > 0 {
            doc.elements[0].corner_radius
        } else {
            no_radius()
        },
    }
}

impl Template {
    /// The document's current style.
    pub fn from_document(doc: &Document) -> (res: Template)
        ensures
            res@ == style_of(doc@),
    {
        let (shadow, corner_radius) = if doc.elements.len() > 0 {
            (doc.elements[0].shadow, doc.elements[0].corner_radius)
        } else {
            (ShadowParams::default(), CornerRadius::default())
        };
        Template { layout: doc.layout, background: doc.background.clone(), shadow, corner_radius }
    }
}

/// What a template file holds.
#[derive(Debug)]
pub struct TemplateFile {
    pub format: String,
    pub version: u32,
    pub template: Template,
}

#[verifier::ext_equal]
pub struct TemplateFileView {
    pub format: Seq<char>,
    pub version: u32,
    pub template: TemplateView,
}

impl View for TemplateFile {
    type V = TemplateFileView;

    open spec fn view(&self) -> TemplateFileView {
        TemplateFileView { format: self.format@, version: self.version, template: self.template@ }
    }
}

/// Why a template could not be loaded.
#[derive(Debug)]
pub enum TemplateError {
    /// The file has a version that this library does not know.
    UnsupportedVersion { found: u32, supported: u32 },
}

/// The file that a template is saved as.
pub open spec fn file_of(template: TemplateView) -> TemplateFileView {
    TemplateFileView { format: "screenforge-template"@, version: CURRENT_VERSION, template }
}

/// The file that a template is saved as.
pub fn save(template: &Template) -> (res: TemplateFile)
    ensures
        res@ == file_of(template@),
{
    TemplateFile {
        format: "screenforge-template".to_string(),
        version: CURRENT_VERSION,
        template: template.clone(),
    }
}

/// The template that a file is loaded as; nothing if its version is not known.
pub open spec fn loaded(file: TemplateFileView) -> Option<TemplateView> {
    if file.version == 1 {
        Some(file.template)
    } else {
        None
    }
}

/// The template of a file. A version that is not known is refused.
pub fn load(file: TemplateFile) -> (res: Result<Template, TemplateError>)
    ensures
        res.is_ok() == loaded(file@).is_some(),
        res matches Ok(template) ==> template@ == loaded(file@)->0,
        res matches Err(error) ==> error == (TemplateError::UnsupportedVersion {
            found: file@.version,
            supported: CURRENT_VERSION,
        }),
{
    match file.version {
        1 => Ok(file.template),
        other => Err(TemplateError::UnsupportedVersion { found: other, supported: CURRENT_VERSION }),
    }
}

/// Loading gives back the template that was saved.
pub proof fn law_load_gives_back_what_was_saved(template: TemplateView)
    ensures
        loaded(file_of(template)) == Some(template),
{
}

} // verus!
