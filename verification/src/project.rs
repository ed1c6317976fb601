//! Project files: a document under a format name and a version. A file of an
//! earlier kind is brought up to date as it is read.
use crate::double::Double;
use crate::json::{parse_text, parsed, tree, value_at, value_number, value_text, value_truth, Json};
use crate::layout::{fit_canvas_to_content, fitted, law_fit_is_idempotent};
use crate::model::document::DocumentView;
use crate::model::geometry::{no_radius, no_shadow, opaque_black};
use crate::model::text::{plain_typography, TextBackgroundView, TextElementView, TypographyView};
use crate::model::{
    CanvasSettings, CornerRadius, Document, Rgba, ShadowParams, TextAlign, TextBackground, TextElement, TextPosition, Typography,
};
use crate::whole::{int_double, ratio};
use vstd::prelude::*;

verus! {

/// The version of the project files that this library writes.
pub const CURRENT_VERSION: u32 = 1;

/// What a project file holds.
#[derive(Debug)]
pub struct ProjectFile {
    pub format: String,
    pub version: u32,
    /// The document's target width; a file from before there was one has none.
    pub target_width: Option<u32>,
    pub document: Document,
}

#[verifier::ext_equal]
pub struct ProjectFileView {
    pub format: Seq<char>,
    pub version: u32,
    pub target_width: Option<u32>,
    pub document: DocumentView,
}

impl View for ProjectFile {
    type V = ProjectFileView;

    open spec fn view(&self) -> ProjectFileView {
        ProjectFileView {
            format: self.format@,
            version: self.version,
            target_width: self.target_width,
            document: self.document@,
        }
    }
}

/// Why a project could not be loaded.
#[derive(Debug)]
pub enum ProjectError {
    /// The file is damaged or no JSON.
    Parse(serde_json::Error),
    /// The file has a version that this library does not know.
    UnsupportedVersion { found: u32, supported: u32 },
}

/// The file that a document is saved as.
pub open spec fn file_of(document: DocumentView) -> ProjectFileView {
    ProjectFileView {
        format: "screenforge"@,
        version: CURRENT_VERSION,
        target_width: Some(document.canvas.export_target_width),
        document,
    }
}

/// The file that a document is saved as.
pub fn save(document: &Document) -> (res: ProjectFile)
    ensures
        res@ == file_of(document@),
{
    ProjectFile {
        format: "screenforge".to_string(),
        version: CURRENT_VERSION,
        target_width: Some(document.canvas.export_target_width),
        document: document.clone(),
    }
}

/// The document of a file with the target width that it is due: the file's, or
/// the width that the file carries, so that nothing is scaled.
pub open spec fn targeted(file: ProjectFileView) -> DocumentView {
    DocumentView {
        canvas: CanvasSettings {
            export_target_width: match file.target_width {
                Some(width) => width,
                None => file.document.canvas.export_width,
            },
            ..file.document.canvas
        },
        ..file.document
    }
}

/// The document that a file is loaded as, with its canvas fitted anew; nothing
/// if its version is not known.
pub open spec fn loaded(file: ProjectFileView) -> Option<DocumentView> {
    if file.version == 1 {
        Some(fitted(targeted(file)))
    } else {
        None
    }
}

/// The document of a file, with its canvas fitted anew: a saved size may be
/// out of date. A file without a target width is not scaled from the width
/// that it carries. A version that is not known is refused.
pub fn load(project: ProjectFile) -> (res: Result<Document, ProjectError>)
    ensures
        res.is_ok() == loaded(project@).is_some(),
        res matches Ok(document) ==> document@ == loaded(project@)->0,
        res matches Err(error) ==> error == (ProjectError::UnsupportedVersion {
            found: project@.version,
            supported: CURRENT_VERSION,
        }),
{
    match project.version {
        1 => {
            let mut document = project.document;
            document.canvas.export_target_width = match project.target_width {
                Some(width) => width,
                None => document.canvas.export_width,
            };
            fit_canvas_to_content(&mut document);
            Ok(document)
        },
        other => Err(ProjectError::UnsupportedVersion { found: other, supported: CURRENT_VERSION }),
    }
}

/// What a file says as JSON.
pub fn parse(content: &str) -> (res: Result<serde_json::Value, ProjectError>)
    ensures
        res.is_ok() == parsed(content@).is_some(),
        res matches Ok(value) ==> tree(value) == parsed(content@)->0,
        res matches Err(error) ==> error is Parse,
{
    match parse_text(content) {
        Ok(value) => Ok(value),
        Err(error) => Err(ProjectError::Parse(error)),
    }
}

// ---------------------------------------------------------------------------
// Captions of earlier files
// ---------------------------------------------------------------------------

/// The caption of a file that was saved before there were titles.
#[derive(Debug)]
pub struct LegacyOverlay {
    pub enabled: bool,
    pub content: String,
    pub x: Double,
    pub y: Double,
    pub font_size: Double,
    /// The color as the file has it, if it has one.
    pub color: Option<serde_json::Value>,
}

#[verifier::ext_equal]
pub struct LegacyOverlayView {
    pub enabled: bool,
    pub content: Seq<char>,
    pub x: Double,
    pub y: Double,
    pub font_size: Double,
    pub color: Option<Json>,
}

impl View for LegacyOverlay {
    type V = LegacyOverlayView;

    open spec fn view(&self) -> LegacyOverlayView {
        LegacyOverlayView {
            enabled: self.enabled,
            content: self.content@,
            x: self.x,
            y: self.y,
            font_size: self.font_size,
            color: match self.color {
                Some(value) => Some(tree(value)),
                None => None,
            },
        }
    }
}

/// What an object holds under a key, if it does.
pub open spec fn entry(object: Json, key: Seq<char>) -> Option<Json> {
    if object.has(key) {
        Some(object.at(key))
    } else {
        None
    }
}

/// The number under a key, or another one if there is none.
pub open spec fn number_or(object: Json, key: Seq<char>, other: Double) -> Double {
    match entry(object, key) {
        Some(value) => match value.number() {
            Some(number) => number,
            None => other,
        },
        None => other,
    }
}

/// What an overlay says. Whatever it does not say has a value of its own.
pub open spec fn overlay_of(overlay: Json) -> LegacyOverlayView {
    LegacyOverlayView {
        enabled: match entry(overlay, "enabled"@) {
            Some(value) => value.truth() == Some(true),
            None => false,
        },
        content: match entry(overlay, "content"@) {
            Some(value) => match value.text() {
                Some(text) => text,
                None => Seq::empty(),
            },
            None => Seq::empty(),
        },
        x: number_or(overlay, "x"@, int_double(48)),
        y: number_or(overlay, "y"@, int_double(24)),
        font_size: number_or(overlay, "font_size"@, int_double(32)),
        color: entry(overlay, "color"@),
    }
}

/// The caption that a file's document is owed: one of a document that has a
/// caption and no title.
pub open spec fn legacy_overlay_of(file: Json) -> Option<LegacyOverlayView> {
    match entry(file, "document"@) {
        Some(document) => if document.has("title"@) {
            None
        } else {
            match entry(document, "text_overlay"@) {
                Some(overlay) => Some(overlay_of(overlay)),
                None => None,
            }
        },
        None => None,
    }
}

fn number_at(object: &serde_json::Value, key: &str, other: Double) -> (res: Double)
    ensures
        res == number_or(tree(*object), key@, other),
{
    match value_at(object, key) {
        Some(value) => match value_number(&value) {
            Some(number) => number,
            None => other,
        },
        None => other,
    }
}

/// The caption of an earlier file that would otherwise be lost: a file with a
/// title has none, and a file without either has none.
pub fn migrate_legacy_text_overlay(raw: &serde_json::Value) -> (res: Option<LegacyOverlay>)
    ensures
        res.is_some() == legacy_overlay_of(tree(*raw)).is_some(),
        res matches Some(overlay) ==> overlay@ == legacy_overlay_of(tree(*raw))->0,
{
    let document = match value_at(raw, "document") {
        Some(document) => document,
        None => {
            return None;
        },
    };
    match value_at(&document, "title") {
        Some(_) => {
            return None;
        },
        None => {},
    }
    let overlay = match value_at(&document, "text_overlay") {
        Some(overlay) => overlay,
        None => {
            return None;
        },
    };
    let enabled = match value_at(&overlay, "enabled") {
        Some(value) => match value_truth(&value) {
            Some(truth) => truth,
            None => false,
        },
        None => false,
    };
    let content = match value_at(&overlay, "content") {
        Some(value) => match value_text(&value) {
            Some(text) => text,
            None => String::new(),
        },
        None => String::new(),
    };
    let res = LegacyOverlay {
        enabled,
        content,
        x: number_at(&overlay, "x", Double::from_int(48)),
        y: number_at(&overlay, "y", Double::from_int(24)),
        font_size: number_at(&overlay, "font_size", Double::from_int(32)),
        color: value_at(&overlay, "color"),
    };
    Some(res)
}

/// The title that a caption becomes: the same text at the same place, in the
/// same size and color.
pub open spec fn title_of_overlay(overlay: LegacyOverlayView, color: Rgba) -> TextElementView {
    TextElementView {
        enabled: overlay.enabled,
        content: overlay.content,
        position: TextPosition::Absolute { x: overlay.x, y: overlay.y },
        typography: TypographyView { font_size: overlay.font_size, ..plain_typography(32, color) },
        background: TextBackgroundView::Clear,
        corner_radius: no_radius(),
        background_padding: int_double(16),
        shadow: no_shadow(),
    }
}

/// The color of a caption, of the one that its file names, if it does.
pub open spec fn overlay_color(named: Option<Rgba>) -> Rgba {
    match named {
        Some(color) => color,
        None => opaque_black(),
    }
}

impl LegacyOverlay {
    /// The title that the caption becomes. `named` is the color that its file
    /// names; without one the text is black.
    pub fn into_title(self, named: Option<Rgba>) -> (res: TextElement)
        ensures
            res@ == title_of_overlay(self@, overlay_color(named)),
    {
        let color = match named {
            Some(color) => color,
            None => Rgba::black(),
        };
        TextElement {
            enabled: self.enabled,
            content: self.content,
            position: TextPosition::Absolute { x: self.x, y: self.y },
            typography: Typography {
                font_family: "Sans".to_string(),
                font_size: self.font_size,
                weight: 700,
                italic: false,
                color,
                alignment: TextAlign::Center,
                opacity: Double::one(),
                letter_spacing: Double::zero(),
                line_spacing: Double::ratio(12, 10),
                wrap: false,
            },
            background: TextBackground::Clear,
            corner_radius: CornerRadius::none(),
            background_padding: Double::from_int(16),
            shadow: ShadowParams::none(),
        }
    }
}

// ---------------------------------------------------------------------------
// Laws
// ---------------------------------------------------------------------------

/// Loading gives back what was saved: the file of a document is accepted, and
/// the document comes back with its canvas fitted; one whose canvas was fitted
/// comes back as it was.
pub proof fn law_load_gives_back_what_was_saved(document: DocumentView)
    ensures
        loaded(file_of(document)) == Some(fitted(document)),
        fitted(document) == document ==> loaded(file_of(document)) == Some(document),
{
    assert(targeted(file_of(document)) == document);
}

/// A file without a target width exports at the width that it carries.
pub proof fn law_no_target_width_means_no_scaling(file: ProjectFileView)
    requires
        file.version == 1,
        file.target_width is None,
    ensures
        loaded(file) is Some,
        loaded(file)->0.canvas.export_target_width == file.document.canvas.export_width,
{
    law_fit_is_idempotent(targeted(file));
}

/// A caption never takes the place of a title that is there.
pub proof fn law_a_title_is_kept(file: Json)
    requires
        file.has("document"@),
        file.at("document"@).has("title"@),
    ensures
        legacy_overlay_of(file) is None,
{
}

} // verus!
