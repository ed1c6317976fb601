//! The editor: a document with its history, and what each control, gesture and
//! menu entry does to it. Every change that can be taken back is recorded; a
//! control that is only being brought in line with the document changes
//! nothing.
pub mod background;
pub mod effects;
pub mod elements;
pub mod layout;
pub mod texts;

use crate::command::{done_to, first_with, has_id, is_first, undone_to, Edit, UndoStack, UndoStackView};
use crate::command_laws::{
    holds_state, law_redo_repeats_the_command, law_undo_restores_the_document, same_export, with_canvas,
};
use crate::controls::{export_format_at, export_format_for_index};
use crate::double::Double;
use crate::layout::{fitted, visible_of};
use crate::model::document::{fresh_document, views, DocumentView, ScreenshotElementView};
use crate::model::{CanvasSettings, Document, LayoutSettings};
use crate::whole::{clip, whole, Rounding};
use std::path::PathBuf;
use vstd::prelude::*;

verus! {

/// The editor's state.
pub struct EditorState {
    pub document: Document,
    /// Where the project was last saved to or loaded from.
    pub project_path: Option<PathBuf>,
    pub undo_stack: UndoStack,
    /// Set while the controls are brought in line with the document. What they
    /// report then is not the user's doing.
    pub syncing_controls: bool,
    /// The seed of the next suggested gradient.
    pub gradient_auto_seed: u32,
    /// Whether the preview leaves out the screenshots.
    pub hide_screenshots: bool,
}

#[verifier::ext_equal]
pub struct EditorView {
    pub document: DocumentView,
    pub project_path: Option<PathBuf>,
    pub history: UndoStackView,
    pub syncing_controls: bool,
    pub gradient_auto_seed: u32,
    pub hide_screenshots: bool,
}

impl View for EditorState {
    type V = EditorView;

    open spec fn view(&self) -> EditorView {
        EditorView {
            document: self.document@,
            project_path: self.project_path,
            history: self.undo_stack@,
            syncing_controls: self.syncing_controls,
            gradient_auto_seed: self.gradient_auto_seed,
            hide_screenshots: self.hide_screenshots,
        }
    }
}

/// The command that was carried out last.
pub open spec fn latest(v: EditorView) -> Edit {
    v.history.done.last()
}

/// Whether one state comes from another by carrying out a command, which the
/// history then ends with.
pub open spec fn recorded(before: EditorView, after: EditorView) -> bool {
    &&& after.history.done.len() == before.history.done.len() + 1
    &&& after == (EditorView {
        document: done_to(latest(after), before.document),
        history: UndoStackView { done: before.history.done.push(latest(after)), undone: Seq::empty() },
        ..before
    })
}

/// Whether no two screenshots have the same id.
pub open spec fn distinct_ids(elements: Seq<ScreenshotElementView>) -> bool {
    forall|i: int, j: int| 0 <= i < j < elements.len() ==> (#[trigger] elements[i]).id != (#[trigger] elements[j]).id
}

/// Whole numbers of percent, within the bounds of the quality; none is given
/// by what is no number.
pub open spec fn quality_of(v: Double) -> u8 {
    if v.nan() {
        0
    } else {
        clip(whole(v, Rounding::Nearest), 1, 100) as u8
    }
}

impl EditorState {
    /// An editor with an empty document, laid out and exported as the
    /// preferences say.
    pub fn new(spacing: Double, margin: Double, quality: Double) -> (res: EditorState)
        ensures
            ({
                let fresh = fresh_document(res.document.id);
                res@ == (EditorView {
                    document: DocumentView {
                        layout: LayoutSettings { spacing_px: spacing, margin_px: margin, ..fresh.layout },
                        canvas: CanvasSettings { export_quality: quality_of(quality), ..fresh.canvas },
                        ..fresh
                    },
                    project_path: None,
                    history: UndoStackView { done: Seq::empty(), undone: Seq::empty() },
                    syncing_controls: false,
                    gradient_auto_seed: 0,
                    hide_screenshots: false,
                })
            }),
    {
        let mut document = Document::new();
        document.layout.spacing_px = spacing;
        document.layout.margin_px = margin;
        document.canvas.export_quality = if quality.is_nan() {
            0
        } else {
            let percent: u8 = quality.to_int(Rounding::Nearest, 0, 100) as u8;
            if percent < 1 {
                1
            } else {
                percent
            }
        };
        EditorState {
            document,
            project_path: None,
            undo_stack: UndoStack::new(),
            syncing_controls: false,
            gradient_auto_seed: 0,
            hide_screenshots: false,
        }
    }

    /// Carries out a command and remembers it.
    pub(crate) fn record(&mut self, cmd: Edit)
        ensures
            recorded(old(self)@, final(self)@),
            latest(final(self)@) == cmd,
    {
        self.undo_stack.apply(cmd, &mut self.document);
    }

    /// Takes back the latest command; `false` if there is none.
    pub fn undo(&mut self) -> (res: bool)
        ensures
            res == (old(self)@.history.done.len() > 0),
            !res ==> final(self)@ == old(self)@,
            res ==> final(self)@ == (EditorView {
                document: undone_to(latest(old(self)@), old(self)@.document),
                history: UndoStackView {
                    done: old(self)@.history.done.drop_last(),
                    undone: old(self)@.history.undone.push(latest(old(self)@)),
                },
                ..old(self)@
            }),
    {
        self.undo_stack.undo(&mut self.document)
    }

    /// Carries out again what was taken back last; `false` if there is none.
    pub fn redo(&mut self) -> (res: bool)
        ensures
            res == (old(self)@.history.undone.len() > 0),
            !res ==> final(self)@ == old(self)@,
            res ==> final(self)@ == (EditorView {
                document: done_to(old(self)@.history.undone.last(), old(self)@.document),
                history: UndoStackView {
                    done: old(self)@.history.done.push(old(self)@.history.undone.last()),
                    undone: old(self)@.history.undone.drop_last(),
                },
                ..old(self)@
            }),
    {
        self.undo_stack.redo(&mut self.document)
    }

    /// Replaces the document by a loaded one. Its history begins anew.
    pub fn load(&mut self, document: Document, path: PathBuf)
        ensures
            final(self)@ == (EditorView {
                document: document@,
                project_path: Some(path),
                history: UndoStackView { done: Seq::empty(), undone: Seq::empty() },
                ..old(self)@
            }),
    {
        self.document = document;
        self.project_path = Some(path);
        self.undo_stack = UndoStack::new();
    }

    /// The document as the preview draws it.
    pub fn document_for_render(&self) -> (res: Document)
        ensures
            res@ == (DocumentView {
                elements: if self@.hide_screenshots {
                    Seq::empty()
                } else {
                    self@.document.elements
                },
                ..self@.document
            }),
    {
        let mut document = self.document.clone();
        if self.hide_screenshots {
            document.elements = Vec::new();
            proof {
                assert(views(document.elements@) =~= Seq::empty());
            }
        }
        document
    }
}

/// Whatever was recorded can be taken back: undo restores the document that
/// the command was carried out on, and redo leads to the same document again.
/// The fitted canvas size is restored where the document had a visible
/// screenshot that its canvas was fitted to.
pub proof fn law_recorded_changes_can_be_undone(before: EditorView, after: EditorView)
    requires
        recorded(before, after),
        holds_state(latest(after), before.document),
    ensures
        ({
            let back = undone_to(latest(after), after.document);
            &&& back == with_canvas(before.document, back.canvas)
            &&& same_export(back.canvas, before.document.canvas)
            &&& visible_of(before.document.elements).len() > 0 && fitted(before.document)
                == before.document ==> back == before.document
            &&& fitted(before.document) == before.document ==> done_to(latest(after), back)
                == after.document
        }),
{
    law_undo_restores_the_document(latest(after), before.document);
    if fitted(before.document) == before.document {
        law_redo_repeats_the_command(latest(after), before.document);
    }
}

pub(crate) proof fn lemma_first_of_distinct(elements: Seq<ScreenshotElementView>, i: int)
    requires
        distinct_ids(elements),
        0 <= i < elements.len(),
    ensures
        has_id(elements, elements[i].id),
        first_with(elements, elements[i].id) == i,
{
    let id = elements[i].id;
    assert(is_first(elements, id, i));
    let k = first_with(elements, id);
    assert(is_first(elements, id, k));
    if k < i {
        assert(elements[k].id != elements[i].id);
    } else if i < k {
        assert(elements[i].id != elements[k].id);
    }
}

// ---------------------------------------------------------------------------
// Export settings
// ---------------------------------------------------------------------------

/// The document with other export settings.
pub open spec fn with_export(v: EditorView, canvas: CanvasSettings) -> EditorView {
    EditorView { document: with_canvas(v.document, canvas), ..v }
}

impl EditorState {
    /// Sets the width of the export. It is no change of the composition, and
    /// not recorded.
    pub fn set_export_width(&mut self, value: Double)
        ensures
            final(self)@ == with_export(
                old(self)@,
                CanvasSettings {
                    export_target_width: clip(whole(value, Rounding::Truncate), 0, u32::MAX as int) as u32,
                    ..old(self)@.document.canvas
                },
            ),
    {
        self.document.canvas.export_target_width = value.to_int(Rounding::Truncate, 0, u32::MAX as i128) as u32;
    }

    pub fn set_export_format(&mut self, index: u32)
        ensures
            final(self)@ == with_export(
                old(self)@,
                CanvasSettings { export_format: export_format_at(index), ..old(self)@.document.canvas },
            ),
    {
        self.document.canvas.export_format = export_format_for_index(index);
    }

    pub fn set_export_quality(&mut self, value: Double)
        ensures
            final(self)@ == with_export(
                old(self)@,
                CanvasSettings {
                    export_quality: clip(whole(value, Rounding::Truncate), 0, 255) as u8,
                    ..old(self)@.document.canvas
                },
            ),
    {
        self.document.canvas.export_quality = value.to_int(Rounding::Truncate, 0, 255) as u8;
    }
}

} // verus!
