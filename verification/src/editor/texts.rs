//! The title and the labels.
use crate::command::{find_element, first_with, has_id, Edit, SetScreenshotLabel, SetTitle};
use crate::command_laws::holds_state;
use crate::controls::{
    described_label, described_title, label_from_controls, preset_at, shadow_preset_for_index, title_from_controls,
    TextControls,
};
use crate::double::Double;
use crate::editor::effects::{recast, recast_shadow};
use crate::editor::{latest, recorded, EditorState, EditorView};
use crate::model::document::views;
use crate::model::geometry::cast;
use crate::model::text::TextElementView;
use crate::model::{ShadowParams, TextElement};
use crate::sameness::{same_text, texts_equal};
use vstd::prelude::*;

verus! {

/// Whether a title was recorded as the new one.
pub open spec fn title_set(before: EditorView, after: EditorView, new: TextElementView) -> bool {
    &&& recorded(before, after)
    &&& latest(after) matches Edit::SetTitle(c)
    &&& c.old@ == before.document.title
    &&& c.new@ == new
    &&& holds_state(latest(after), before.document)
}

/// Whether a screenshot's label was recorded as the new one.
pub open spec fn label_set(before: EditorView, after: EditorView, id: u128, new: TextElementView) -> bool {
    &&& recorded(before, after)
    &&& latest(after) matches Edit::SetScreenshotLabel(c)
    &&& c.element_id == id
    &&& c.old@ == label_of(before, id)
    &&& c.new@ == new
    &&& holds_state(latest(after), before.document)
}

/// The text with another shadow.
pub open spec fn with_shadow(text: TextElementView, shadow: ShadowParams) -> TextElementView {
    TextElementView { shadow, ..text }
}

/// The label of the screenshot with an id.
pub open spec fn label_of(v: EditorView, id: u128) -> TextElementView {
    v.document.elements[first_with(v.document.elements, id)].label
}

/// Whether there is a screenshot with an id.
pub open spec fn shows(v: EditorView, id: u128) -> bool {
    has_id(v.document.elements, id)
}

fn text_with_shadow(text: &TextElement, shadow: ShadowParams) -> (res: TextElement)
    ensures
        res@ == with_shadow(text@, shadow),
{
    let mut new = text.clone();
    new.shadow = shadow;
    new
}

impl EditorState {
    fn change_title(&mut self, new: TextElement) -> (res: bool)
        ensures
            res == !same_text(old(self)@.document.title, new@),
            !res ==> final(self)@ == old(self)@,
            res ==> title_set(old(self)@, final(self)@, new@),
    {
        if texts_equal(&self.document.title, &new) {
            return false;
        }
        let before = self.document.title.clone();
        self.record(Edit::SetTitle(SetTitle { old: before, new }));
        true
    }

    /// Sets the title that the sidebar describes, if it is another one.
    pub fn apply_title(&mut self, c: &TextControls) -> (res: bool)
        ensures
            ({
                let new = described_title(c@, old(self)@.document.title);
                &&& res == (!old(self)@.syncing_controls && !same_text(old(self)@.document.title, new))
                &&& !res ==> final(self)@ == old(self)@
                &&& res ==> title_set(old(self)@, final(self)@, new)
            }),
    {
        if self.syncing_controls {
            return false;
        }
        let new = title_from_controls(c, &self.document.title);
        self.change_title(new)
    }

    /// Gives the title the shadow of a preset, cast in the direction that its
    /// shadow has, whose cosine and sine are given.
    pub fn set_title_shadow_preset(&mut self, index: u32, cosine: Double, sine: Double) -> (res: bool)
        ensures
            ({
                let new = with_shadow(old(self)@.document.title, cast(preset_at(index), cosine, sine));
                &&& res == (!old(self)@.syncing_controls && !same_text(old(self)@.document.title, new))
                &&& !res ==> final(self)@ == old(self)@
                &&& res ==> title_set(old(self)@, final(self)@, new)
            }),
    {
        if self.syncing_controls {
            return false;
        }
        let shadow = self.document.title.shadow.with_preset(shadow_preset_for_index(index), cosine, sine);
        let new = text_with_shadow(&self.document.title, shadow);
        self.change_title(new)
    }

    /// Casts the title's shadow anew.
    pub fn apply_title_shadow_geometry(&mut self, cosine: Double, sine: Double, distance: Double, blur: Double) -> (res: bool)
        ensures
            ({
                let title = old(self)@.document.title;
                let new = with_shadow(title, recast(title.shadow, cosine, sine, distance, blur));
                &&& res == (!old(self)@.syncing_controls && !same_text(title, new))
                &&& !res ==> final(self)@ == old(self)@
                &&& res ==> title_set(old(self)@, final(self)@, new)
            }),
    {
        if self.syncing_controls {
            return false;
        }
        let shadow = recast_shadow(self.document.title.shadow, cosine, sine, distance, blur);
        let new = text_with_shadow(&self.document.title, shadow);
        self.change_title(new)
    }

    /// The label of the screenshot with an id, if there is one.
    pub fn label(&self, id: u128) -> (res: Option<TextElement>)
        ensures
            res is Some == shows(self@, id),
            res matches Some(label) ==> label@ == label_of(self@, id),
    {
        match find_element(&self.document.elements, id) {
            Some(i) => {
                proof {
                    assert(views(self.document.elements@)[i as int] == self.document.elements@[i as int]@);
                }
                Some(self.document.elements[i].label.clone())
            },
            None => None,
        }
    }

    fn change_label(&mut self, id: u128, current: TextElement, new: TextElement) -> (res: bool)
        requires
            shows(old(self)@, id),
            current@ == label_of(old(self)@, id),
        ensures
            res == !same_text(label_of(old(self)@, id), new@),
            !res ==> final(self)@ == old(self)@,
            res ==> label_set(old(self)@, final(self)@, id, new@),
    {
        if texts_equal(&current, &new) {
            return false;
        }
        self.record(Edit::SetScreenshotLabel(SetScreenshotLabel { element_id: id, old: current, new }));
        true
    }

    /// Sets the label that its dialog describes, if it is another one and the
    /// screenshot is still there. `syncing` says that the dialog is only being
    /// brought in line with the label.
    pub fn apply_label(&mut self, id: u128, c: &TextControls, syncing: bool) -> (res: bool)
        ensures
            ({
                let current = label_of(old(self)@, id);
                let new = described_label(c@, current);
                &&& res == (!syncing && shows(old(self)@, id) && !same_text(current, new))
                &&& !res ==> final(self)@ == old(self)@
                &&& res ==> label_set(old(self)@, final(self)@, id, new)
            }),
    {
        if syncing {
            return false;
        }
        match self.label(id) {
            Some(current) => {
                let new = label_from_controls(c, &current);
                self.change_label(id, current, new)
            },
            None => false,
        }
    }

    /// Gives a label the shadow of a preset, cast in the direction that its
    /// shadow has, whose cosine and sine are given.
    pub fn set_label_shadow_preset(&mut self, id: u128, index: u32, cosine: Double, sine: Double) -> (res: bool)
        ensures
            ({
                let current = label_of(old(self)@, id);
                let new = with_shadow(current, cast(preset_at(index), cosine, sine));
                &&& res == (shows(old(self)@, id) && !same_text(current, new))
                &&& !res ==> final(self)@ == old(self)@
                &&& res ==> label_set(old(self)@, final(self)@, id, new)
            }),
    {
        match self.label(id) {
            Some(current) => {
                let shadow = current.shadow.with_preset(shadow_preset_for_index(index), cosine, sine);
                let new = text_with_shadow(&current, shadow);
                self.change_label(id, current, new)
            },
            None => false,
        }
    }

    /// Casts a label's shadow anew.
    pub fn apply_label_shadow_geometry(
        &mut self,
        id: u128,
        cosine: Double,
        sine: Double,
        distance: Double,
        blur: Double,
        syncing: bool,
    ) -> (res: bool)
        ensures
            ({
                let current = label_of(old(self)@, id);
                let new = with_shadow(current, recast(current.shadow, cosine, sine, distance, blur));
                &&& res == (!syncing && shows(old(self)@, id) && !same_text(current, new))
                &&& !res ==> final(self)@ == old(self)@
                &&& res ==> label_set(old(self)@, final(self)@, id, new)
            }),
    {
        if syncing {
            return false;
        }
        match self.label(id) {
            Some(current) => {
                let shadow = recast_shadow(current.shadow, cosine, sine, distance, blur);
                let new = text_with_shadow(&current, shadow);
                self.change_label(id, current, new)
            },
            None => false,
        }
    }
}

} // verus!
