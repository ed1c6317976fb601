//! Choosing a layout, its spacing and its margin.
use crate::command::{first_with, has_id, Edit, EnterFreeLayout, SetLayoutMode, SetMargin, SetSpacing};
use crate::command_laws::{holds_state, transforms_held};
use crate::controls::{layout_mode_at, layout_mode_for_index};
use crate::double::Double;
use crate::editor::{distinct_ids, latest, lemma_first_of_distinct, recorded, EditorState};
use crate::layout::{compute_layout, law_layout_keeps_order, layout_of, visible_elements, visible_of, Placement};
use crate::model::document::{views, DocumentView, ScreenshotElementView};
use crate::model::{Document, LayoutMode, Transform};
use crate::order::same;
use vstd::prelude::*;

verus! {

/// The transform that a screenshot keeps of its placement.
pub open spec fn placed_transform(t: Transform, p: Placement) -> Transform {
    Transform { x: p.x, y: p.y, width: p.width, height: p.height, ..t }
}

/// What free positioning starts from: each visible screenshot where the layout
/// had put it.
pub open spec fn entering_transforms(doc: DocumentView) -> Seq<(u128, Transform, Transform)> {
    let visible = visible_of(doc.elements);
    let placements = layout_of(doc.layout.mode, visible, doc.layout.spacing_px, doc.layout.margin_px);
    Seq::new(
        visible.len(),
        |i: int| (visible[i].id, visible[i].transform, placed_transform(visible[i].transform, placements[i])),
    )
}

fn transforms_on_entry(doc: &Document) -> (res: Vec<(u128, Transform, Transform)>)
    requires
        doc@.layout.mode != LayoutMode::Free,
    ensures
        res@ == entering_transforms(doc@),
{
    let visible = visible_elements(doc.elements.as_slice());
    let placements = compute_layout(
        doc.layout.mode,
        visible.as_slice(),
        doc.layout.spacing_px,
        doc.layout.margin_px,
    );
    let ghost goal = entering_transforms(doc@);
    let mut res: Vec<(u128, Transform, Transform)> = Vec::new();
    let mut i: usize = 0;
    proof {
        assert(views(visible@).len() == visible.len());
        law_layout_keeps_order(
            doc@.layout.mode,
            views(visible@),
            doc@.layout.spacing_px,
            doc@.layout.margin_px,
        );
    }
    while i < visible.len()
        invariant
            i <= visible.len(),
            visible.len() == placements.len(),
            views(visible@) == visible_of(doc@.elements),
            views(visible@).len() == visible.len(),
            placements@ == layout_of(
                doc@.layout.mode,
                visible_of(doc@.elements),
                doc@.layout.spacing_px,
                doc@.layout.margin_px,
            ),
            goal == entering_transforms(doc@),
            res@ == goal.take(i as int),
        decreases visible.len() - i,
    {
        let t = visible[i].transform;
        let p = placements[i];
        proof {
            assert(views(visible@)[i as int] == visible@[i as int]@);
            assert(goal.take(i + 1) =~= goal.take(i as int).push(goal[i as int]));
        }
        res.push(
            (
                visible[i].id,
                t,
                Transform {
                    x: p.x,
                    y: p.y,
                    width: p.width,
                    height: p.height,
                    rotation_deg: t.rotation_deg,
                    aspect_locked: t.aspect_locked,
                    flip_horizontal: t.flip_horizontal,
                    flip_vertical: t.flip_vertical,
                },
            ),
        );
        i = i + 1;
    }
    proof {
        assert(goal.take(i as int) =~= goal);
    }
    res
}

impl EditorState {
    /// Chooses a layout. On entering free positioning every visible screenshot
    /// stays where the layout had put it.
    pub fn set_layout_mode(&mut self, index: u32) -> (res: bool)
        ensures
            res == (!old(self)@.syncing_controls && old(self)@.document.layout.mode != layout_mode_at(index)),
            !res ==> final(self)@ == old(self)@,
            res ==> {
                let doc = old(self)@.document;
                &&& recorded(old(self)@, final(self)@)
                &&& layout_mode_at(index) != LayoutMode::Free ==> latest(final(self)@) == Edit::SetLayoutMode(
                    SetLayoutMode { old: doc.layout.mode, new: layout_mode_at(index) },
                )
                &&& layout_mode_at(index) == LayoutMode::Free ==> {
                    &&& latest(final(self)@) matches Edit::EnterFreeLayout(c)
                    &&& c.old_mode == doc.layout.mode
                    &&& c.transforms@ == entering_transforms(doc)
                }
                &&& distinct_ids(doc.elements) ==> holds_state(latest(final(self)@), doc)
            },
    {
        let new = layout_mode_for_index(index);
        let mode = self.document.layout.mode;
        if self.syncing_controls || mode == new {
            return false;
        }
        if new == LayoutMode::Free {
            let transforms = transforms_on_entry(&self.document);
            proof {
                if distinct_ids(self@.document.elements) {
                    lemma_entering_held(self@.document);
                }
            }
            self.record(Edit::EnterFreeLayout(EnterFreeLayout { old_mode: mode, transforms }));
        } else {
            self.record(Edit::SetLayoutMode(SetLayoutMode { old: mode, new }));
        }
        true
    }

    pub fn set_spacing(&mut self, value: Double) -> (res: bool)
        ensures
            res == (!old(self)@.syncing_controls && !same(old(self)@.document.layout.spacing_px, value)),
            !res ==> final(self)@ == old(self)@,
            res ==> {
                &&& recorded(old(self)@, final(self)@)
                &&& latest(final(self)@) == Edit::SetSpacing(
                    SetSpacing { old: old(self)@.document.layout.spacing_px, new: value },
                )
                &&& holds_state(latest(final(self)@), old(self)@.document)
            },
    {
        let current = self.document.layout.spacing_px;
        if self.syncing_controls || current.equals(value) {
            return false;
        }
        self.record(Edit::SetSpacing(SetSpacing { old: current, new: value }));
        true
    }

    pub fn set_margin(&mut self, value: Double) -> (res: bool)
        ensures
            res == (!old(self)@.syncing_controls && !same(old(self)@.document.layout.margin_px, value)),
            !res ==> final(self)@ == old(self)@,
            res ==> {
                &&& recorded(old(self)@, final(self)@)
                &&& latest(final(self)@) == Edit::SetMargin(
                    SetMargin { old: old(self)@.document.layout.margin_px, new: value },
                )
                &&& holds_state(latest(final(self)@), old(self)@.document)
            },
    {
        let current = self.document.layout.margin_px;
        if self.syncing_controls || current.equals(value) {
            return false;
        }
        self.record(Edit::SetMargin(SetMargin { old: current, new: value }));
        true
    }
}

/// Where each visible screenshot stands among all.
proof fn lemma_visible_positions(elements: Seq<ScreenshotElementView>) -> (at: Seq<int>)
    ensures
        at.len() == visible_of(elements).len(),
        forall|k: int|
            0 <= k < at.len() ==> 0 <= #[trigger] at[k] < elements.len() && visible_of(elements)[k] == elements[at[k]],
        forall|j: int, k: int| 0 <= j < k < at.len() ==> #[trigger] at[j] < #[trigger] at[k],
    decreases elements.len(),
{
    if elements.len() == 0 {
        Seq::empty()
    } else {
        let rest = elements.drop_last();
        let at = lemma_visible_positions(rest);
        assert(forall|k: int| 0 <= k < at.len() ==> elements[#[trigger] at[k]] == rest[at[k]]);
        if elements.last().visible {
            at.push(elements.len() - 1)
        } else {
            at
        }
    }
}

proof fn lemma_entering_held(doc: DocumentView)
    requires
        distinct_ids(doc.elements),
    ensures
        transforms_held(doc.elements, entering_transforms(doc)),
{
    let t = entering_transforms(doc);
    let at = lemma_visible_positions(doc.elements);
    assert forall|j: int, k: int| 0 <= j < k < t.len() implies (#[trigger] t[j]).0 != (#[trigger] t[k]).0 by {
        assert(at[j] < at[k]);
        assert(doc.elements[at[j]].id != doc.elements[at[k]].id);
    }
    assert forall|k: int| 0 <= k < t.len() && has_id(doc.elements, (#[trigger] t[k]).0) implies doc.elements[first_with(
        doc.elements,
        t[k].0,
    )].transform == t[k].1 by {
        lemma_first_of_distinct(doc.elements, at[k]);
    }
}

} // verus!
