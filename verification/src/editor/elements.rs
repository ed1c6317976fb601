//! Screenshots: importing, moving, removing and replacing them, and the
//! entries of their menu.
use crate::arith_laws::lemma_int_double_exact;
use crate::command::{
    find_element, first_with, has_id, removed_views, AddScreenshots, DuplicateScreenshot, Edit, RemoveScreenshot,
    RemoveScreenshots, RemovedView, ReorderScreenshot, ReplaceScreenshotSource, SetTransform, SetTransforms,
};
use crate::command_laws::{holds_state, removals_held, transforms_held};
use crate::double::{one_unit, sum, Double, UNIT_EXP};
use crate::editor::{distinct_ids, latest, lemma_first_of_distinct, recorded, EditorState, EditorView};
use crate::model::background::ImageSourceView;
use crate::model::document::{fresh_id, fresh_screenshot, views, ScreenshotElementView};
use crate::model::{ImageSource, ScreenshotElement, Transform};
use crate::root::remainder;
use crate::whole::int_double;
use std::path::PathBuf;
use vstd::arithmetic::div_mod::*;
use vstd::arithmetic::power2::*;
use vstd::prelude::*;

verus! {

/// An image file that was decoded, and its size.
#[derive(Debug)]
pub struct ImportedImage {
    pub path: PathBuf,
    pub width: u32,
    pub height: u32,
}

/// Whether screenshots are fresh ones of the imported images, in order, each
/// under a random id.
pub open spec fn fresh_ones(elements: Seq<ScreenshotElementView>, images: Seq<ImportedImage>) -> bool {
    &&& elements.len() == images.len()
    &&& forall|i: int|
        #![trigger elements[i]]
        #![trigger images[i]]
        0 <= i < images.len() ==> {
            &&& elements[i] == fresh_screenshot(
                elements[i].id,
                ImageSourceView::Path(images[i].path),
                int_double(images[i].width as int),
                int_double(images[i].height as int),
            )
            &&& elements[i].id & 0xF000_C000_0000_0000_0000u128 == 0x4000_8000_0000_0000_0000u128
        }
}

/// The screenshots whose ids are listed, with their positions.
pub open spec fn selected_ones(elements: Seq<ScreenshotElementView>, ids: Seq<u128>) -> Seq<RemovedView>
    decreases elements.len(),
{
    if elements.len() == 0 {
        Seq::empty()
    } else {
        let rest = selected_ones(elements.drop_last(), ids);
        if ids.contains(elements.last().id) {
            rest.push(RemovedView { index: (elements.len() - 1) as usize, element: elements.last() })
        } else {
            rest
        }
    }
}

/// The transforms that put screenshots at new places. An id that no screenshot
/// has is left out.
pub open spec fn transforms_to(elements: Seq<ScreenshotElementView>, places: Seq<(u128, Double, Double)>) -> Seq<
    (u128, Transform, Transform),
>
    decreases places.len(),
{
    if places.len() == 0 {
        Seq::empty()
    } else {
        let rest = transforms_to(elements, places.drop_last());
        let (id, x, y) = places.last();
        if has_id(elements, id) {
            let t = elements[first_with(elements, id)].transform;
            rest.push((id, t, Transform { x, y, ..t }))
        } else {
            rest
        }
    }
}

fn is_listed(ids: &Vec<u128>, id: u128) -> (res: bool)
    ensures
        res == ids@.contains(id),
{
    let mut i: usize = 0;
    while i < ids.len()
        invariant
            i <= ids.len(),
            forall|k: int| 0 <= k < i ==> #[trigger] ids@[k] != id,
        decreases ids.len() - i,
    {
        if ids[i] == id {
            proof {
                assert(ids@[i as int] == id);
            }
            return true;
        }
        i = i + 1;
    }
    false
}

proof fn lemma_selected(elements: Seq<ScreenshotElementView>, ids: Seq<u128>)
    requires
        elements.len() <= usize::MAX,
    ensures
        removals_held(elements, selected_ones(elements, ids)),
        forall|k: int|
            0 <= k < selected_ones(elements, ids).len() ==> (#[trigger] selected_ones(elements, ids)[k]).index
                < elements.len(),
    decreases elements.len(),
{
    if elements.len() > 0 {
        let rest = elements.drop_last();
        lemma_selected(rest, ids);
        let before = selected_ones(rest, ids);
        let all = selected_ones(elements, ids);
        assert forall|k: int| 0 <= k < all.len() implies (#[trigger] all[k]).index < elements.len() && all[k].element
            == elements[all[k].index as int] by {
            if k < before.len() {
                assert(all[k] == before[k]);
                assert(rest[before[k].index as int] == elements[before[k].index as int]);
            }
        }
        assert forall|j: int, k: int| 0 <= j < k < all.len() implies (#[trigger] all[j]).index != (#[trigger] all[k]).index by {
            assert(all[j] == before[j]);
            if k < before.len() {
                assert(all[k] == before[k]);
            }
        }
    }
}

proof fn lemma_transforms_to(elements: Seq<ScreenshotElementView>, places: Seq<(u128, Double, Double)>)
    requires
        forall|j: int, k: int| 0 <= j < k < places.len() ==> (#[trigger] places[j]).0 != (#[trigger] places[k]).0,
    ensures
        transforms_held(elements, transforms_to(elements, places)),
        forall|k: int|
            0 <= k < transforms_to(elements, places).len() ==> exists|j: int|
                0 <= j < places.len() && (#[trigger] places[j]).0 == (#[trigger] transforms_to(elements, places)[k]).0,
    decreases places.len(),
{
    if places.len() > 0 {
        let rest = places.drop_last();
        assert forall|j: int, k: int| 0 <= j < k < rest.len() implies (#[trigger] rest[j]).0 != (#[trigger] rest[k]).0 by {
            assert(rest[j] == places[j] && rest[k] == places[k]);
        }
        lemma_transforms_to(elements, rest);
        let before = transforms_to(elements, rest);
        let all = transforms_to(elements, places);
        assert forall|k: int| 0 <= k < all.len() implies exists|j: int|
            0 <= j < places.len() && (#[trigger] places[j]).0 == (#[trigger] all[k]).0 by {
            if k < before.len() {
                assert(all[k] == before[k]);
                let j = choose|j: int| 0 <= j < rest.len() && (#[trigger] rest[j]).0 == before[k].0;
                assert(places[j] == rest[j]);
            } else {
                assert(places[places.len() - 1].0 == all[k].0);
            }
        }
        assert forall|j: int, k: int| 0 <= j < k < all.len() implies (#[trigger] all[j]).0 != (#[trigger] all[k]).0 by {
            assert(all[j] == before[j]);
            if k < before.len() {
                assert(all[k] == before[k]);
            } else {
                let m = choose|m: int| 0 <= m < rest.len() && (#[trigger] rest[m]).0 == before[j].0;
                assert(places[m] == rest[m]);
                assert(places[m].0 != places[places.len() - 1].0);
            }
        }
        assert forall|k: int| 0 <= k < all.len() && has_id(elements, (#[trigger] all[k]).0) implies elements[first_with(
            elements,
            all[k].0,
        )].transform == all[k].1 by {
            if k < before.len() {
                assert(all[k] == before[k]);
            }
        }
    }
}

impl EditorState {
    /// Appends the images that were decoded, as one step. Without any, nothing
    /// happens.
    pub fn import_paths(&mut self, images: Vec<ImportedImage>) -> (res: bool)
        ensures
            res == (images@.len() > 0),
            !res ==> final(self)@ == old(self)@,
            res ==> {
                &&& recorded(old(self)@, final(self)@)
                &&& latest(final(self)@) matches Edit::AddScreenshots(c)
                &&& fresh_ones(views(c.elements@), images@)
            },
    {
        if images.len() == 0 {
            return false;
        }
        let mut elements: Vec<ScreenshotElement> = Vec::new();
        let mut i: usize = 0;
        proof {
            assert(views(elements@) =~= Seq::empty());
        }
        while i < images.len()
            invariant
                i <= images.len(),
                fresh_ones(views(elements@), images@.take(i as int)),
            decreases images.len() - i,
        {
            let image = &images[i];
            let element = ScreenshotElement::new(
                ImageSource::Path(image.path.clone()),
                Double::from_int(image.width as i64),
                Double::from_int(image.height as i64),
            );
            proof {
                let before = views(elements@);
                let after = views(elements@.push(element));
                assert(after =~= before.push(element@));
                assert forall|k: int|
                    #![trigger after[k]]
                    #![trigger images@.take(i + 1)[k]]
                    0 <= k < i + 1 implies {
                    &&& after[k] == fresh_screenshot(
                        after[k].id,
                        ImageSourceView::Path(images@.take(i + 1)[k].path),
                        int_double(images@.take(i + 1)[k].width as int),
                        int_double(images@.take(i + 1)[k].height as int),
                    )
                    &&& after[k].id & 0xF000_C000_0000_0000_0000u128 == 0x4000_8000_0000_0000_0000u128
                } by {
                    if k < i {
                        assert(after[k] == before[k]);
                        assert(images@.take(i + 1)[k] == images@.take(i as int)[k]);
                    }
                }
            }
            elements.push(element);
            i = i + 1;
        }
        proof {
            assert(images@.take(i as int) =~= images@);
        }
        self.record(Edit::AddScreenshots(AddScreenshots { elements }));
        true
    }

    /// Removes the selected screenshots, as one step.
    pub fn delete_selected(&mut self, ids: &Vec<u128>) -> (res: bool)
        ensures
            ({
                let selected = selected_ones(old(self)@.document.elements, ids@);
                &&& res == (selected.len() > 0)
                &&& !res ==> final(self)@ == old(self)@
                &&& res ==> {
                    &&& recorded(old(self)@, final(self)@)
                    &&& latest(final(self)@) matches Edit::RemoveScreenshots(c)
                    &&& removed_views(c.removed@) == selected
                    &&& holds_state(latest(final(self)@), old(self)@.document)
                }
            }),
    {
        let ghost all = self@.document.elements;
        let mut removed: Vec<(usize, ScreenshotElement)> = Vec::new();
        let mut i: usize = 0;
        proof {
            assert(removed_views(removed@) =~= selected_ones(all.take(0), ids@));
        }
        while i < self.document.elements.len()
            invariant
                i <= self.document.elements.len(),
                self@ == old(self)@,
                all == views(self.document.elements@),
                removed_views(removed@) == selected_ones(all.take(i as int), ids@),
            decreases self.document.elements.len() - i,
        {
            proof {
                assert(all.take(i + 1).drop_last() =~= all.take(i as int));
                assert(all.take(i + 1).last() == all[i as int]);
            }
            if is_listed(ids, self.document.elements[i].id) {
                let entry = (i, self.document.elements[i].clone());
                proof {
                    assert(removed_views(removed@.push(entry)) =~= removed_views(removed@).push(
                        RemovedView { index: i, element: entry.1@ },
                    ));
                }
                removed.push(entry);
            }
            i = i + 1;
        }
        proof {
            assert(all.take(i as int) =~= all);
            lemma_selected(all, ids@);
            assert(removed_views(removed@).len() == removed@.len());
        }
        if removed.len() == 0 {
            return false;
        }
        self.record(Edit::RemoveScreenshots(RemoveScreenshots { removed }));
        true
    }

    /// Puts screenshots at new places, as one step.
    pub fn move_elements(&mut self, places: &Vec<(u128, Double, Double)>) -> (res: bool)
        ensures
            ({
                let transforms = transforms_to(old(self)@.document.elements, places@);
                &&& res == (transforms.len() > 0)
                &&& !res ==> final(self)@ == old(self)@
                &&& res ==> {
                    &&& recorded(old(self)@, final(self)@)
                    &&& latest(final(self)@) matches Edit::SetTransforms(c)
                    &&& c.transforms@ == transforms
                    &&& (forall|j: int, k: int|
                        0 <= j < k < places@.len() ==> (#[trigger] places@[j]).0 != (#[trigger] places@[k]).0)
                        ==> holds_state(latest(final(self)@), old(self)@.document)
                }
            }),
    {
        let ghost all = self@.document.elements;
        let mut transforms: Vec<(u128, Transform, Transform)> = Vec::new();
        let mut i: usize = 0;
        while i < places.len()
            invariant
                i <= places.len(),
                self@ == old(self)@,
                all == views(self.document.elements@),
                transforms@ == transforms_to(all, places@.take(i as int)),
            decreases places.len() - i,
        {
            proof {
                assert(places@.take(i + 1).drop_last() =~= places@.take(i as int));
                assert(places@.take(i + 1).last() == places@[i as int]);
            }
            let (id, x, y) = places[i];
            match find_element(&self.document.elements, id) {
                Some(k) => {
                    proof {
                        assert(all[k as int] == self.document.elements@[k as int]@);
                    }
                    let before = self.document.elements[k].transform;
                    let mut after = before;
                    after.x = x;
                    after.y = y;
                    transforms.push((id, before, after));
                },
                None => {},
            }
            i = i + 1;
        }
        proof {
            assert(places@.take(i as int) =~= places@);
            if forall|j: int, k: int| 0 <= j < k < places@.len() ==> (#[trigger] places@[j]).0 != (#[trigger] places@[k]).0 {
                lemma_transforms_to(all, places@);
            }
        }
        if transforms.len() == 0 {
            return false;
        }
        self.record(Edit::SetTransforms(SetTransforms { transforms }));
        true
    }

    fn set_transform_at(&mut self, index: usize, new: Transform)
        requires
            index < old(self)@.document.elements.len(),
        ensures
            transform_set(old(self)@, final(self)@, index as int, new),
    {
        let element_id = self.document.elements[index].id;
        let before = self.document.elements[index].transform;
        proof {
            assert(self@.document.elements[index as int] == self.document.elements@[index as int]@);
            if distinct_ids(self@.document.elements) {
                lemma_first_of_distinct(self@.document.elements, index as int);
            }
        }
        self.record(Edit::SetTransform(SetTransform { element_id, old: before, new }));
    }

    /// Gives a screenshot the transform that a resize ended with.
    pub fn resize_element(&mut self, index: usize, new: Transform) -> (res: bool)
        ensures
            res == (index < old(self)@.document.elements.len()),
            !res ==> final(self)@ == old(self)@,
            res ==> transform_set(old(self)@, final(self)@, index as int, new),
    {
        if index >= self.document.elements.len() {
            return false;
        }
        self.set_transform_at(index, new);
        true
    }

    /// Moves a screenshot to another position among the others.
    pub fn reorder_element(&mut self, from: usize, to: usize)
        ensures
            recorded(old(self)@, final(self)@),
            latest(final(self)@) == Edit::ReorderScreenshot(ReorderScreenshot { from, to }),
            from < old(self)@.document.elements.len() && to < old(self)@.document.elements.len() ==> holds_state(
                latest(final(self)@),
                old(self)@.document,
            ),
    {
        self.record(Edit::ReorderScreenshot(ReorderScreenshot { from, to }));
    }

    /// Replaces a screenshot's image by a decoded one. Its place and its
    /// effects stay.
    pub fn replace_screenshot(&mut self, index: usize, image: ImportedImage) -> (res: bool)
        ensures
            res == (index < old(self)@.document.elements.len()),
            !res ==> final(self)@ == old(self)@,
            res ==> {
                let e = old(self)@.document.elements[index as int];
                &&& recorded(old(self)@, final(self)@)
                &&& latest(final(self)@) matches Edit::ReplaceScreenshotSource(c)
                &&& c.element_id == e.id
                &&& c.old_source@ == e.source
                &&& c.old_natural_width == e.natural_width
                &&& c.old_natural_height == e.natural_height
                &&& c.new_source@ == ImageSourceView::Path(image.path)
                &&& c.new_natural_width == int_double(image.width as int)
                &&& c.new_natural_height == int_double(image.height as int)
                &&& distinct_ids(old(self)@.document.elements) ==> holds_state(
                    latest(final(self)@),
                    old(self)@.document,
                )
            },
    {
        if index >= self.document.elements.len() {
            return false;
        }
        proof {
            assert(self@.document.elements[index as int] == self.document.elements@[index as int]@);
            if distinct_ids(self@.document.elements) {
                lemma_first_of_distinct(self@.document.elements, index as int);
            }
        }
        let element = &self.document.elements[index];
        let cmd = ReplaceScreenshotSource {
            element_id: element.id,
            old_source: element.source.clone(),
            old_natural_width: element.natural_width,
            old_natural_height: element.natural_height,
            new_source: ImageSource::Path(image.path),
            new_natural_width: Double::from_int(image.width as i64),
            new_natural_height: Double::from_int(image.height as i64),
        };
        self.record(Edit::ReplaceScreenshotSource(cmd));
        true
    }
}

/// Whether a screenshot's transform was recorded as the new one.
pub open spec fn transform_set(before: EditorView, after: EditorView, index: int, new: Transform) -> bool {
    let e = before.document.elements[index];
    &&& recorded(before, after)
    &&& latest(after) == Edit::SetTransform(SetTransform { element_id: e.id, old: e.transform, new })
    &&& distinct_ids(before.document.elements) ==> holds_state(latest(after), before.document)
}

/// Whether a reorder was recorded.
pub open spec fn order_set(before: EditorView, after: EditorView, from: int, to: int) -> bool {
    &&& recorded(before, after)
    &&& latest(after) == Edit::ReorderScreenshot(ReorderScreenshot { from: from as usize, to: to as usize })
    &&& holds_state(latest(after), before.document)
}

/// The entries of a screenshot's menu that need nothing more than the
/// screenshot.
#[derive(Clone, Copy, Debug, PartialEq, Eq, Structural)]
pub enum ElementAction {
    Delete,
    Duplicate,
    BringForward,
    SendBackward,
    BringToFront,
    SendToBack,
    Rotate,
    FlipHorizontal,
    FlipVertical,
}

/// Whether an entry has something to do for the screenshot at a position:
/// the first one cannot be brought forward, nor the last one sent back.
pub open spec fn action_applies(action: ElementAction, index: int, count: int) -> bool {
    &&& 0 <= index < count
    &&& match action {
        ElementAction::BringForward | ElementAction::BringToFront => index > 0,
        ElementAction::SendBackward | ElementAction::SendToBack => index + 1 < count,
        _ => true,
    }
}

/// An angle a quarter turn on.
pub open spec fn quarter_on(angle_deg: Double) -> Double {
    remainder(sum(angle_deg, int_double(90)), int_double(360))
}

/// The screenshot under another id.
pub open spec fn renamed(e: ScreenshotElementView, id: u128) -> ScreenshotElementView {
    ScreenshotElementView { id, ..e }
}

/// What an entry of the menu has done.
pub open spec fn action_done(action: ElementAction, index: int, before: EditorView, after: EditorView) -> bool {
    let elements = before.document.elements;
    let t = elements[index].transform;
    match action {
        ElementAction::Delete => {
            &&& recorded(before, after)
            &&& latest(after) matches Edit::RemoveScreenshot(c)
            &&& c.index == index
            &&& c.element@ == elements[index]
            &&& holds_state(latest(after), before.document)
        },
        ElementAction::Duplicate => {
            &&& recorded(before, after)
            &&& latest(after) matches Edit::DuplicateScreenshot(c)
            &&& c.source_index == index
            &&& c.duplicate@ == renamed(elements[index], c.duplicate.id)
            &&& c.duplicate.id & 0xF000_C000_0000_0000_0000u128 == 0x4000_8000_0000_0000_0000u128
        },
        ElementAction::BringForward => order_set(before, after, index, index - 1),
        ElementAction::SendBackward => order_set(before, after, index, index + 1),
        ElementAction::BringToFront => order_set(before, after, index, 0),
        ElementAction::SendToBack => order_set(before, after, index, elements.len() - 1),
        ElementAction::Rotate => transform_set(
            before,
            after,
            index,
            (Transform { rotation_deg: quarter_on(t.rotation_deg), ..t }),
        ),
        ElementAction::FlipHorizontal => transform_set(
            before,
            after,
            index,
            (Transform { flip_horizontal: !t.flip_horizontal, ..t }),
        ),
        ElementAction::FlipVertical => transform_set(
            before,
            after,
            index,
            (Transform { flip_vertical: !t.flip_vertical, ..t }),
        ),
    }
}

impl EditorState {
    /// Carries out an entry of a screenshot's menu, if it applies.
    pub fn run_element_action(&mut self, action: ElementAction, index: usize) -> (res: bool)
        ensures
            res == action_applies(action, index as int, old(self)@.document.elements.len() as int),
            !res ==> final(self)@ == old(self)@,
            res ==> action_done(action, index as int, old(self)@, final(self)@),
    {
        let count: usize = self.document.elements.len();
        if index >= count {
            return false;
        }
        proof {
            assert(self@.document.elements[index as int] == self.document.elements@[index as int]@);
        }
        let t = self.document.elements[index].transform;
        match action {
            ElementAction::Delete => {
                let element = self.document.elements[index].clone();
                self.record(Edit::RemoveScreenshot(RemoveScreenshot { index, element }));
            },
            ElementAction::Duplicate => {
                let mut duplicate = self.document.elements[index].clone();
                duplicate.id = fresh_id();
                self.record(Edit::DuplicateScreenshot(DuplicateScreenshot { source_index: index, duplicate }));
            },
            ElementAction::BringForward => {
                if index == 0 {
                    return false;
                }
                self.reorder_element(index, index - 1);
            },
            ElementAction::SendBackward => {
                if index == count - 1 {
                    return false;
                }
                self.reorder_element(index, index + 1);
            },
            ElementAction::BringToFront => {
                if index == 0 {
                    return false;
                }
                self.reorder_element(index, 0);
            },
            ElementAction::SendToBack => {
                if index == count - 1 {
                    return false;
                }
                self.reorder_element(index, count - 1);
            },
            ElementAction::Rotate => {
                let mut new = t;
                new.rotation_deg = t.rotation_deg.plus(Double::from_int(90)).rem(Double::from_int(360));
                self.set_transform_at(index, new);
            },
            ElementAction::FlipHorizontal => {
                let mut new = t;
                new.flip_horizontal = !t.flip_horizontal;
                self.set_transform_at(index, new);
            },
            ElementAction::FlipVertical => {
                let mut new = t;
                new.flip_vertical = !t.flip_vertical;
                self.set_transform_at(index, new);
            },
        }
        true
    }
}

/// A quarter turn takes an angle of whole degrees on by ninety of them, past
/// the full turn from zero on.
pub proof fn law_quarter_turn_adds_ninety_degrees(r: int)
    requires
        0 <= r < 360,
    ensures
        quarter_on(int_double(r)) == int_double((r + 90) % 360),
{
    reveal(sum);
    reveal(remainder);
    let u = one_unit() as int;
    lemma_pow2_pos(UNIT_EXP as nat);
    lemma_int_double_exact(r);
    lemma_int_double_exact(90);
    lemma_int_double_exact(360);
    lemma_int_double_exact(r + 90);
    let n = r + 90;
    let k = n % 360;
    assert(r * u + 90 * u == n * u && n * u > 0) by (nonlinear_arith)
        requires
            n == r + 90,
            r >= 0,
            u > 0,
    ;
    assert(sum(int_double(r), int_double(90)) == int_double(n));
    assert(n * u == (360 * u) * (n / 360) + k * u && 0 <= k * u < 360 * u) by (nonlinear_arith)
        requires
            n == 360 * (n / 360) + k,
            0 <= k < 360,
            u > 0,
    ;
    lemma_fundamental_div_mod_converse(n * u, 360 * u, n / 360, k * u);
}

/// Four quarter turns leave an angle of whole degrees within the full turn as
/// it was.
pub proof fn law_four_quarter_turns_restore(r: int)
    requires
        0 <= r < 360,
    ensures
        quarter_on(quarter_on(quarter_on(quarter_on(int_double(r))))) == int_double(r),
{
    law_quarter_turn_adds_ninety_degrees(r);
    let a = (r + 90) % 360;
    law_quarter_turn_adds_ninety_degrees(a);
    let b = (a + 90) % 360;
    law_quarter_turn_adds_ninety_degrees(b);
    let c = (b + 90) % 360;
    law_quarter_turn_adds_ninety_degrees(c);
}

} // verus!
