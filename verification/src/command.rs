//! Undo and redo. Each command holds what it takes to carry itself out and to
//! take itself back; the stack that dispatches them is kept apart from the
//! document that they change.
use crate::double::Double;
use crate::layout::{fit_canvas_to_content, fitted};
use crate::model::background::{BackgroundView, ImageSourceView};
use crate::model::document::{clone_elements, views, DocumentView, ScreenshotElementView};
use crate::model::text::TextElementView;
use crate::model::{
    Background, CornerRadius, Document, ImageSource, LayoutMode, LayoutSettings, ScreenshotElement, ShadowParams,
    TextElement, Transform,
};
use crate::template::Template;
use vstd::prelude::*;

verus! {

/// A single reversible change of a document.
pub trait Command {
    /// The document after the change.
    spec fn applied(&self, doc: DocumentView) -> DocumentView;

    /// The document after the change is taken back.
    spec fn undone(&self, doc: DocumentView) -> DocumentView;

    fn apply(&self, doc: &mut Document)
        ensures
            final(doc)@ == self.applied(old(doc)@),
    ;

    fn undo(&self, doc: &mut Document)
        ensures
            final(doc)@ == self.undone(old(doc)@),
    ;
}

/// The document with other screenshots.
pub open spec fn with_elements(doc: DocumentView, elements: Seq<ScreenshotElementView>) -> DocumentView {
    DocumentView { elements, ..doc }
}

/// Whether `i` is the first position of a screenshot with this id.
pub open spec fn is_first(elements: Seq<ScreenshotElementView>, id: u128, i: int) -> bool {
    &&& 0 <= i < elements.len()
    &&& elements[i].id == id
    &&& forall|j: int| 0 <= j < i ==> (#[trigger] elements[j]).id != id
}

/// Whether some screenshot has this id.
pub open spec fn has_id(elements: Seq<ScreenshotElementView>, id: u128) -> bool {
    exists|i: int| is_first(elements, id, i)
}

/// The first position of a screenshot with this id.
pub open spec fn first_with(elements: Seq<ScreenshotElementView>, id: u128) -> int {
    choose|i: int| is_first(elements, id, i)
}

/// The screenshots with the first one of this id replaced.
pub open spec fn replaced(elements: Seq<ScreenshotElementView>, id: u128, new: ScreenshotElementView) -> Seq<
    ScreenshotElementView,
> {
    if has_id(elements, id) {
        elements.update(first_with(elements, id), new)
    } else {
        elements
    }
}

/// The screenshot with another transform.
pub open spec fn with_transform(e: ScreenshotElementView, transform: Transform) -> ScreenshotElementView {
    ScreenshotElementView { transform, ..e }
}

/// The screenshots with the first one of this id given another transform.
pub open spec fn moved_one(elements: Seq<ScreenshotElementView>, id: u128, transform: Transform) -> Seq<
    ScreenshotElementView,
> {
    replaced(elements, id, with_transform(elements[first_with(elements, id)], transform))
}

proof fn lemma_first_unique(elements: Seq<ScreenshotElementView>, id: u128, i: int)
    requires
        is_first(elements, id, i),
    ensures
        has_id(elements, id),
        first_with(elements, id) == i,
{
    let k = first_with(elements, id);
    assert(is_first(elements, id, k));
    if k < i {
        assert(elements[k].id != id);
    } else if i < k {
        assert(elements[i].id != id);
    }
}

proof fn lemma_views_update(elements: Seq<ScreenshotElement>, i: int, new: ScreenshotElement)
    requires
        0 <= i < elements.len(),
    ensures
        views(elements.update(i, new)) == views(elements).update(i, new@),
{
    assert(views(elements.update(i, new)) =~= views(elements).update(i, new@));
}

/// The first position of a screenshot with this id.
pub fn find_element(elements: &Vec<ScreenshotElement>, id: u128) -> (res: Option<usize>)
    ensures
        match res {
            Some(i) => is_first(views(elements@), id, i as int) && i < elements.len() && has_id(views(elements@), id)
                && first_with(views(elements@), id) == i,
            None => !has_id(views(elements@), id),
        },
{
    let mut i: usize = 0;
    while i < elements.len()
        invariant
            i <= elements.len(),
            forall|j: int| 0 <= j < i ==> (#[trigger] views(elements@)[j]).id != id,
        decreases elements.len() - i,
    {
        if elements[i].id == id {
            proof {
                assert(views(elements@)[i as int].id == id);
                lemma_first_unique(views(elements@), id, i as int);
            }
            return Some(i);
        }
        i = i + 1;
    }
    None
}

fn set_transform(doc: &mut Document, id: u128, transform: Transform)
    ensures
        final(doc)@ == with_elements(old(doc)@, moved_one(old(doc)@.elements, id, transform)),
{
    match find_element(&doc.elements, id) {
        Some(i) => {
            let ghost before = doc.elements@;
            doc.elements[i].transform = transform;
            proof {
                lemma_views_update(before, i as int, doc.elements@[i as int]);
            }
        },
        None => {},
    }
}

// ---------------------------------------------------------------------------
// Adding, moving, removing
// ---------------------------------------------------------------------------

/// Whether some screenshot among `others` has this id.
pub open spec fn id_among(others: Seq<ScreenshotElementView>, id: u128) -> bool {
    exists|k: int| 0 <= k < others.len() && (#[trigger] others[k]).id == id
}

/// The screenshots whose ids are not among those of `others`.
pub open spec fn without(elements: Seq<ScreenshotElementView>, others: Seq<ScreenshotElementView>) -> Seq<
    ScreenshotElementView,
>
    decreases elements.len(),
{
    if elements.len() == 0 {
        Seq::empty()
    } else if id_among(others, elements.last().id) {
        without(elements.drop_last(), others)
    } else {
        without(elements.drop_last(), others).push(elements.last())
    }
}

/// Appends freshly imported screenshots. Taking it back removes them by id, so
/// that it works whatever was reordered in between.
#[derive(Debug)]
pub struct AddScreenshots {
    pub elements: Vec<ScreenshotElement>,
}

fn holds_id(others: &Vec<ScreenshotElement>, id: u128) -> (res: bool)
    ensures
        res == id_among(views(others@), id),
{
    let mut i: usize = 0;
    while i < others.len()
        invariant
            i <= others.len(),
            forall|k: int| 0 <= k < i ==> (#[trigger] views(others@)[k]).id != id,
        decreases others.len() - i,
    {
        if others[i].id == id {
            proof {
                assert(views(others@)[i as int].id == id);
            }
            return true;
        }
        i = i + 1;
    }
    false
}

impl Command for AddScreenshots {
    open spec fn applied(&self, doc: DocumentView) -> DocumentView {
        with_elements(doc, doc.elements + views(self.elements@))
    }

    open spec fn undone(&self, doc: DocumentView) -> DocumentView {
        with_elements(doc, without(doc.elements, views(self.elements@)))
    }

    fn apply(&self, doc: &mut Document) {
        let mut added = clone_elements(&self.elements);
        let ghost before = doc.elements@;
        let ghost extra = added@;
        doc.elements.append(&mut added);
        proof {
            assert(views(before + extra) =~= views(before) + views(extra));
        }
    }

    fn undo(&self, doc: &mut Document) {
        let ghost all = views(doc.elements@);
        let ghost others = views(self.elements@);
        let mut kept: Vec<ScreenshotElement> = Vec::new();
        let mut i: usize = 0;
        proof {
            assert(views(kept@) =~= without(all.take(0), others));
        }
        while i < doc.elements.len()
            invariant
                i <= doc.elements.len(),
                all == views(doc.elements@),
                others == views(self.elements@),
                doc@ == old(doc)@,
                views(kept@) == without(all.take(i as int), others),
            decreases doc.elements.len() - i,
        {
            proof {
                assert(all.take(i + 1).drop_last() =~= all.take(i as int));
                assert(all.take(i + 1).last() == all[i as int]);
            }
            if !holds_id(&self.elements, doc.elements[i].id) {
                let element = doc.elements[i].clone();
                proof {
                    assert(views(kept@.push(element)) =~= views(kept@).push(element@));
                }
                kept.push(element);
            }
            i = i + 1;
        }
        proof {
            assert(all.take(i as int) =~= all);
        }
        doc.elements = kept;
    }
}

/// The screenshots with the one at `from` taken out and put in at `to`, a
/// position among the others.
pub open spec fn shifted(elements: Seq<ScreenshotElementView>, from: nat, to: nat) -> Seq<ScreenshotElementView> {
    if from >= elements.len() {
        elements
    } else {
        let rest = elements.remove(from as int);
        let at = if to < rest.len() {
            to as int
        } else {
            rest.len() as int
        };
        rest.insert(at, elements[from as int])
    }
}

/// Moves the screenshot at `from` to `to`, a position among the others.
#[derive(Debug)]
pub struct ReorderScreenshot {
    pub from: usize,
    pub to: usize,
}

fn shift_element(doc: &mut Document, from: usize, to: usize)
    ensures
        final(doc)@ == with_elements(old(doc)@, shifted(old(doc)@.elements, from as nat, to as nat)),
{
    if from >= doc.elements.len() {
        return;
    }
    let ghost before = doc.elements@;
    let element = doc.elements.remove(from);
    let ghost rest = doc.elements@;
    let at: usize = if to < doc.elements.len() {
        to
    } else {
        doc.elements.len()
    };
    proof {
        assert(views(rest) =~= views(before).remove(from as int));
        assert(views(rest.insert(at as int, element)) =~= views(rest).insert(at as int, element@));
    }
    doc.elements.insert(at, element);
}

impl Command for ReorderScreenshot {
    open spec fn applied(&self, doc: DocumentView) -> DocumentView {
        with_elements(doc, shifted(doc.elements, self.from as nat, self.to as nat))
    }

    open spec fn undone(&self, doc: DocumentView) -> DocumentView {
        with_elements(doc, shifted(doc.elements, self.to as nat, self.from as nat))
    }

    fn apply(&self, doc: &mut Document) {
        shift_element(doc, self.from, self.to);
    }

    fn undo(&self, doc: &mut Document) {
        shift_element(doc, self.to, self.from);
    }
}

/// The screenshots without the one at `index`, if there is one.
pub open spec fn removed_at(elements: Seq<ScreenshotElementView>, index: nat) -> Seq<ScreenshotElementView> {
    if index < elements.len() {
        elements.remove(index as int)
    } else {
        elements
    }
}

/// The screenshots with one more at `index`, or at the end if that is nearer.
pub open spec fn inserted_at(elements: Seq<ScreenshotElementView>, index: nat, e: ScreenshotElementView) -> Seq<
    ScreenshotElementView,
> {
    if index < elements.len() {
        elements.insert(index as int, e)
    } else {
        elements.push(e)
    }
}

/// Removes one screenshot. It keeps a copy and the position, so that taking it
/// back restores both.
#[derive(Debug)]
pub struct RemoveScreenshot {
    pub index: usize,
    pub element: ScreenshotElement,
}

fn remove_element(doc: &mut Document, index: usize)
    ensures
        final(doc)@ == with_elements(old(doc)@, removed_at(old(doc)@.elements, index as nat)),
{
    if index < doc.elements.len() {
        let ghost before = doc.elements@;
        let _gone = doc.elements.remove(index);
        proof {
            assert(views(before.remove(index as int)) =~= views(before).remove(index as int));
        }
    }
}

fn insert_element(doc: &mut Document, index: usize, element: ScreenshotElement)
    ensures
        final(doc)@ == with_elements(old(doc)@, inserted_at(old(doc)@.elements, index as nat, element@)),
{
    let ghost before = doc.elements@;
    if index < doc.elements.len() {
        doc.elements.insert(index, element);
        proof {
            assert(views(before.insert(index as int, element)) =~= views(before).insert(index as int, element@));
        }
    } else {
        doc.elements.push(element);
        proof {
            assert(views(before.push(element)) =~= views(before).push(element@));
        }
    }
}

impl Command for RemoveScreenshot {
    open spec fn applied(&self, doc: DocumentView) -> DocumentView {
        with_elements(doc, removed_at(doc.elements, self.index as nat))
    }

    open spec fn undone(&self, doc: DocumentView) -> DocumentView {
        with_elements(doc, inserted_at(doc.elements, self.index as nat, self.element@))
    }

    fn apply(&self, doc: &mut Document) {
        remove_element(doc, self.index);
    }

    fn undo(&self, doc: &mut Document) {
        insert_element(doc, self.index, self.element.clone());
    }
}

/// A position and the screenshot that stood there.
pub struct RemovedView {
    pub index: usize,
    pub element: ScreenshotElementView,
}

/// What a list of removed screenshots says.
pub open spec fn removed_views(removed: Seq<(usize, ScreenshotElement)>) -> Seq<RemovedView> {
    removed.map_values(|r: (usize, ScreenshotElement)| RemovedView { index: r.0, element: r.1@ })
}

/// A list ordered by position with one more entry put in, behind those of the
/// same position.
pub open spec fn placed(sorted: Seq<RemovedView>, r: RemovedView) -> Seq<RemovedView>
    decreases sorted.len(),
{
    if sorted.len() == 0 || sorted.last().index <= r.index {
        sorted.push(r)
    } else {
        placed(sorted.drop_last(), r).push(sorted.last())
    }
}

/// A list brought into the order of its positions.
pub open spec fn by_index(list: Seq<RemovedView>) -> Seq<RemovedView>
    decreases list.len(),
{
    if list.len() == 0 {
        Seq::empty()
    } else {
        placed(by_index(list.drop_last()), list.last())
    }
}

/// The screenshots after removing the listed positions, last entry first.
pub open spec fn removed_from_back(elements: Seq<ScreenshotElementView>, list: Seq<RemovedView>) -> Seq<
    ScreenshotElementView,
>
    decreases list.len(),
{
    if list.len() == 0 {
        elements
    } else {
        removed_from_back(removed_at(elements, list.last().index as nat), list.drop_last())
    }
}

/// The screenshots after putting the listed ones back, first entry first.
pub open spec fn inserted_in_order(elements: Seq<ScreenshotElementView>, list: Seq<RemovedView>) -> Seq<
    ScreenshotElementView,
>
    decreases list.len(),
{
    if list.len() == 0 {
        elements
    } else {
        inserted_at(
            inserted_in_order(elements, list.drop_last()),
            list.last().index as nat,
            list.last().element,
        )
    }
}

/// Removes several screenshots in one step. The positions are those before any
/// of them is removed, in any order.
#[derive(Debug)]
pub struct RemoveScreenshots {
    pub removed: Vec<(usize, ScreenshotElement)>,
}

proof fn lemma_placed(sorted: Seq<RemovedView>, r: RemovedView, at: int)
    requires
        0 <= at <= sorted.len(),
        at > 0 ==> sorted[at - 1].index <= r.index,
        forall|k: int| at <= k < sorted.len() ==> (#[trigger] sorted[k]).index > r.index,
    ensures
        placed(sorted, r) == sorted.insert(at, r),
    decreases sorted.len(),
{
    if at == sorted.len() {
        assert(sorted.insert(at, r) =~= sorted.push(r));
    } else {
        let init = sorted.drop_last();
        assert(sorted.last() == sorted[sorted.len() - 1]);
        assert forall|k: int| at <= k < init.len() implies (#[trigger] init[k]).index > r.index by {
            assert(init[k] == sorted[k]);
        }
        lemma_placed(init, r, at);
        assert(init.insert(at, r).push(sorted.last()) =~= sorted.insert(at, r));
    }
}

/// The entries that an order of list positions picks.
spec fn picked(list: Seq<RemovedView>, order: Seq<usize>) -> Seq<RemovedView> {
    order.map_values(|k: usize| list[k as int])
}

/// The list positions in the order of the screenshot positions they hold.
fn order_by_index(removed: &Vec<(usize, ScreenshotElement)>) -> (order: Vec<usize>)
    ensures
        picked(removed_views(removed@), order@) == by_index(removed_views(removed@)),
        forall|k: int| 0 <= k < order.len() ==> (#[trigger] order[k]) < removed.len(),
{
    let ghost list = removed_views(removed@);
    let mut order: Vec<usize> = Vec::new();
    let mut i: usize = 0;
    proof {
        assert(picked(list, order@) =~= by_index(list.take(0)));
    }
    while i < removed.len()
        invariant
            i <= removed.len(),
            list == removed_views(removed@),
            picked(list, order@) == by_index(list.take(i as int)),
            order.len() == i,
            forall|k: int| 0 <= k < order.len() ==> (#[trigger] order[k]) < i,
        decreases removed.len() - i,
    {
        let mut at: usize = order.len();
        while at > 0 && removed[order[at - 1]].0 > removed[i].0
            invariant
                at <= order.len(),
                i < removed.len(),
                list == removed_views(removed@),
                order.len() == i,
                forall|k: int| 0 <= k < order.len() ==> (#[trigger] order[k]) < i,
                forall|k: int| at <= k < order.len() ==> (#[trigger] picked(list, order@)[k]).index > list[i as int].index,
            decreases at,
        {
            at = at - 1;
            proof {
                assert(picked(list, order@)[at as int].index == removed[order[at as int] as int].0);
            }
        }
        proof {
            let s = picked(list, order@);
            if at > 0 {
                assert(s[at - 1].index == removed[order[at - 1] as int].0);
            }
            lemma_placed(s, list[i as int], at as int);
            assert(list.take(i + 1).drop_last() =~= list.take(i as int));
            assert(list.take(i + 1).last() == list[i as int]);
            assert(picked(list, order@.insert(at as int, i)) =~= s.insert(at as int, list[i as int]));
        }
        order.insert(at, i);
        i = i + 1;
    }
    proof {
        assert(list.take(i as int) =~= list);
    }
    order
}

impl Command for RemoveScreenshots {
    open spec fn applied(&self, doc: DocumentView) -> DocumentView {
        with_elements(doc, removed_from_back(doc.elements, by_index(removed_views(self.removed@))))
    }

    open spec fn undone(&self, doc: DocumentView) -> DocumentView {
        with_elements(doc, inserted_in_order(doc.elements, by_index(removed_views(self.removed@))))
    }

    fn apply(&self, doc: &mut Document) {
        let order = order_by_index(&self.removed);
        let ghost list = removed_views(self.removed@);
        let ghost sorted = by_index(list);
        let ghost start = doc@;
        let mut n: usize = order.len();
        proof {
            assert(sorted.take(n as int) =~= sorted);
        }
        while n > 0
            invariant
                n <= order.len(),
                list == removed_views(self.removed@),
                sorted == picked(list, order@),
                forall|k: int| 0 <= k < order.len() ==> (#[trigger] order[k]) < self.removed.len(),
                doc@ == with_elements(start, doc@.elements),
                removed_from_back(doc@.elements, sorted.take(n as int)) == removed_from_back(start.elements, sorted),
            decreases n,
        {
            n = n - 1;
            proof {
                assert(sorted.take(n + 1).drop_last() =~= sorted.take(n as int));
                assert(sorted.take(n + 1).last() == sorted[n as int]);
            }
            remove_element(doc, self.removed[order[n]].0);
        }
    }

    fn undo(&self, doc: &mut Document) {
        let order = order_by_index(&self.removed);
        let ghost list = removed_views(self.removed@);
        let ghost sorted = by_index(list);
        let ghost start = doc@;
        let mut n: usize = 0;
        while n < order.len()
            invariant
                n <= order.len(),
                list == removed_views(self.removed@),
                sorted == picked(list, order@),
                forall|k: int| 0 <= k < order.len() ==> (#[trigger] order[k]) < self.removed.len(),
                doc@ == with_elements(start, inserted_in_order(start.elements, sorted.take(n as int))),
            decreases order.len() - n,
        {
            proof {
                assert(sorted.take(n + 1).drop_last() =~= sorted.take(n as int));
                assert(sorted.take(n + 1).last() == sorted[n as int]);
            }
            let entry = &self.removed[order[n]];
            insert_element(doc, entry.0, entry.1.clone());
            n = n + 1;
        }
        proof {
            assert(sorted.take(n as int) =~= sorted);
        }
    }
}

/// Puts in a duplicate right behind the screenshot that it is a copy of. Taking
/// it back removes the first screenshot with the duplicate's id.
#[derive(Debug)]
pub struct DuplicateScreenshot {
    pub source_index: usize,
    pub duplicate: ScreenshotElement,
}

impl Command for DuplicateScreenshot {
    open spec fn applied(&self, doc: DocumentView) -> DocumentView {
        with_elements(doc, inserted_at(doc.elements, (self.source_index + 1) as nat, self.duplicate@))
    }

    open spec fn undone(&self, doc: DocumentView) -> DocumentView {
        if has_id(doc.elements, self.duplicate.id) {
            with_elements(doc, doc.elements.remove(first_with(doc.elements, self.duplicate.id)))
        } else {
            doc
        }
    }

    fn apply(&self, doc: &mut Document) {
        let at: usize = if self.source_index < doc.elements.len() {
            self.source_index + 1
        } else {
            doc.elements.len()
        };
        insert_element(doc, at, self.duplicate.clone());
    }

    fn undo(&self, doc: &mut Document) {
        match find_element(&doc.elements, self.duplicate.id) {
            Some(i) => remove_element(doc, i),
            None => {},
        }
    }
}

// ---------------------------------------------------------------------------
// Transforms and sources
// ---------------------------------------------------------------------------

/// The screenshots after setting, in order, each listed transform.
pub open spec fn moved_all(
    elements: Seq<ScreenshotElementView>,
    transforms: Seq<(u128, Transform, Transform)>,
    forward: bool,
) -> Seq<ScreenshotElementView>
    decreases transforms.len(),
{
    if transforms.len() == 0 {
        elements
    } else {
        let (id, old_transform, new_transform) = transforms.last();
        moved_one(
            moved_all(elements, transforms.drop_last(), forward),
            id,
            if forward {
                new_transform
            } else {
                old_transform
            },
        )
    }
}

/// Sets several screenshots' transforms in one step: an id, the transform
/// before and the transform after for each.
#[derive(Debug)]
pub struct SetTransforms {
    pub transforms: Vec<(u128, Transform, Transform)>,
}

fn set_all_transforms(doc: &mut Document, transforms: &Vec<(u128, Transform, Transform)>, forward: bool)
    ensures
        final(doc)@ == with_elements(old(doc)@, moved_all(old(doc)@.elements, transforms@, forward)),
{
    let ghost start = doc@;
    let mut i: usize = 0;
    while i < transforms.len()
        invariant
            i <= transforms.len(),
            doc@ == with_elements(start, moved_all(start.elements, transforms@.take(i as int), forward)),
        decreases transforms.len() - i,
    {
        proof {
            assert(transforms@.take(i + 1).drop_last() =~= transforms@.take(i as int));
            assert(transforms@.take(i + 1).last() == transforms@[i as int]);
        }
        let (id, before, after) = transforms[i];
        set_transform(
            doc,
            id,
            if forward {
                after
            } else {
                before
            },
        );
        i = i + 1;
    }
    proof {
        assert(transforms@.take(i as int) =~= transforms@);
    }
}

impl Command for SetTransforms {
    open spec fn applied(&self, doc: DocumentView) -> DocumentView {
        with_elements(doc, moved_all(doc.elements, self.transforms@, true))
    }

    open spec fn undone(&self, doc: DocumentView) -> DocumentView {
        with_elements(doc, moved_all(doc.elements, self.transforms@, false))
    }

    fn apply(&self, doc: &mut Document) {
        set_all_transforms(doc, &self.transforms, true);
    }

    fn undo(&self, doc: &mut Document) {
        set_all_transforms(doc, &self.transforms, false);
    }
}

/// Sets one screenshot's transform.
#[derive(Debug)]
pub struct SetTransform {
    pub element_id: u128,
    pub old: Transform,
    pub new: Transform,
}

impl Command for SetTransform {
    open spec fn applied(&self, doc: DocumentView) -> DocumentView {
        with_elements(doc, moved_one(doc.elements, self.element_id, self.new))
    }

    open spec fn undone(&self, doc: DocumentView) -> DocumentView {
        with_elements(doc, moved_one(doc.elements, self.element_id, self.old))
    }

    fn apply(&self, doc: &mut Document) {
        set_transform(doc, self.element_id, self.new);
    }

    fn undo(&self, doc: &mut Document) {
        set_transform(doc, self.element_id, self.old);
    }
}

/// The screenshot with another image.
pub open spec fn with_source(
    e: ScreenshotElementView,
    source: ImageSourceView,
    natural_width: Double,
    natural_height: Double,
) -> ScreenshotElementView {
    ScreenshotElementView { source, natural_width, natural_height, ..e }
}

/// The screenshots with the first one of this id given another image.
pub open spec fn resourced(
    elements: Seq<ScreenshotElementView>,
    id: u128,
    source: ImageSourceView,
    natural_width: Double,
    natural_height: Double,
) -> Seq<ScreenshotElementView> {
    replaced(elements, id, with_source(elements[first_with(elements, id)], source, natural_width, natural_height))
}

/// Replaces one screenshot's image and keeps everything else of it.
#[derive(Debug)]
pub struct ReplaceScreenshotSource {
    pub element_id: u128,
    pub old_source: ImageSource,
    pub old_natural_width: Double,
    pub old_natural_height: Double,
    pub new_source: ImageSource,
    pub new_natural_width: Double,
    pub new_natural_height: Double,
}

fn set_source(doc: &mut Document, id: u128, source: ImageSource, natural_width: Double, natural_height: Double)
    ensures
        final(doc)@ == with_elements(
            old(doc)@,
            resourced(old(doc)@.elements, id, source@, natural_width, natural_height),
        ),
{
    match find_element(&doc.elements, id) {
        Some(i) => {
            let ghost before = doc.elements@;
            doc.elements[i].source = source;
            doc.elements[i].natural_width = natural_width;
            doc.elements[i].natural_height = natural_height;
            proof {
                lemma_views_update(before, i as int, doc.elements@[i as int]);
                assert(doc.elements@ =~= before.update(i as int, doc.elements@[i as int]));
            }
        },
        None => {},
    }
}

impl Command for ReplaceScreenshotSource {
    open spec fn applied(&self, doc: DocumentView) -> DocumentView {
        with_elements(
            doc,
            resourced(
                doc.elements,
                self.element_id,
                self.new_source@,
                self.new_natural_width,
                self.new_natural_height,
            ),
        )
    }

    open spec fn undone(&self, doc: DocumentView) -> DocumentView {
        with_elements(
            doc,
            resourced(
                doc.elements,
                self.element_id,
                self.old_source@,
                self.old_natural_width,
                self.old_natural_height,
            ),
        )
    }

    fn apply(&self, doc: &mut Document) {
        set_source(
            doc,
            self.element_id,
            self.new_source.clone(),
            self.new_natural_width,
            self.new_natural_height,
        );
    }

    fn undo(&self, doc: &mut Document) {
        set_source(
            doc,
            self.element_id,
            self.old_source.clone(),
            self.old_natural_width,
            self.old_natural_height,
        );
    }
}

// ---------------------------------------------------------------------------
// Layout
// ---------------------------------------------------------------------------

pub open spec fn with_layout(doc: DocumentView, layout: LayoutSettings) -> DocumentView {
    DocumentView { layout, ..doc }
}

#[derive(Debug)]
pub struct SetSpacing {
    pub old: Double,
    pub new: Double,
}

impl Command for SetSpacing {
    open spec fn applied(&self, doc: DocumentView) -> DocumentView {
        with_layout(doc, LayoutSettings { spacing_px: self.new, ..doc.layout })
    }

    open spec fn undone(&self, doc: DocumentView) -> DocumentView {
        with_layout(doc, LayoutSettings { spacing_px: self.old, ..doc.layout })
    }

    fn apply(&self, doc: &mut Document) {
        doc.layout.spacing_px = self.new;
    }

    fn undo(&self, doc: &mut Document) {
        doc.layout.spacing_px = self.old;
    }
}

#[derive(Debug)]
pub struct SetMargin {
    pub old: Double,
    pub new: Double,
}

impl Command for SetMargin {
    open spec fn applied(&self, doc: DocumentView) -> DocumentView {
        with_layout(doc, LayoutSettings { margin_px: self.new, ..doc.layout })
    }

    open spec fn undone(&self, doc: DocumentView) -> DocumentView {
        with_layout(doc, LayoutSettings { margin_px: self.old, ..doc.layout })
    }

    fn apply(&self, doc: &mut Document) {
        doc.layout.margin_px = self.new;
    }

    fn undo(&self, doc: &mut Document) {
        doc.layout.margin_px = self.old;
    }
}

#[derive(Debug)]
pub struct SetLayoutMode {
    pub old: LayoutMode,
    pub new: LayoutMode,
}

impl Command for SetLayoutMode {
    open spec fn applied(&self, doc: DocumentView) -> DocumentView {
        with_layout(doc, LayoutSettings { mode: self.new, ..doc.layout })
    }

    open spec fn undone(&self, doc: DocumentView) -> DocumentView {
        with_layout(doc, LayoutSettings { mode: self.old, ..doc.layout })
    }

    fn apply(&self, doc: &mut Document) {
        doc.layout.mode = self.new;
    }

    fn undo(&self, doc: &mut Document) {
        doc.layout.mode = self.old;
    }
}

/// Switches to free positioning, with a transform for each screenshot to start
/// from.
#[derive(Debug)]
pub struct EnterFreeLayout {
    pub old_mode: LayoutMode,
    pub transforms: Vec<(u128, Transform, Transform)>,
}

impl Command for EnterFreeLayout {
    open spec fn applied(&self, doc: DocumentView) -> DocumentView {
        with_elements(
            with_layout(doc, LayoutSettings { mode: LayoutMode::Free, ..doc.layout }),
            moved_all(doc.elements, self.transforms@, true),
        )
    }

    open spec fn undone(&self, doc: DocumentView) -> DocumentView {
        with_elements(
            with_layout(doc, LayoutSettings { mode: self.old_mode, ..doc.layout }),
            moved_all(doc.elements, self.transforms@, false),
        )
    }

    fn apply(&self, doc: &mut Document) {
        doc.layout.mode = LayoutMode::Free;
        set_all_transforms(doc, &self.transforms, true);
    }

    fn undo(&self, doc: &mut Document) {
        doc.layout.mode = self.old_mode;
        set_all_transforms(doc, &self.transforms, false);
    }
}

// ---------------------------------------------------------------------------
// Background, effects, texts
// ---------------------------------------------------------------------------

pub open spec fn with_background(doc: DocumentView, background: BackgroundView) -> DocumentView {
    DocumentView { background, ..doc }
}

#[derive(Debug)]
pub struct SetBackground {
    pub old: Background,
    pub new: Background,
}

impl Command for SetBackground {
    open spec fn applied(&self, doc: DocumentView) -> DocumentView {
        with_background(doc, self.new@)
    }

    open spec fn undone(&self, doc: DocumentView) -> DocumentView {
        with_background(doc, self.old@)
    }

    fn apply(&self, doc: &mut Document) {
        doc.background = self.new.clone();
    }

    fn undo(&self, doc: &mut Document) {
        doc.background = self.old.clone();
    }
}

/// Each screenshot with the effects of its position, where there are some.
pub open spec fn with_effects(
    elements: Seq<ScreenshotElementView>,
    shadows: Seq<ShadowParams>,
    radii: Seq<CornerRadius>,
) -> Seq<ScreenshotElementView> {
    Seq::new(
        elements.len(),
        |i: int|
            if i < shadows.len() && i < radii.len() {
                ScreenshotElementView { shadow: shadows[i], corner_radius: radii[i], ..elements[i] }
            } else {
                elements[i]
            },
    )
}

/// Each screenshot with the shadow of its position, where there is one.
pub open spec fn with_shadows(elements: Seq<ScreenshotElementView>, shadows: Seq<ShadowParams>) -> Seq<
    ScreenshotElementView,
> {
    Seq::new(
        elements.len(),
        |i: int|
            if i < shadows.len() {
                ScreenshotElementView { shadow: shadows[i], ..elements[i] }
            } else {
                elements[i]
            },
    )
}

/// Each screenshot with the corner radius of its position, where there is one.
pub open spec fn with_radii(elements: Seq<ScreenshotElementView>, radii: Seq<CornerRadius>) -> Seq<
    ScreenshotElementView,
> {
    Seq::new(
        elements.len(),
        |i: int|
            if i < radii.len() {
                ScreenshotElementView { corner_radius: radii[i], ..elements[i] }
            } else {
                elements[i]
            },
    )
}

/// One value for every screenshot.
pub open spec fn for_all<T>(elements: Seq<ScreenshotElementView>, value: T) -> Seq<T> {
    Seq::new(elements.len(), |i: int| value)
}

/// Gives every screenshot the same shadow. Taking it back restores each one's
/// own.
#[derive(Debug)]
pub struct SetShadowForAllElements {
    pub old: Vec<ShadowParams>,
    pub new: ShadowParams,
}

impl Command for SetShadowForAllElements {
    open spec fn applied(&self, doc: DocumentView) -> DocumentView {
        with_elements(doc, with_shadows(doc.elements, for_all(doc.elements, self.new)))
    }

    open spec fn undone(&self, doc: DocumentView) -> DocumentView {
        with_elements(doc, with_shadows(doc.elements, self.old@))
    }

    fn apply(&self, doc: &mut Document) {
        let ghost start = doc.elements@;
        let ghost goal = with_shadows(views(start), for_all(views(start), self.new));
        let mut i: usize = 0;
        while i < doc.elements.len()
            invariant
                i <= doc.elements.len(),
                doc.elements.len() == start.len(),
                doc@ == with_elements(old(doc)@, views(doc.elements@)),
                goal == with_shadows(views(start), for_all(views(start), self.new)),
                forall|k: int| 0 <= k < i ==> (#[trigger] doc.elements@[k])@ == goal[k],
                forall|k: int| i <= k < start.len() ==> (#[trigger] doc.elements@[k]) == start[k],
            decreases doc.elements.len() - i,
        {
            doc.elements[i].shadow = self.new;
            i = i + 1;
        }
        proof {
            assert(views(doc.elements@) =~= goal);
        }
    }

    fn undo(&self, doc: &mut Document) {
        let ghost start = doc.elements@;
        let ghost goal = with_shadows(views(start), self.old@);
        let mut i: usize = 0;
        while i < doc.elements.len() && i < self.old.len()
            invariant
                i <= doc.elements.len(),
                i <= self.old.len(),
                doc.elements.len() == start.len(),
                doc@ == with_elements(old(doc)@, views(doc.elements@)),
                goal == with_shadows(views(start), self.old@),
                forall|k: int| 0 <= k < i ==> (#[trigger] doc.elements@[k])@ == goal[k],
                forall|k: int| i <= k < start.len() ==> (#[trigger] doc.elements@[k]) == start[k],
            decreases doc.elements.len() - i,
        {
            doc.elements[i].shadow = self.old[i];
            i = i + 1;
        }
        proof {
            assert(views(doc.elements@) =~= goal);
        }
    }
}

/// Gives every screenshot the same corner radius. Taking it back restores each
/// one's own.
#[derive(Debug)]
pub struct SetCornerRadiusForAllElements {
    pub old: Vec<CornerRadius>,
    pub new: CornerRadius,
}

impl Command for SetCornerRadiusForAllElements {
    open spec fn applied(&self, doc: DocumentView) -> DocumentView {
        with_elements(doc, with_radii(doc.elements, for_all(doc.elements, self.new)))
    }

    open spec fn undone(&self, doc: DocumentView) -> DocumentView {
        with_elements(doc, with_radii(doc.elements, self.old@))
    }

    fn apply(&self, doc: &mut Document) {
        let ghost start = doc.elements@;
        let ghost goal = with_radii(views(start), for_all(views(start), self.new));
        let mut i: usize = 0;
        while i < doc.elements.len()
            invariant
                i <= doc.elements.len(),
                doc.elements.len() == start.len(),
                doc@ == with_elements(old(doc)@, views(doc.elements@)),
                goal == with_radii(views(start), for_all(views(start), self.new)),
                forall|k: int| 0 <= k < i ==> (#[trigger] doc.elements@[k])@ == goal[k],
                forall|k: int| i <= k < start.len() ==> (#[trigger] doc.elements@[k]) == start[k],
            decreases doc.elements.len() - i,
        {
            doc.elements[i].corner_radius = self.new;
            i = i + 1;
        }
        proof {
            assert(views(doc.elements@) =~= goal);
        }
    }

    fn undo(&self, doc: &mut Document) {
        let ghost start = doc.elements@;
        let ghost goal = with_radii(views(start), self.old@);
        let mut i: usize = 0;
        while i < doc.elements.len() && i < self.old.len()
            invariant
                i <= doc.elements.len(),
                i <= self.old.len(),
                doc.elements.len() == start.len(),
                doc@ == with_elements(old(doc)@, views(doc.elements@)),
                goal == with_radii(views(start), self.old@),
                forall|k: int| 0 <= k < i ==> (#[trigger] doc.elements@[k])@ == goal[k],
                forall|k: int| i <= k < start.len() ==> (#[trigger] doc.elements@[k]) == start[k],
            decreases doc.elements.len() - i,
        {
            doc.elements[i].corner_radius = self.old[i];
            i = i + 1;
        }
        proof {
            assert(views(doc.elements@) =~= goal);
        }
    }
}

/// Sets the composition's title.
#[derive(Debug)]
pub struct SetTitle {
    pub old: TextElement,
    pub new: TextElement,
}

impl Command for SetTitle {
    open spec fn applied(&self, doc: DocumentView) -> DocumentView {
        DocumentView { title: self.new@, ..doc }
    }

    open spec fn undone(&self, doc: DocumentView) -> DocumentView {
        DocumentView { title: self.old@, ..doc }
    }

    fn apply(&self, doc: &mut Document) {
        doc.title = self.new.clone();
    }

    fn undo(&self, doc: &mut Document) {
        doc.title = self.old.clone();
    }
}

/// The screenshots with the first one of this id given another label.
pub open spec fn labelled(elements: Seq<ScreenshotElementView>, id: u128, label: TextElementView) -> Seq<
    ScreenshotElementView,
> {
    replaced(elements, id, ScreenshotElementView { label, ..elements[first_with(elements, id)] })
}

/// Sets one screenshot's label.
#[derive(Debug)]
pub struct SetScreenshotLabel {
    pub element_id: u128,
    pub old: TextElement,
    pub new: TextElement,
}

fn set_label(doc: &mut Document, id: u128, label: TextElement)
    ensures
        final(doc)@ == with_elements(old(doc)@, labelled(old(doc)@.elements, id, label@)),
{
    match find_element(&doc.elements, id) {
        Some(i) => {
            let ghost before = doc.elements@;
            doc.elements[i].label = label;
            proof {
                lemma_views_update(before, i as int, doc.elements@[i as int]);
            }
        },
        None => {},
    }
}

impl Command for SetScreenshotLabel {
    open spec fn applied(&self, doc: DocumentView) -> DocumentView {
        with_elements(doc, labelled(doc.elements, self.element_id, self.new@))
    }

    open spec fn undone(&self, doc: DocumentView) -> DocumentView {
        with_elements(doc, labelled(doc.elements, self.element_id, self.old@))
    }

    fn apply(&self, doc: &mut Document) {
        set_label(doc, self.element_id, self.new.clone());
    }

    fn undo(&self, doc: &mut Document) {
        set_label(doc, self.element_id, self.old.clone());
    }
}

/// Applies a template to the whole composition in one step.
#[derive(Debug)]
pub struct ApplyTemplate {
    pub old_layout: LayoutSettings,
    pub old_background: Background,
    pub old_shadows: Vec<ShadowParams>,
    pub old_corner_radii: Vec<CornerRadius>,
    pub new: Template,
}

impl Command for ApplyTemplate {
    open spec fn applied(&self, doc: DocumentView) -> DocumentView {
        with_elements(
            with_layout(with_background(doc, self.new.background@), self.new.layout),
            with_effects(
                doc.elements,
                for_all(doc.elements, self.new.shadow),
                for_all(doc.elements, self.new.corner_radius),
            ),
        )
    }

    open spec fn undone(&self, doc: DocumentView) -> DocumentView {
        with_elements(
            with_layout(with_background(doc, self.old_background@), self.old_layout),
            with_effects(doc.elements, self.old_shadows@, self.old_corner_radii@),
        )
    }

    fn apply(&self, doc: &mut Document) {
        doc.layout = self.new.layout;
        doc.background = self.new.background.clone();
        let ghost mid = doc@;
        let ghost start = doc.elements@;
        let ghost goal = with_effects(
            views(start),
            for_all(views(start), self.new.shadow),
            for_all(views(start), self.new.corner_radius),
        );
        let mut i: usize = 0;
        while i < doc.elements.len()
            invariant
                i <= doc.elements.len(),
                doc.elements.len() == start.len(),
                doc@ == with_elements(mid, views(doc.elements@)),
                goal == with_effects(
                    views(start),
                    for_all(views(start), self.new.shadow),
                    for_all(views(start), self.new.corner_radius),
                ),
                forall|k: int| 0 <= k < i ==> (#[trigger] doc.elements@[k])@ == goal[k],
                forall|k: int| i <= k < start.len() ==> (#[trigger] doc.elements@[k]) == start[k],
            decreases doc.elements.len() - i,
        {
            doc.elements[i].shadow = self.new.shadow;
            doc.elements[i].corner_radius = self.new.corner_radius;
            i = i + 1;
        }
        proof {
            assert(views(doc.elements@) =~= goal);
        }
    }

    fn undo(&self, doc: &mut Document) {
        doc.layout = self.old_layout;
        doc.background = self.old_background.clone();
        let ghost mid = doc@;
        let ghost start = doc.elements@;
        let ghost goal = with_effects(views(start), self.old_shadows@, self.old_corner_radii@);
        let mut i: usize = 0;
        while i < doc.elements.len() && i < self.old_shadows.len() && i < self.old_corner_radii.len()
            invariant
                i <= doc.elements.len(),
                i <= self.old_shadows.len(),
                i <= self.old_corner_radii.len(),
                doc.elements.len() == start.len(),
                doc@ == with_elements(mid, views(doc.elements@)),
                goal == with_effects(views(start), self.old_shadows@, self.old_corner_radii@),
                forall|k: int| 0 <= k < i ==> (#[trigger] doc.elements@[k])@ == goal[k],
                forall|k: int| i <= k < start.len() ==> (#[trigger] doc.elements@[k]) == start[k],
            decreases doc.elements.len() - i,
        {
            doc.elements[i].shadow = self.old_shadows[i];
            doc.elements[i].corner_radius = self.old_corner_radii[i];
            i = i + 1;
        }
        proof {
            assert(views(doc.elements@) =~= goal);
        }
    }
}

// ---------------------------------------------------------------------------
// History
// ---------------------------------------------------------------------------

/// Any one of the commands.
#[derive(Debug)]
pub enum Edit {
    AddScreenshots(AddScreenshots),
    ReorderScreenshot(ReorderScreenshot),
    RemoveScreenshot(RemoveScreenshot),
    RemoveScreenshots(RemoveScreenshots),
    SetTransforms(SetTransforms),
    DuplicateScreenshot(DuplicateScreenshot),
    SetTransform(SetTransform),
    ReplaceScreenshotSource(ReplaceScreenshotSource),
    SetSpacing(SetSpacing),
    SetMargin(SetMargin),
    SetLayoutMode(SetLayoutMode),
    EnterFreeLayout(EnterFreeLayout),
    SetBackground(SetBackground),
    SetShadowForAllElements(SetShadowForAllElements),
    SetCornerRadiusForAllElements(SetCornerRadiusForAllElements),
    SetTitle(SetTitle),
    SetScreenshotLabel(SetScreenshotLabel),
    ApplyTemplate(ApplyTemplate),
}

impl Command for Edit {
    open spec fn applied(&self, doc: DocumentView) -> DocumentView {
        match self {
            Edit::AddScreenshots(cmd) => cmd.applied(doc),
            Edit::ReorderScreenshot(cmd) => cmd.applied(doc),
            Edit::RemoveScreenshot(cmd) => cmd.applied(doc),
            Edit::RemoveScreenshots(cmd) => cmd.applied(doc),
            Edit::SetTransforms(cmd) => cmd.applied(doc),
            Edit::DuplicateScreenshot(cmd) => cmd.applied(doc),
            Edit::SetTransform(cmd) => cmd.applied(doc),
            Edit::ReplaceScreenshotSource(cmd) => cmd.applied(doc),
            Edit::SetSpacing(cmd) => cmd.applied(doc),
            Edit::SetMargin(cmd) => cmd.applied(doc),
            Edit::SetLayoutMode(cmd) => cmd.applied(doc),
            Edit::EnterFreeLayout(cmd) => cmd.applied(doc),
            Edit::SetBackground(cmd) => cmd.applied(doc),
            Edit::SetShadowForAllElements(cmd) => cmd.applied(doc),
            Edit::SetCornerRadiusForAllElements(cmd) => cmd.applied(doc),
            Edit::SetTitle(cmd) => cmd.applied(doc),
            Edit::SetScreenshotLabel(cmd) => cmd.applied(doc),
            Edit::ApplyTemplate(cmd) => cmd.applied(doc),
        }
    }

    open spec fn undone(&self, doc: DocumentView) -> DocumentView {
        match self {
            Edit::AddScreenshots(cmd) => cmd.undone(doc),
            Edit::ReorderScreenshot(cmd) => cmd.undone(doc),
            Edit::RemoveScreenshot(cmd) => cmd.undone(doc),
            Edit::RemoveScreenshots(cmd) => cmd.undone(doc),
            Edit::SetTransforms(cmd) => cmd.undone(doc),
            Edit::DuplicateScreenshot(cmd) => cmd.undone(doc),
            Edit::SetTransform(cmd) => cmd.undone(doc),
            Edit::ReplaceScreenshotSource(cmd) => cmd.undone(doc),
            Edit::SetSpacing(cmd) => cmd.undone(doc),
            Edit::SetMargin(cmd) => cmd.undone(doc),
            Edit::SetLayoutMode(cmd) => cmd.undone(doc),
            Edit::EnterFreeLayout(cmd) => cmd.undone(doc),
            Edit::SetBackground(cmd) => cmd.undone(doc),
            Edit::SetShadowForAllElements(cmd) => cmd.undone(doc),
            Edit::SetCornerRadiusForAllElements(cmd) => cmd.undone(doc),
            Edit::SetTitle(cmd) => cmd.undone(doc),
            Edit::SetScreenshotLabel(cmd) => cmd.undone(doc),
            Edit::ApplyTemplate(cmd) => cmd.undone(doc),
        }
    }

    fn apply(&self, doc: &mut Document) {
        match self {
            Edit::AddScreenshots(cmd) => cmd.apply(doc),
            Edit::ReorderScreenshot(cmd) => cmd.apply(doc),
            Edit::RemoveScreenshot(cmd) => cmd.apply(doc),
            Edit::RemoveScreenshots(cmd) => cmd.apply(doc),
            Edit::SetTransforms(cmd) => cmd.apply(doc),
            Edit::DuplicateScreenshot(cmd) => cmd.apply(doc),
            Edit::SetTransform(cmd) => cmd.apply(doc),
            Edit::ReplaceScreenshotSource(cmd) => cmd.apply(doc),
            Edit::SetSpacing(cmd) => cmd.apply(doc),
            Edit::SetMargin(cmd) => cmd.apply(doc),
            Edit::SetLayoutMode(cmd) => cmd.apply(doc),
            Edit::EnterFreeLayout(cmd) => cmd.apply(doc),
            Edit::SetBackground(cmd) => cmd.apply(doc),
            Edit::SetShadowForAllElements(cmd) => cmd.apply(doc),
            Edit::SetCornerRadiusForAllElements(cmd) => cmd.apply(doc),
            Edit::SetTitle(cmd) => cmd.apply(doc),
            Edit::SetScreenshotLabel(cmd) => cmd.apply(doc),
            Edit::ApplyTemplate(cmd) => cmd.apply(doc),
        }
    }

    fn undo(&self, doc: &mut Document) {
        match self {
            Edit::AddScreenshots(cmd) => cmd.undo(doc),
            Edit::ReorderScreenshot(cmd) => cmd.undo(doc),
            Edit::RemoveScreenshot(cmd) => cmd.undo(doc),
            Edit::RemoveScreenshots(cmd) => cmd.undo(doc),
            Edit::SetTransforms(cmd) => cmd.undo(doc),
            Edit::DuplicateScreenshot(cmd) => cmd.undo(doc),
            Edit::SetTransform(cmd) => cmd.undo(doc),
            Edit::ReplaceScreenshotSource(cmd) => cmd.undo(doc),
            Edit::SetSpacing(cmd) => cmd.undo(doc),
            Edit::SetMargin(cmd) => cmd.undo(doc),
            Edit::SetLayoutMode(cmd) => cmd.undo(doc),
            Edit::EnterFreeLayout(cmd) => cmd.undo(doc),
            Edit::SetBackground(cmd) => cmd.undo(doc),
            Edit::SetShadowForAllElements(cmd) => cmd.undo(doc),
            Edit::SetCornerRadiusForAllElements(cmd) => cmd.undo(doc),
            Edit::SetTitle(cmd) => cmd.undo(doc),
            Edit::SetScreenshotLabel(cmd) => cmd.undo(doc),
            Edit::ApplyTemplate(cmd) => cmd.undo(doc),
        }
    }
}

/// What a history holds: the commands that were carried out and those that
/// were taken back, each with the latest one last.
#[verifier::ext_equal]
pub struct UndoStackView<C = Edit> {
    pub done: Seq<C>,
    pub undone: Seq<C>,
}

/// The history of a document, of commands of any one kind. After every step the
/// canvas is fitted to the visible screenshots.
pub struct UndoStack<C = Edit> {
    done: Vec<C>,
    undone: Vec<C>,
}

impl<C> View for UndoStack<C> {
    type V = UndoStackView<C>;

    closed spec fn view(&self) -> UndoStackView<C> {
        UndoStackView { done: self.done@, undone: self.undone@ }
    }
}

/// The document after carrying out a command.
pub open spec fn done_to<C: Command>(cmd: C, doc: DocumentView) -> DocumentView {
    fitted(cmd.applied(doc))
}

/// The document after taking back a command.
pub open spec fn undone_to<C: Command>(cmd: C, doc: DocumentView) -> DocumentView {
    fitted(cmd.undone(doc))
}

impl<C: Command> UndoStack<C> {
    pub fn new() -> (res: UndoStack<C>)
        ensures
            res@ == (UndoStackView { done: Seq::<C>::empty(), undone: Seq::empty() }),
    {
        UndoStack { done: Vec::new(), undone: Vec::new() }
    }

    /// Carries out a command and remembers it. What was taken back before can
    /// no longer be carried out again.
    pub fn apply(&mut self, cmd: C, doc: &mut Document)
        ensures
            final(doc)@ == done_to(cmd, old(doc)@),
            final(self)@ == (UndoStackView { done: old(self)@.done.push(cmd), undone: Seq::empty() }),
    {
        cmd.apply(doc);
        fit_canvas_to_content(doc);
        self.done.push(cmd);
        self.undone.clear();
    }

    /// Takes back the latest command; `false` if there is none.
    pub fn undo(&mut self, doc: &mut Document) -> (res: bool)
        ensures
            res == (old(self)@.done.len() > 0),
            !res ==> final(doc)@ == old(doc)@ && final(self)@ == old(self)@,
            res ==> {
                let cmd = old(self)@.done.last();
                &&& final(doc)@ == undone_to(cmd, old(doc)@)
                &&& final(self)@ == (UndoStackView {
                    done: old(self)@.done.drop_last(),
                    undone: old(self)@.undone.push(cmd),
                })
            },
    {
        match self.done.pop() {
            Some(cmd) => {
                cmd.undo(doc);
                fit_canvas_to_content(doc);
                self.undone.push(cmd);
                true
            },
            None => false,
        }
    }

    /// Carries out again the command that was taken back last; `false` if there
    /// is none.
    pub fn redo(&mut self, doc: &mut Document) -> (res: bool)
        ensures
            res == (old(self)@.undone.len() > 0),
            !res ==> final(doc)@ == old(doc)@ && final(self)@ == old(self)@,
            res ==> {
                let cmd = old(self)@.undone.last();
                &&& final(doc)@ == done_to(cmd, old(doc)@)
                &&& final(self)@ == (UndoStackView {
                    done: old(self)@.done.push(cmd),
                    undone: old(self)@.undone.drop_last(),
                })
            },
    {
        match self.undone.pop() {
            Some(cmd) => {
                cmd.apply(doc);
                fit_canvas_to_content(doc);
                self.done.push(cmd);
                true
            },
            None => false,
        }
    }

    pub fn can_undo(&self) -> (res: bool)
        ensures
            res == (self@.done.len() > 0),
    {
        self.done.len() > 0
    }

    pub fn can_redo(&self) -> (res: bool)
        ensures
            res == (self@.undone.len() > 0),
    {
        self.undone.len() > 0
    }
}

impl<C: Command> Default for UndoStack<C> {
    fn default() -> (res: UndoStack<C>)
        ensures
            res@ == (UndoStackView { done: Seq::<C>::empty(), undone: Seq::empty() }),
    {
        UndoStack::new()
    }
}

} // verus!
