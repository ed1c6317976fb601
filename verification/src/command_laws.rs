//! What undo and redo promise: a command that holds the state it replaces
//! takes itself back exactly, and so does the history.
use crate::command::{
    by_index, done_to, first_with, has_id, id_among, inserted_at, inserted_in_order, is_first, moved_all, moved_one,
    placed, removed_at, removed_from_back, removed_views, replaced, shifted, undone_to, with_transform, without,
    Command, Edit, RemovedView,
};
use crate::layout::{fitted, visible_of};
use crate::model::{CanvasSettings, Transform};
use crate::model::document::{views, DocumentView, ScreenshotElementView};
use vstd::prelude::*;

verus! {

/// Whether a list of transforms names each screenshot once and holds the
/// transform that it has.
pub open spec fn transforms_held(
    elements: Seq<ScreenshotElementView>,
    transforms: Seq<(u128, Transform, Transform)>,
) -> bool {
    &&& forall|j: int, k: int|
        0 <= j < k < transforms.len() ==> (#[trigger] transforms[j]).0 != (#[trigger] transforms[k]).0
    &&& forall|k: int|
        0 <= k < transforms.len() && has_id(elements, (#[trigger] transforms[k]).0)
            ==> elements[first_with(elements, transforms[k].0)].transform == transforms[k].1
}

/// Whether a list of removed screenshots names each position once, and the
/// screenshot that stands there.
pub open spec fn removals_held(elements: Seq<ScreenshotElementView>, list: Seq<RemovedView>) -> bool {
    &&& forall|j: int, k: int|
        0 <= j < k < list.len() ==> (#[trigger] list[j]).index != (#[trigger] list[k]).index
    &&& forall|k: int|
        0 <= k < list.len() ==> (#[trigger] list[k]).index < elements.len() && list[k].element
            == elements[list[k].index as int]
}

/// Whether a command holds the state of the document that it replaces.
pub open spec fn holds_state(cmd: Edit, doc: DocumentView) -> bool {
    let elements = doc.elements;
    match cmd {
        Edit::AddScreenshots(c) => forall|i: int|
            0 <= i < elements.len() ==> !id_among(views(c.elements@), (#[trigger] elements[i]).id),
        Edit::ReorderScreenshot(c) => c.from < elements.len() && c.to < elements.len(),
        Edit::RemoveScreenshot(c) => c.index < elements.len() && c.element@ == elements[c.index as int],
        Edit::RemoveScreenshots(c) => removals_held(elements, removed_views(c.removed@)),
        Edit::SetTransforms(c) => transforms_held(elements, c.transforms@),
        Edit::DuplicateScreenshot(c) => !id_among(elements, c.duplicate.id),
        Edit::SetTransform(c) => has_id(elements, c.element_id) ==> elements[first_with(
            elements,
            c.element_id,
        )].transform == c.old,
        Edit::ReplaceScreenshotSource(c) => has_id(elements, c.element_id) ==> {
            let e = elements[first_with(elements, c.element_id)];
            &&& e.source == c.old_source@
            &&& e.natural_width == c.old_natural_width
            &&& e.natural_height == c.old_natural_height
        },
        Edit::SetSpacing(c) => doc.layout.spacing_px == c.old,
        Edit::SetMargin(c) => doc.layout.margin_px == c.old,
        Edit::SetLayoutMode(c) => doc.layout.mode == c.old,
        Edit::EnterFreeLayout(c) => doc.layout.mode == c.old_mode && transforms_held(elements, c.transforms@),
        Edit::SetBackground(c) => doc.background == c.old@,
        Edit::SetShadowForAllElements(c) => c.old@ == elements.map_values(|e: ScreenshotElementView| e.shadow),
        Edit::SetCornerRadiusForAllElements(c) => c.old@ == elements.map_values(
            |e: ScreenshotElementView| e.corner_radius,
        ),
        Edit::SetTitle(c) => doc.title == c.old@,
        Edit::SetScreenshotLabel(c) => has_id(elements, c.element_id) ==> elements[first_with(
            elements,
            c.element_id,
        )].label == c.old@,
        Edit::ApplyTemplate(c) => {
            &&& doc.layout == c.old_layout
            &&& doc.background == c.old_background@
            &&& c.old_shadows@ == elements.map_values(|e: ScreenshotElementView| e.shadow)
            &&& c.old_corner_radii@ == elements.map_values(|e: ScreenshotElementView| e.corner_radius)
        },
    }
}

// ---------------------------------------------------------------------------
// Single commands
// ---------------------------------------------------------------------------

proof fn lemma_without_appended(a: Seq<ScreenshotElementView>, b: Seq<ScreenshotElementView>, others: Seq<ScreenshotElementView>)
    requires
        forall|i: int| 0 <= i < a.len() ==> !id_among(others, (#[trigger] a[i]).id),
        forall|i: int| 0 <= i < b.len() ==> id_among(others, (#[trigger] b[i]).id),
    ensures
        without(a + b, others) == a,
    decreases a.len() + b.len(),
{
    let s = a + b;
    if b.len() > 0 {
        assert(s.last() == b[b.len() - 1]);
        assert(s.drop_last() =~= a + b.drop_last());
        assert forall|i: int| 0 <= i < b.drop_last().len() implies id_among(others, (#[trigger] b.drop_last()[i]).id) by {
            assert(b.drop_last()[i] == b[i]);
        }
        lemma_without_appended(a, b.drop_last(), others);
    } else if a.len() > 0 {
        assert(s =~= a);
        assert(a.last() == a[a.len() - 1]);
        assert(a.drop_last() + b =~= a.drop_last());
        assert forall|i: int| 0 <= i < a.drop_last().len() implies !id_among(others, (#[trigger] a.drop_last()[i]).id) by {
            assert(a.drop_last()[i] == a[i]);
        }
        lemma_without_appended(a.drop_last(), b, others);
        assert(a.drop_last().push(a.last()) =~= a);
    } else {
        assert(s =~= Seq::empty());
    }
}

/// Taking back an import removes every screenshot with an imported id, and no
/// other, wherever it stands by then.
pub proof fn law_taking_back_an_import_goes_by_id(
    elements: Seq<ScreenshotElementView>,
    imported: Seq<ScreenshotElementView>,
)
    ensures
        forall|i: int|
            0 <= i < without(elements, imported).len() ==> !id_among(
                imported,
                (#[trigger] without(elements, imported)[i]).id,
            ),
        forall|i: int|
            0 <= i < elements.len() && !id_among(imported, (#[trigger] elements[i]).id) ==> without(
                elements,
                imported,
            ).contains(elements[i]),
        forall|i: int|
            0 <= i < without(elements, imported).len() ==> elements.contains(
                #[trigger] without(elements, imported)[i],
            ),
    decreases elements.len(),
{
    if elements.len() > 0 {
        let init = elements.drop_last();
        let rest = without(init, imported);
        let all = without(elements, imported);
        law_taking_back_an_import_goes_by_id(init, imported);
        assert forall|i: int| 0 <= i < elements.len() && !id_among(imported, (#[trigger] elements[i]).id) implies all.contains(
            elements[i],
        ) by {
            if i < init.len() {
                assert(init[i] == elements[i]);
                let k = choose|k: int| 0 <= k < rest.len() && rest[k] == elements[i];
                assert(all[k] == elements[i]);
            } else {
                assert(all[all.len() - 1] == elements[i]);
            }
        }
        assert forall|i: int| 0 <= i < all.len() implies elements.contains(#[trigger] all[i]) by {
            if i < rest.len() {
                assert(all[i] == rest[i]);
                let k = choose|k: int| 0 <= k < init.len() && init[k] == rest[i];
                assert(elements[k] == all[i]);
            } else {
                assert(elements[elements.len() - 1] == all[i]);
            }
        }
    }
}

proof fn lemma_shifted_back(elements: Seq<ScreenshotElementView>, from: nat, to: nat)
    requires
        from < elements.len(),
        to < elements.len(),
    ensures
        shifted(shifted(elements, from, to), to, from) == elements,
{
    let rest = elements.remove(from as int);
    let mid = rest.insert(to as int, elements[from as int]);
    assert(mid.remove(to as int) =~= rest);
    assert(rest.insert(from as int, elements[from as int]) =~= elements);
}

proof fn lemma_moved_one(elements: Seq<ScreenshotElementView>, id: u128, t: Transform)
    ensures
        moved_one(elements, id, t).len() == elements.len(),
        forall|i: int| 0 <= i < elements.len() ==> (#[trigger] moved_one(elements, id, t)[i]).id == elements[i].id,
        has_id(elements, id) ==> 0 <= first_with(elements, id) < elements.len() && elements[first_with(elements, id)].id == id,
{
    if has_id(elements, id) {
        assert(is_first(elements, id, first_with(elements, id)));
    }
}

/// Screenshots with the same ids in the same places have the same firsts.
proof fn lemma_same_ids(a: Seq<ScreenshotElementView>, b: Seq<ScreenshotElementView>, id: u128)
    requires
        a.len() == b.len(),
        forall|i: int|
            #![trigger a[i]]
            #![trigger b[i]]
            0 <= i < a.len() ==> a[i].id == b[i].id,
    ensures
        has_id(a, id) == has_id(b, id),
        has_id(a, id) ==> first_with(a, id) == first_with(b, id),
{
    if has_id(a, id) {
        let i = first_with(a, id);
        assert(is_first(a, id, i));
        assert(is_first(b, id, i));
        lemma_first(b, id, i);
    }
    if has_id(b, id) {
        let i = first_with(b, id);
        assert(is_first(b, id, i));
        assert(is_first(a, id, i));
    }
}

proof fn lemma_first(elements: Seq<ScreenshotElementView>, id: u128, i: int)
    requires
        is_first(elements, id, i),
    ensures
        has_id(elements, id),
        first_with(elements, id) == i,
{
    let k = first_with(elements, id);
    assert(is_first(elements, id, k));
    if k < i {
        assert(elements[k].id != id);
    } else if i < k {
        assert(elements[i].id != id);
    }
}

/// What setting a list of transforms does, place by place.
proof fn lemma_moved_all(elements: Seq<ScreenshotElementView>, ts: Seq<(u128, Transform, Transform)>, forward: bool)
    requires
        forall|j: int, k: int| 0 <= j < k < ts.len() ==> (#[trigger] ts[j]).0 != (#[trigger] ts[k]).0,
    ensures
        ({
            let after = moved_all(elements, ts, forward);
            &&& after.len() == elements.len()
            &&& forall|i: int| 0 <= i < elements.len() ==> (#[trigger] after[i]).id == elements[i].id
            &&& forall|k: int|
                0 <= k < ts.len() && has_id(elements, (#[trigger] ts[k]).0) ==> after[first_with(elements, ts[k].0)]
                    == with_transform(
                    elements[first_with(elements, ts[k].0)],
                    if forward {
                        ts[k].2
                    } else {
                        ts[k].1
                    },
                )
            &&& forall|i: int|
                0 <= i < elements.len() && (forall|k: int|
                    0 <= k < ts.len() && has_id(elements, (#[trigger] ts[k]).0) ==> first_with(elements, ts[k].0) != i)
                    ==> #[trigger] after[i] == elements[i]
        }),
    decreases ts.len(),
{
    if ts.len() > 0 {
        let init = ts.drop_last();
        assert forall|j: int, k: int| 0 <= j < k < init.len() implies (#[trigger] init[j]).0 != (#[trigger] init[k]).0 by {
            assert(init[j] == ts[j] && init[k] == ts[k]);
        }
        lemma_moved_all(elements, init, forward);
        let mid = moved_all(elements, init, forward);
        let (id, t_old, t_new) = ts.last();
        let t = if forward {
            t_new
        } else {
            t_old
        };
        let after = moved_all(elements, ts, forward);
        assert(after == moved_one(mid, id, t));
        lemma_moved_one(mid, id, t);
        lemma_same_ids(elements, mid, id);
        let last = ts.len() - 1;
        assert forall|k: int| 0 <= k < ts.len() && has_id(elements, (#[trigger] ts[k]).0) implies after[first_with(
            elements,
            ts[k].0,
        )] == with_transform(
            elements[first_with(elements, ts[k].0)],
            if forward {
                ts[k].2
            } else {
                ts[k].1
            },
        ) by {
            let p = first_with(elements, ts[k].0);
            assert(is_first(elements, ts[k].0, p));
            if k < last {
                assert(init[k] == ts[k]);
                if has_id(elements, id) {
                    assert(is_first(elements, id, first_with(elements, id)));
                    assert(ts[k].0 != ts[last].0);
                    assert(first_with(elements, id) != p);
                }
            } else {
                // Nothing before the last entry touches this place.
                assert forall|j: int| 0 <= j < init.len() && has_id(elements, (#[trigger] init[j]).0) implies first_with(
                    elements,
                    init[j].0,
                ) != p by {
                    assert(init[j] == ts[j]);
                    assert(ts[j].0 != ts[last].0);
                    assert(is_first(elements, ts[j].0, first_with(elements, ts[j].0)));
                }
                assert(mid[p] == elements[p]);
            }
        }
        assert forall|i: int|
            0 <= i < elements.len() && (forall|k: int|
                0 <= k < ts.len() && has_id(elements, (#[trigger] ts[k]).0) ==> first_with(elements, ts[k].0) != i) implies #[trigger] after[i]
            == elements[i] by {
            assert forall|k: int| 0 <= k < init.len() && has_id(elements, (#[trigger] init[k]).0) implies first_with(
                elements,
                init[k].0,
            ) != i by {
                assert(init[k] == ts[k]);
            }
            assert(mid[i] == elements[i]);
            assert(ts[last] == ts.last());
        }
    }
}

proof fn lemma_moved_all_back(elements: Seq<ScreenshotElementView>, ts: Seq<(u128, Transform, Transform)>)
    requires
        transforms_held(elements, ts),
    ensures
        moved_all(moved_all(elements, ts, true), ts, false) == elements,
{
    let there = moved_all(elements, ts, true);
    let back = moved_all(there, ts, false);
    lemma_moved_all(elements, ts, true);
    lemma_moved_all(there, ts, false);
    assert forall|k: int| 0 <= k < ts.len() implies has_id(there, (#[trigger] ts[k]).0) == has_id(elements, ts[k].0)
        && (has_id(elements, ts[k].0) ==> first_with(there, ts[k].0) == first_with(elements, ts[k].0)) by {
        lemma_same_ids(elements, there, ts[k].0);
    }
    assert forall|i: int| 0 <= i < elements.len() implies #[trigger] back[i] == elements[i] by {
        if exists|k: int| 0 <= k < ts.len() && has_id(elements, (#[trigger] ts[k]).0) && first_with(elements, ts[k].0) == i {
            let k = choose|k: int|
                0 <= k < ts.len() && has_id(elements, (#[trigger] ts[k]).0) && first_with(elements, ts[k].0) == i;
            assert(has_id(there, ts[k].0));
            assert(there[i] == with_transform(elements[i], ts[k].2));
            assert(back[i] == with_transform(there[i], ts[k].1));
        } else {
            assert(there[i] == elements[i]);
            assert forall|k: int| 0 <= k < ts.len() && has_id(there, (#[trigger] ts[k]).0) implies first_with(
                there,
                ts[k].0,
            ) != i by {
                assert(has_id(elements, ts[k].0));
            }
            assert(back[i] == there[i]);
        }
    }
    assert(back =~= elements);
}

/// Entries in ascending order of their positions, each with the screenshot
/// that stands there.
spec fn ascending(elements: Seq<ScreenshotElementView>, list: Seq<RemovedView>) -> bool {
    &&& forall|j: int, k: int|
        0 <= j < k < list.len() ==> (#[trigger] list[j]).index < (#[trigger] list[k]).index
    &&& forall|k: int|
        0 <= k < list.len() ==> (#[trigger] list[k]).index < elements.len() && list[k].element
            == elements[list[k].index as int]
}

proof fn lemma_removed_and_back(elements: Seq<ScreenshotElementView>, list: Seq<RemovedView>)
    requires
        ascending(elements, list),
    ensures
        inserted_in_order(removed_from_back(elements, list), list) == elements,
    decreases list.len(),
{
    if list.len() > 0 {
        let last = list.last();
        assert(last == list[list.len() - 1]);
        let init = list.drop_last();
        let shorter = removed_at(elements, last.index as nat);
        assert forall|k: int| 0 <= k < init.len() implies (#[trigger] init[k]).index < shorter.len()
            && init[k].element == shorter[init[k].index as int] by {
            assert(init[k] == list[k]);
            assert(list[k].index < list[list.len() - 1].index);
        }
        assert forall|j: int, k: int| 0 <= j < k < init.len() implies (#[trigger] init[j]).index < (#[trigger] init[k]).index by {
            assert(init[j] == list[j] && init[k] == list[k]);
        }
        lemma_removed_and_back(shorter, init);
        assert(inserted_at(shorter, last.index as nat, last.element) =~= elements);
    }
}

proof fn lemma_placed_ascending(elements: Seq<ScreenshotElementView>, sorted: Seq<RemovedView>, r: RemovedView)
    requires
        ascending(elements, sorted),
        r.index < elements.len(),
        r.element == elements[r.index as int],
        forall|k: int| 0 <= k < sorted.len() ==> (#[trigger] sorted[k]).index != r.index,
    ensures
        ascending(elements, placed(sorted, r)),
        placed(sorted, r).len() == sorted.len() + 1,
        forall|k: int|
            0 <= k < placed(sorted, r).len() ==> (#[trigger] placed(sorted, r)[k]) == r || sorted.contains(
                placed(sorted, r)[k],
            ),
    decreases sorted.len(),
{
    let after = placed(sorted, r);
    if sorted.len() == 0 || sorted.last().index <= r.index {
        assert(after == sorted.push(r));
        assert forall|j: int, k: int| 0 <= j < k < after.len() implies (#[trigger] after[j]).index < (#[trigger] after[k]).index by {
            if k == sorted.len() {
                assert(sorted[sorted.len() - 1] == sorted.last());
                if j < sorted.len() - 1 {
                    assert(sorted[j].index < sorted[sorted.len() - 1].index);
                }
            }
        }
    } else {
        let init = sorted.drop_last();
        let last = sorted[sorted.len() - 1];
        assert forall|j: int, k: int| 0 <= j < k < init.len() implies (#[trigger] init[j]).index < (#[trigger] init[k]).index by {
            assert(init[j] == sorted[j] && init[k] == sorted[k]);
        }
        assert forall|k: int| 0 <= k < init.len() implies (#[trigger] init[k]).index < elements.len() && init[k].element
            == elements[init[k].index as int] && init[k].index != r.index by {
            assert(init[k] == sorted[k]);
        }
        lemma_placed_ascending(elements, init, r);
        let mid = placed(init, r);
        assert(after == mid.push(last));
        assert forall|k: int| 0 <= k < mid.len() implies (#[trigger] mid[k]).index < last.index && (mid[k] == r
            || sorted.contains(mid[k])) by {
            if mid[k] != r {
                let i = choose|i: int| 0 <= i < init.len() && init[i] == mid[k];
                assert(sorted[i] == mid[k]);
                assert(sorted[i].index < sorted[sorted.len() - 1].index);
            }
        }
        assert forall|k: int| 0 <= k < after.len() implies (#[trigger] after[k]) == r || sorted.contains(after[k]) by {
            if k < mid.len() {
                assert(after[k] == mid[k]);
            }
        }
    }
}

proof fn lemma_by_index_ascending(elements: Seq<ScreenshotElementView>, list: Seq<RemovedView>)
    requires
        removals_held(elements, list),
    ensures
        ascending(elements, by_index(list)),
        by_index(list).len() == list.len(),
        forall|k: int| 0 <= k < list.len() ==> list.contains(#[trigger] by_index(list)[k]),
    decreases list.len(),
{
    if list.len() > 0 {
        let init = list.drop_last();
        let last = list[list.len() - 1];
        assert forall|j: int, k: int| 0 <= j < k < init.len() implies (#[trigger] init[j]).index != (#[trigger] init[k]).index by {
            assert(init[j] == list[j] && init[k] == list[k]);
        }
        assert forall|k: int| 0 <= k < init.len() implies (#[trigger] init[k]).index < elements.len() && init[k].element
            == elements[init[k].index as int] by {
            assert(init[k] == list[k]);
        }
        lemma_by_index_ascending(elements, init);
        let sorted = by_index(init);
        assert forall|k: int| 0 <= k < sorted.len() implies (#[trigger] sorted[k]).index != last.index && list.contains(sorted[k]) by {
            let i = choose|i: int| 0 <= i < init.len() && init[i] == sorted[k];
            assert(list[i] == sorted[k]);
            assert(list[i].index != list[list.len() - 1].index);
        }
        lemma_placed_ascending(elements, sorted, last);
        let after = placed(sorted, last);
        assert forall|k: int| 0 <= k < list.len() implies list.contains(#[trigger] after[k]) by {
            if after[k] != last {
                let i = choose|i: int| 0 <= i < sorted.len() && sorted[i] == after[k];
                assert(list.contains(sorted[i]));
            }
        }
    }
}

proof fn lemma_replaced_back(elements: Seq<ScreenshotElementView>, id: u128, new: ScreenshotElementView)
    requires
        has_id(elements, id) ==> new.id == id,
    ensures
        has_id(replaced(elements, id, new), id) == has_id(elements, id),
        has_id(elements, id) ==> {
            let p = first_with(elements, id);
            &&& 0 <= p < elements.len()
            &&& first_with(replaced(elements, id, new), id) == p
            &&& replaced(elements, id, new)[p] == new
            &&& replaced(replaced(elements, id, new), id, elements[p]) == elements
        },
{
    if has_id(elements, id) {
        let p = first_with(elements, id);
        assert(is_first(elements, id, p));
        let after = replaced(elements, id, new);
        assert(is_first(after, id, p));
        lemma_first(after, id, p);
        assert(after.update(p, elements[p]) =~= elements);
    }
}

proof fn lemma_first_id(elements: Seq<ScreenshotElementView>, id: u128)
    ensures
        has_id(elements, id) ==> 0 <= first_with(elements, id) < elements.len() && elements[first_with(
            elements,
            id,
        )].id == id,
{
    if has_id(elements, id) {
        assert(is_first(elements, id, first_with(elements, id)));
    }
}

proof fn lemma_duplicate_back(elements: Seq<ScreenshotElementView>, at: nat, e: ScreenshotElementView)
    requires
        !id_among(elements, e.id),
    ensures
        has_id(inserted_at(elements, at, e), e.id),
        inserted_at(elements, at, e).remove(first_with(inserted_at(elements, at, e), e.id)) == elements,
{
    let after = inserted_at(elements, at, e);
    let p: int = if at < elements.len() {
        at as int
    } else {
        elements.len() as int
    };
    assert(after[p] == e);
    assert forall|j: int| 0 <= j < p implies (#[trigger] after[j]).id != e.id by {
        assert(after[j] == elements[j]);
    }
    assert(is_first(after, e.id, p));
    lemma_first(after, e.id, p);
    assert(after.remove(p) =~= elements);
}

/// A command that holds the state it replaces takes itself back: carried out
/// and taken back, it leaves the document as it was.
pub proof fn law_command_takes_itself_back(cmd: Edit, doc: DocumentView)
    requires
        holds_state(cmd, doc),
    ensures
        cmd.undone(cmd.applied(doc)) == doc,
{
    let elements = doc.elements;
    let after = cmd.applied(doc);
    let back = cmd.undone(after);
    match cmd {
        Edit::AddScreenshots(c) => {
            let extra = views(c.elements@);
            assert forall|i: int| 0 <= i < extra.len() implies id_among(extra, (#[trigger] extra[i]).id) by {}
            lemma_without_appended(elements, extra, extra);
        },
        Edit::ReorderScreenshot(c) => {
            lemma_shifted_back(elements, c.from as nat, c.to as nat);
        },
        Edit::RemoveScreenshot(c) => {
            assert(inserted_at(removed_at(elements, c.index as nat), c.index as nat, c.element@) =~= elements);
        },
        Edit::RemoveScreenshots(c) => {
            let list = removed_views(c.removed@);
            lemma_by_index_ascending(elements, list);
            lemma_removed_and_back(elements, by_index(list));
        },
        Edit::SetTransforms(c) => {
            lemma_moved_all_back(elements, c.transforms@);
        },
        Edit::DuplicateScreenshot(c) => {
            lemma_duplicate_back(elements, (c.source_index + 1) as nat, c.duplicate@);
        },
        Edit::SetTransform(c) => {
            let p = first_with(elements, c.element_id);
            lemma_first_id(elements, c.element_id);
            lemma_replaced_back(elements, c.element_id, with_transform(elements[p], c.new));
            if has_id(elements, c.element_id) {
                assert(with_transform(with_transform(elements[p], c.new), c.old) == elements[p]);
            }
        },
        Edit::ReplaceScreenshotSource(c) => {
            let p = first_with(elements, c.element_id);
            lemma_first_id(elements, c.element_id);
            let changed = ScreenshotElementView {
                source: c.new_source@,
                natural_width: c.new_natural_width,
                natural_height: c.new_natural_height,
                ..elements[p]
            };
            lemma_replaced_back(elements, c.element_id, changed);
        },
        Edit::SetScreenshotLabel(c) => {
            let p = first_with(elements, c.element_id);
            lemma_first_id(elements, c.element_id);
            lemma_replaced_back(elements, c.element_id, ScreenshotElementView { label: c.new@, ..elements[p] });
        },
        Edit::EnterFreeLayout(c) => {
            lemma_moved_all_back(elements, c.transforms@);
        },
        Edit::SetShadowForAllElements(c) => {
            assert(back.elements =~= elements);
        },
        Edit::SetCornerRadiusForAllElements(c) => {
            assert(back.elements =~= elements);
        },
        Edit::ApplyTemplate(c) => {
            assert(back.elements =~= elements);
        },
        _ => {},
    }
    assert(back.elements == elements);
}

// ---------------------------------------------------------------------------
// Which screenshots a removal leaves
// ---------------------------------------------------------------------------

/// The screenshots at the positions that are not listed, in order.
pub open spec fn at_other_positions(elements: Seq<ScreenshotElementView>, listed: Set<int>) -> Seq<ScreenshotElementView>
    decreases elements.len(),
{
    if elements.len() == 0 {
        Seq::empty()
    } else if listed.contains(elements.len() - 1) {
        at_other_positions(elements.drop_last(), listed)
    } else {
        at_other_positions(elements.drop_last(), listed).push(elements.last())
    }
}

/// The positions in a list of removed screenshots.
pub open spec fn listed_positions(list: Seq<RemovedView>) -> Set<int> {
    Set::new(|i: int| exists|k: int| 0 <= k < list.len() && (#[trigger] list[k]).index == i)
}

proof fn lemma_other_positions_local(elements: Seq<ScreenshotElementView>, s: Set<int>, t: Set<int>)
    requires
        forall|i: int| 0 <= i < elements.len() ==> (s.contains(i) <==> t.contains(i)),
    ensures
        at_other_positions(elements, s) == at_other_positions(elements, t),
    decreases elements.len(),
{
    if elements.len() > 0 {
        lemma_other_positions_local(elements.drop_last(), s, t);
        assert(s.contains(elements.len() - 1) <==> t.contains(elements.len() - 1));
    }
}

proof fn lemma_removal_keeps_last(elements: Seq<ScreenshotElementView>, list: Seq<RemovedView>)
    requires
        elements.len() > 0,
        ascending(elements, list),
        forall|k: int| 0 <= k < list.len() ==> (#[trigger] list[k]).index < elements.len() - 1,
    ensures
        removed_from_back(elements, list) == removed_from_back(elements.drop_last(), list).push(elements.last()),
    decreases list.len(),
{
    if list.len() > 0 {
        let init = list.drop_last();
        let p = list[list.len() - 1].index;
        let shorter = elements.remove(p as int);
        assert(shorter.drop_last() =~= elements.drop_last().remove(p as int));
        assert(shorter.last() == elements.last());
        assert forall|k: int| 0 <= k < init.len() implies (#[trigger] init[k]).index < shorter.len() - 1
            && init[k].element == shorter[init[k].index as int] by {
            assert(init[k] == list[k]);
            assert(list[k].index < list[list.len() - 1].index);
        }
        assert forall|j: int, k: int| 0 <= j < k < init.len() implies (#[trigger] init[j]).index < (#[trigger] init[k]).index by {
            assert(init[j] == list[j] && init[k] == list[k]);
        }
        lemma_removal_keeps_last(shorter, init);
    }
}

proof fn lemma_removal_by_position(elements: Seq<ScreenshotElementView>, list: Seq<RemovedView>)
    requires
        ascending(elements, list),
    ensures
        removed_from_back(elements, list) == at_other_positions(elements, listed_positions(list)),
    decreases elements.len(),
{
    let n = elements.len();
    if n == 0 {
        if list.len() > 0 {
            assert(list[0].index < elements.len());
        }
    } else if list.len() > 0 && list[list.len() - 1].index == n - 1 {
        let init = list.drop_last();
        let shorter = elements.drop_last();
        assert(elements.remove(n - 1) =~= shorter);
        assert forall|k: int| 0 <= k < init.len() implies (#[trigger] init[k]).index < shorter.len()
            && init[k].element == shorter[init[k].index as int] by {
            assert(init[k] == list[k]);
            assert(list[k].index < list[list.len() - 1].index);
        }
        assert forall|j: int, k: int| 0 <= j < k < init.len() implies (#[trigger] init[j]).index < (#[trigger] init[k]).index by {
            assert(init[j] == list[j] && init[k] == list[k]);
        }
        lemma_removal_by_position(shorter, init);
        assert forall|i: int| 0 <= i < shorter.len() implies (listed_positions(init).contains(i)
            <==> listed_positions(list).contains(i)) by {
            if listed_positions(list).contains(i) {
                let k = choose|k: int| 0 <= k < list.len() && (#[trigger] list[k]).index == i;
                assert(init[k] == list[k]);
            }
            if listed_positions(init).contains(i) {
                let k = choose|k: int| 0 <= k < init.len() && (#[trigger] init[k]).index == i;
                assert(list[k].index == i);
            }
        }
        lemma_other_positions_local(shorter, listed_positions(init), listed_positions(list));
        assert(list[list.len() - 1].index == n - 1);
        assert(listed_positions(list).contains(n - 1));
    } else {
        assert forall|k: int| 0 <= k < list.len() implies (#[trigger] list[k]).index < n - 1 by {
            if k < list.len() - 1 {
                assert(list[k].index < list[list.len() - 1].index);
            }
            assert(list[list.len() - 1].index < n);
        }
        lemma_removal_keeps_last(elements, list);
        let shorter = elements.drop_last();
        assert forall|k: int| 0 <= k < list.len() implies (#[trigger] list[k]).index < shorter.len()
            && list[k].element == shorter[list[k].index as int] by {}
        lemma_removal_by_position(shorter, list);
        assert(!listed_positions(list).contains(n - 1));
    }
}

/// Removing several screenshots in one step, listed in any order, leaves
/// exactly those at the other positions, in their order.
pub proof fn law_removal_leaves_the_others(elements: Seq<ScreenshotElementView>, list: Seq<RemovedView>)
    requires
        removals_held(elements, list),
    ensures
        removed_from_back(elements, by_index(list)) == at_other_positions(elements, listed_positions(list)),
{
    lemma_by_index_ascending(elements, list);
    lemma_removal_by_position(elements, by_index(list));
    lemma_by_index_covers(list);
    let sorted = by_index(list);
    assert forall|i: int| 0 <= i < elements.len() implies (listed_positions(sorted).contains(i)
        <==> listed_positions(list).contains(i)) by {
        if listed_positions(sorted).contains(i) {
            let k = choose|k: int| 0 <= k < sorted.len() && (#[trigger] sorted[k]).index == i;
            assert(list.contains(sorted[k]));
            let j = choose|j: int| 0 <= j < list.len() && list[j] == sorted[k];
            assert(list[j].index == i);
        }
        if listed_positions(list).contains(i) {
            let k = choose|k: int| 0 <= k < list.len() && (#[trigger] list[k]).index == i;
            assert(sorted.contains(list[k]));
            let j = choose|j: int| 0 <= j < sorted.len() && sorted[j] == list[k];
            assert(sorted[j].index == i);
        }
    }
    lemma_other_positions_local(elements, listed_positions(sorted), listed_positions(list));
}

proof fn lemma_placed_covers(sorted: Seq<RemovedView>, r: RemovedView)
    ensures
        placed(sorted, r).contains(r),
        forall|k: int| 0 <= k < sorted.len() ==> placed(sorted, r).contains(#[trigger] sorted[k]),
    decreases sorted.len(),
{
    let after = placed(sorted, r);
    if sorted.len() == 0 || sorted.last().index <= r.index {
        assert(after[sorted.len() as int] == r);
        assert forall|k: int| 0 <= k < sorted.len() implies after.contains(#[trigger] sorted[k]) by {
            assert(after[k] == sorted[k]);
        }
    } else {
        let init = sorted.drop_last();
        lemma_placed_covers(init, r);
        let mid = placed(init, r);
        let i = choose|i: int| 0 <= i < mid.len() && mid[i] == r;
        assert(after[i] == r);
        assert forall|k: int| 0 <= k < sorted.len() implies after.contains(#[trigger] sorted[k]) by {
            if k < init.len() {
                assert(mid.contains(init[k]));
                let j = choose|j: int| 0 <= j < mid.len() && mid[j] == init[k];
                assert(after[j] == sorted[k]);
            } else {
                assert(after[mid.len() as int] == sorted[k]);
            }
        }
    }
}

proof fn lemma_by_index_covers(list: Seq<RemovedView>)
    ensures
        forall|k: int| 0 <= k < list.len() ==> by_index(list).contains(#[trigger] list[k]),
    decreases list.len(),
{
    if list.len() > 0 {
        let init = list.drop_last();
        lemma_by_index_covers(init);
        lemma_placed_covers(by_index(init), list.last());
        assert forall|k: int| 0 <= k < list.len() implies by_index(list).contains(#[trigger] list[k]) by {
            if k < init.len() {
                assert(by_index(init).contains(init[k]));
                let j = choose|j: int| 0 <= j < by_index(init).len() && by_index(init)[j] == init[k];
                assert(by_index(list).contains(by_index(init)[j]));
            }
        }
    }
}

// ---------------------------------------------------------------------------
// History
// ---------------------------------------------------------------------------

/// The document with another canvas.
pub open spec fn with_canvas(doc: DocumentView, canvas: CanvasSettings) -> DocumentView {
    DocumentView { canvas, ..doc }
}

/// No command reads or changes the canvas.
pub proof fn law_commands_leave_the_canvas_alone(cmd: Edit, doc: DocumentView, canvas: CanvasSettings)
    ensures
        cmd.applied(with_canvas(doc, canvas)) == with_canvas(cmd.applied(doc), canvas),
        cmd.undone(with_canvas(doc, canvas)) == with_canvas(cmd.undone(doc), canvas),
{
    match cmd {
        Edit::AddScreenshots(c) => {},
        Edit::ReorderScreenshot(c) => {},
        Edit::RemoveScreenshot(c) => {},
        Edit::RemoveScreenshots(c) => {},
        Edit::SetTransforms(c) => {},
        Edit::DuplicateScreenshot(c) => {},
        Edit::SetTransform(c) => {},
        Edit::ReplaceScreenshotSource(c) => {},
        Edit::SetSpacing(c) => {},
        Edit::SetMargin(c) => {},
        Edit::SetLayoutMode(c) => {},
        Edit::EnterFreeLayout(c) => {},
        Edit::SetBackground(c) => {},
        Edit::SetShadowForAllElements(c) => {},
        Edit::SetCornerRadiusForAllElements(c) => {},
        Edit::SetTitle(c) => {},
        Edit::SetScreenshotLabel(c) => {},
        Edit::ApplyTemplate(c) => {},
    }
}

/// Whether two canvases differ in their fitted size alone.
pub open spec fn same_export(a: CanvasSettings, b: CanvasSettings) -> bool {
    &&& a.export_target_width == b.export_target_width
    &&& a.export_format == b.export_format
    &&& a.export_quality == b.export_quality
}

proof fn lemma_fitted(doc: DocumentView, canvas: CanvasSettings)
    requires
        same_export(doc.canvas, canvas),
    ensures
        fitted(doc) == with_canvas(doc, fitted(doc).canvas),
        same_export(fitted(doc).canvas, doc.canvas),
        visible_of(doc.elements).len() > 0 ==> fitted(with_canvas(doc, canvas)) == fitted(doc),
        visible_of(doc.elements).len() == 0 ==> fitted(with_canvas(doc, canvas)) == with_canvas(doc, canvas),
{
}

/// Undo after a command restores the document; only the fitted canvas size can
/// differ, and it does not if the document had a visible screenshot that its
/// canvas was fitted to.
pub proof fn law_undo_restores_the_document(cmd: Edit, doc: DocumentView)
    requires
        holds_state(cmd, doc),
    ensures
        ({
            let back = undone_to(cmd, done_to(cmd, doc));
            &&& back == with_canvas(doc, back.canvas)
            &&& same_export(back.canvas, doc.canvas)
            &&& visible_of(doc.elements).len() > 0 && fitted(doc) == doc ==> back == doc
        }),
{
    let there = cmd.applied(doc);
    law_command_takes_itself_back(cmd, doc);
    law_commands_leave_the_canvas_alone(cmd, doc, doc.canvas);
    assert(with_canvas(doc, doc.canvas) == doc);
    assert(there.canvas == doc.canvas);
    lemma_fitted(there, there.canvas);
    let c = fitted(there).canvas;
    law_commands_leave_the_canvas_alone(cmd, there, c);
    assert(cmd.undone(fitted(there)) == with_canvas(doc, c));
    lemma_fitted(doc, c);
    lemma_fitted(with_canvas(doc, c), c);
}

/// Redo after undo leads back to where the command had led, from a document
/// whose canvas was fitted.
pub proof fn law_redo_repeats_the_command(cmd: Edit, doc: DocumentView)
    requires
        holds_state(cmd, doc),
        fitted(doc) == doc,
    ensures
        done_to(cmd, undone_to(cmd, done_to(cmd, doc))) == done_to(cmd, doc),
{
    let there = cmd.applied(doc);
    let first = done_to(cmd, doc);
    let back = undone_to(cmd, first);
    law_undo_restores_the_document(cmd, doc);
    law_commands_leave_the_canvas_alone(cmd, doc, doc.canvas);
    assert(with_canvas(doc, doc.canvas) == doc);
    law_commands_leave_the_canvas_alone(cmd, doc, back.canvas);
    lemma_fitted(there, back.canvas);
    assert(cmd.applied(back) == with_canvas(there, back.canvas));
    if visible_of(there.elements).len() == 0 {
        lemma_fitted(doc, doc.canvas);
        law_command_takes_itself_back(cmd, doc);
        assert(first == there);
        assert(cmd.undone(there) == doc);
    }
}

} // verus!
