//! Shadow and corner radius, which all screenshots share, and templates.
use crate::command::{ApplyTemplate, Edit, SetCornerRadiusForAllElements, SetShadowForAllElements};
use crate::command_laws::holds_state;
use crate::controls::{preset_at, shadow_preset_for_index};
use crate::double::Double;
use crate::editor::{latest, recorded, EditorState, EditorView};
use crate::model::document::{views, ScreenshotElementView};
use crate::model::geometry::{cast, no_shadow, offset_along, uniform_radius};
use crate::model::{CornerRadius, ScreenshotElement, ShadowParams};
use crate::sameness::{radii_equal, same_radius, same_shadow, shadows_equal};
use crate::template::Template;
use vstd::prelude::*;

verus! {

/// A shadow with another distance, direction and blur.
pub open spec fn recast(shadow: ShadowParams, cosine: Double, sine: Double, distance: Double, blur: Double) -> ShadowParams {
    let (offset_x, offset_y) = offset_along(cosine, sine, distance);
    ShadowParams { offset_x, offset_y, blur, ..shadow }
}

/// Recasts a shadow.
pub(crate) fn recast_shadow(shadow: ShadowParams, cosine: Double, sine: Double, distance: Double, blur: Double) -> (res:
    ShadowParams)
    ensures
        res == recast(shadow, cosine, sine, distance, blur),
{
    let (offset_x, offset_y) = ShadowParams::offset_for_angle_and_distance(cosine, sine, distance);
    let mut new = shadow;
    new.offset_x = offset_x;
    new.offset_y = offset_y;
    new.blur = blur;
    new
}

/// The screenshots' shadows.
pub open spec fn shadows_of(elements: Seq<ScreenshotElementView>) -> Seq<ShadowParams> {
    elements.map_values(|e: ScreenshotElementView| e.shadow)
}

/// The screenshots' corner radii.
pub open spec fn radii_of(elements: Seq<ScreenshotElementView>) -> Seq<CornerRadius> {
    elements.map_values(|e: ScreenshotElementView| e.corner_radius)
}

/// Whether every screenshot has a shadow already.
pub open spec fn all_cast(elements: Seq<ScreenshotElementView>, shadow: ShadowParams) -> bool {
    forall|i: int| 0 <= i < elements.len() ==> same_shadow((#[trigger] elements[i]).shadow, shadow)
}

/// Whether every screenshot has a corner radius already.
pub open spec fn all_rounded(elements: Seq<ScreenshotElementView>, radius: CornerRadius) -> bool {
    forall|i: int| 0 <= i < elements.len() ==> same_radius((#[trigger] elements[i]).corner_radius, radius)
}

/// Whether a shadow was recorded as that of every screenshot.
pub open spec fn shadow_set(before: EditorView, after: EditorView, new: ShadowParams) -> bool {
    &&& recorded(before, after)
    &&& latest(after) matches Edit::SetShadowForAllElements(c)
    &&& c.old@ == shadows_of(before.document.elements)
    &&& c.new == new
    &&& holds_state(latest(after), before.document)
}

fn collect_shadows(elements: &Vec<ScreenshotElement>) -> (res: Vec<ShadowParams>)
    ensures
        res@ == shadows_of(views(elements@)),
{
    let ghost goal = shadows_of(views(elements@));
    let mut res: Vec<ShadowParams> = Vec::new();
    let mut i: usize = 0;
    while i < elements.len()
        invariant
            i <= elements.len(),
            goal == shadows_of(views(elements@)),
            res@ == goal.take(i as int),
        decreases elements.len() - i,
    {
        res.push(elements[i].shadow);
        proof {
            assert(goal.take(i + 1) =~= goal.take(i as int).push(goal[i as int]));
        }
        i = i + 1;
    }
    proof {
        assert(goal.take(i as int) =~= goal);
    }
    res
}

fn collect_radii(elements: &Vec<ScreenshotElement>) -> (res: Vec<CornerRadius>)
    ensures
        res@ == radii_of(views(elements@)),
{
    let ghost goal = radii_of(views(elements@));
    let mut res: Vec<CornerRadius> = Vec::new();
    let mut i: usize = 0;
    while i < elements.len()
        invariant
            i <= elements.len(),
            goal == radii_of(views(elements@)),
            res@ == goal.take(i as int),
        decreases elements.len() - i,
    {
        res.push(elements[i].corner_radius);
        proof {
            assert(goal.take(i + 1) =~= goal.take(i as int).push(goal[i as int]));
        }
        i = i + 1;
    }
    proof {
        assert(goal.take(i as int) =~= goal);
    }
    res
}

fn have_shadow(elements: &Vec<ScreenshotElement>, shadow: ShadowParams) -> (res: bool)
    ensures
        res == all_cast(views(elements@), shadow),
{
    let mut i: usize = 0;
    while i < elements.len()
        invariant
            i <= elements.len(),
            forall|k: int| 0 <= k < i ==> same_shadow((#[trigger] views(elements@)[k]).shadow, shadow),
        decreases elements.len() - i,
    {
        if !shadows_equal(elements[i].shadow, shadow) {
            proof {
                assert(!same_shadow(views(elements@)[i as int].shadow, shadow));
            }
            return false;
        }
        i = i + 1;
    }
    true
}

fn have_radius(elements: &Vec<ScreenshotElement>, radius: CornerRadius) -> (res: bool)
    ensures
        res == all_rounded(views(elements@), radius),
{
    let mut i: usize = 0;
    while i < elements.len()
        invariant
            i <= elements.len(),
            forall|k: int| 0 <= k < i ==> same_radius((#[trigger] views(elements@)[k]).corner_radius, radius),
        decreases elements.len() - i,
    {
        if !radii_equal(elements[i].corner_radius, radius) {
            proof {
                assert(!same_radius(views(elements@)[i as int].corner_radius, radius));
            }
            return false;
        }
        i = i + 1;
    }
    true
}

impl EditorState {
    /// The shadow that the first screenshot has, if there is one.
    pub fn first_shadow(&self) -> (res: ShadowParams)
        ensures
            res == if self@.document.elements.len() > 0 {
                self@.document.elements[0].shadow
            } else {
                no_shadow()
            },
    {
        if self.document.elements.len() > 0 {
            self.document.elements[0].shadow
        } else {
            ShadowParams::none()
        }
    }

    /// Gives every screenshot the shadow of a preset, cast in the direction
    /// that the first one's has, whose cosine and sine are given.
    pub fn set_shadow_preset(&mut self, index: u32, cosine: Double, sine: Double) -> (res: bool)
        ensures
            ({
                let new = cast(preset_at(index), cosine, sine);
                &&& res == (!old(self)@.syncing_controls && !all_cast(old(self)@.document.elements, new))
                &&& !res ==> final(self)@ == old(self)@
                &&& res ==> shadow_set(old(self)@, final(self)@, new)
            }),
    {
        let new = self.first_shadow().with_preset(shadow_preset_for_index(index), cosine, sine);
        if self.syncing_controls || have_shadow(&self.document.elements, new) {
            return false;
        }
        let before = collect_shadows(&self.document.elements);
        self.record(Edit::SetShadowForAllElements(SetShadowForAllElements { old: before, new }));
        true
    }

    /// Gives every screenshot the first one's shadow, cast anew.
    pub fn apply_shadow_geometry(&mut self, cosine: Double, sine: Double, distance: Double, blur: Double) -> (res: bool)
        ensures
            ({
                let elements = old(self)@.document.elements;
                let new = recast(elements[0].shadow, cosine, sine, distance, blur);
                &&& res == (!old(self)@.syncing_controls && elements.len() > 0 && !all_cast(elements, new))
                &&& !res ==> final(self)@ == old(self)@
                &&& res ==> shadow_set(old(self)@, final(self)@, new)
            }),
    {
        if self.syncing_controls || self.document.elements.len() == 0 {
            return false;
        }
        let new = recast_shadow(self.document.elements[0].shadow, cosine, sine, distance, blur);
        if have_shadow(&self.document.elements, new) {
            return false;
        }
        let before = collect_shadows(&self.document.elements);
        self.record(Edit::SetShadowForAllElements(SetShadowForAllElements { old: before, new }));
        true
    }

    /// Gives every screenshot a corner radius.
    pub fn set_corner_radius(&mut self, value: Double) -> (res: bool)
        ensures
            res == (!old(self)@.syncing_controls && !all_rounded(
                old(self)@.document.elements,
                uniform_radius(value),
            )),
            !res ==> final(self)@ == old(self)@,
            res ==> {
                &&& recorded(old(self)@, final(self)@)
                &&& latest(final(self)@) matches Edit::SetCornerRadiusForAllElements(c)
                &&& c.old@ == radii_of(old(self)@.document.elements)
                &&& c.new == uniform_radius(value)
                &&& holds_state(latest(final(self)@), old(self)@.document)
            },
    {
        let new = CornerRadius::uniform(value);
        if self.syncing_controls || have_radius(&self.document.elements, new) {
            return false;
        }
        let before = collect_radii(&self.document.elements);
        self.record(Edit::SetCornerRadiusForAllElements(SetCornerRadiusForAllElements { old: before, new }));
        true
    }

    /// Applies a template in one step.
    pub fn apply_template(&mut self, new: Template)
        ensures
            recorded(old(self)@, final(self)@),
            ({
                &&& latest(final(self)@) matches Edit::ApplyTemplate(c)
                &&& c.old_layout == old(self)@.document.layout
                &&& c.old_background@ == old(self)@.document.background
                &&& c.old_shadows@ == shadows_of(old(self)@.document.elements)
                &&& c.old_corner_radii@ == radii_of(old(self)@.document.elements)
                &&& c.new@ == new@
            }),
            holds_state(latest(final(self)@), old(self)@.document),
    {
        let old_layout = self.document.layout;
        let old_background = self.document.background.clone();
        let old_shadows = collect_shadows(&self.document.elements);
        let old_corner_radii = collect_radii(&self.document.elements);
        self.record(
            Edit::ApplyTemplate(
                ApplyTemplate { old_layout, old_background, old_shadows, old_corner_radii, new },
            ),
        );
    }
}

} // verus!
