//! The background: plain, an image, or generated.
use crate::command::{Edit, SetBackground};
use crate::command_laws::holds_state;
use crate::controls::{
    background_from_controls, background_image_fit_for_index, centered, color_strategy_for_index,
    described_background, described_generated, drawn_before, from_percent, generated_from_controls, image_fit_at,
    kept_palette, manual_palette, radial_center, seed_from, seed_of, BackgroundControls, Drawn, GeneratorControls,
};
use crate::double::{diff, Double};
use crate::editor::{latest, recorded, EditorState, EditorView};
use crate::layout::visible_of;
use crate::model::background::{
    copied, BackgroundView, GeneratedBackgroundView, GradientSpecView, ImageBackgroundSpecView, ImageSourceView,
};
use crate::model::document::{views, ScreenshotElementView};
use crate::model::{Background, ColorStrategy, GradientSpec, ImageBackgroundSpec, ImageSource, Rgba};
use crate::order::{lt, magnitude};
use crate::palette::drawn;
use crate::rng::{output, stepped, Rng};
use crate::sameness::{
    colors_equal, generated_equal, gradients_equal, palettes_equal, same_color, same_colors, same_generated,
    same_gradient,
};
use crate::whole::{int_double, ratio};
use std::path::PathBuf;
use vstd::prelude::*;

verus! {

/// Whether a background was recorded as the new one.
pub open spec fn background_set(before: EditorView, after: EditorView, new: BackgroundView) -> bool {
    &&& recorded(before, after)
    &&& latest(after) matches Edit::SetBackground(c)
    &&& c.old@ == before.document.background
    &&& c.new@ == new
    &&& holds_state(latest(after), before.document)
}

/// Whether a background equals a color or a gradient.
pub open spec fn same_plain(a: BackgroundView, b: BackgroundView) -> bool {
    match (a, b) {
        (BackgroundView::Solid(x), BackgroundView::Solid(y)) => same_color(x, y),
        (BackgroundView::Gradient(x), BackgroundView::Gradient(y)) => same_gradient(x, y),
        _ => false,
    }
}

fn plain_equal(a: &Background, b: &Background) -> (res: bool)
    ensures
        res == same_plain(a@, b@),
{
    match (a, b) {
        (Background::Solid(x), Background::Solid(y)) => colors_equal(*x, *y),
        (Background::Gradient(x), Background::Gradient(y)) => gradients_equal(x, y),
        _ => false,
    }
}

/// The file of an image background.
pub fn background_image_path(background: &Background) -> (res: Option<PathBuf>)
    ensures
        res == match background@ {
            BackgroundView::Image(spec) => match spec.source {
                ImageSourceView::Path(path) => Some(path),
                ImageSourceView::Embedded { .. } => None,
            },
            _ => None,
        },
{
    match background {
        Background::Image(spec) => match &spec.source {
            ImageSource::Path(path) => Some(path.clone()),
            ImageSource::Embedded { .. } => None,
        },
        _ => None,
    }
}

/// The files of the screenshots that have one, in order.
pub open spec fn source_paths(elements: Seq<ScreenshotElementView>) -> Seq<PathBuf>
    decreases elements.len(),
{
    if elements.len() == 0 {
        Seq::empty()
    } else {
        let rest = source_paths(elements.drop_last());
        match elements.last().source {
            ImageSourceView::Path(path) => rest.push(path),
            ImageSourceView::Embedded { .. } => rest,
        }
    }
}

/// The seed of the background as it is; zero if it is not generated.
pub open spec fn current_seed(background: BackgroundView) -> u64 {
    match background {
        BackgroundView::Generated(g) => g.seed,
        _ => 0,
    }
}

/// What a new generated background is drawn from. It follows from the seed
/// before it.
pub open spec fn next_drawing(previous: u64) -> Drawn {
    let s0 = previous ^ 0x5EED_5EED_5EED_5EED;
    let s1 = stepped(s0);
    let s2 = stepped(s1);
    let s3 = stepped(s2);
    let s4 = stepped(s3);
    Drawn {
        seed: (output(s0) as int % 1_000_000_000) as u64,
        density: drawn(s1, int_double(0), int_double(1)),
        flow: drawn(s2, int_double(0), int_double(1)),
        variation: drawn(s3, int_double(0), int_double(1)),
        softness: drawn(s4, int_double(0), int_double(1)),
    }
}

/// Whether two lists name the same things, in whatever order.
pub open spec fn same_members(a: Seq<u128>, b: Seq<u128>) -> bool {
    forall|id: u128| #[trigger] a.contains(id) <==> b.contains(id)
}

/// Whether a background takes its palette from the screenshots whenever other
/// ones are visible.
pub open spec fn follows_screenshots(background: BackgroundView) -> bool {
    background matches BackgroundView::Generated(g) && g.adapt_to_screenshots && (g.color_strategy
        == ColorStrategy::FromScreenshots || g.color_strategy == ColorStrategy::Grayscale)
}

fn tracks_screenshots(background: &Background) -> (res: bool)
    ensures
        res == follows_screenshots(background@),
{
    match background {
        Background::Generated(g) => g.adapt_to_screenshots && match g.color_strategy {
            ColorStrategy::FromScreenshots | ColorStrategy::Grayscale => true,
            ColorStrategy::Manual | ColorStrategy::Random => false,
        },
        _ => false,
    }
}

fn names(ids: &Vec<u128>, id: u128) -> (res: bool)
    ensures
        res == ids@.contains(id),
{
    let mut i: usize = 0;
    while i < ids.len()
        invariant
            i <= ids.len(),
            forall|k: int| 0 <= k < i ==> ids[k] != id,
        decreases ids.len() - i,
    {
        if ids[i] == id {
            assert(ids@.contains(id));
            return true;
        }
        i = i + 1;
    }
    false
}

fn all_named(ids: &Vec<u128>, others: &Vec<u128>) -> (res: bool)
    ensures
        res == (forall|id: u128| #[trigger] ids@.contains(id) ==> others@.contains(id)),
{
    let mut i: usize = 0;
    while i < ids.len()
        invariant
            i <= ids.len(),
            forall|k: int| 0 <= k < i ==> others@.contains(#[trigger] ids@[k]),
        decreases ids.len() - i,
    {
        if !names(others, ids[i]) {
            assert(ids@.contains(ids@[i as int]));
            return false;
        }
        i = i + 1;
    }
    true
}

impl EditorState {
    fn replace_background(&mut self, new: Background)
        ensures
            background_set(old(self)@, final(self)@, new@),
    {
        let before = self.document.background.clone();
        self.record(Edit::SetBackground(SetBackground { old: before, new }));
    }

    /// Sets the background that the controls describe, if it is another one.
    pub fn apply_background_from_controls(&mut self, c: BackgroundControls) -> (res: bool)
        ensures
            res == (!old(self)@.syncing_controls && !same_plain(
                old(self)@.document.background,
                described_background(c),
            )),
            !res ==> final(self)@ == old(self)@,
            res ==> background_set(old(self)@, final(self)@, described_background(c)),
    {
        let new = background_from_controls(c);
        if self.syncing_controls || plain_equal(&self.document.background, &new) {
            return false;
        }
        self.replace_background(new);
        true
    }

    /// Sets a file as the background. The opacity is in percent.
    pub fn set_background_image(&mut self, path: PathBuf, fit: u32, opacity: Double)
        ensures
            background_set(
                old(self)@,
                final(self)@,
                BackgroundView::Image(
                    ImageBackgroundSpecView {
                        source: ImageSourceView::Path(path),
                        fit: image_fit_at(fit),
                        opacity: from_percent(opacity),
                    },
                ),
            ),
    {
        let spec = ImageBackgroundSpec {
            source: ImageSource::Path(path),
            fit: background_image_fit_for_index(fit),
            opacity: opacity.over(Double::from_int(100)),
        };
        self.replace_background(Background::Image(spec));
    }

    /// Sets how an image background fills the canvas.
    pub fn set_background_image_fit(&mut self, index: u32) -> (res: bool)
        ensures
            res == (old(self)@.document.background matches BackgroundView::Image(spec) && !old(self)@.syncing_controls
                && spec.fit != image_fit_at(index)),
            !res ==> final(self)@ == old(self)@,
            res ==> background_set(
                old(self)@,
                final(self)@,
                BackgroundView::Image(
                    ImageBackgroundSpecView { fit: image_fit_at(index), ..old(self)@.document.background->Image_0 },
                ),
            ),
    {
        let fit = background_image_fit_for_index(index);
        let new = match &self.document.background {
            Background::Image(spec) => {
                if self.syncing_controls || spec.fit == fit {
                    return false;
                }
                ImageBackgroundSpec { source: spec.source.clone(), fit, opacity: spec.opacity }
            },
            _ => {
                return false;
            },
        };
        self.replace_background(Background::Image(new));
        true
    }

    /// Sets an image background's opacity, in percent.
    pub fn set_background_image_opacity(&mut self, percent: Double) -> (res: bool)
        ensures
            res == (old(self)@.document.background matches BackgroundView::Image(spec) && !old(self)@.syncing_controls
                && !lt(magnitude(diff(spec.opacity, from_percent(percent))), ratio(1, 0x10_0000_0000_0000))),
            !res ==> final(self)@ == old(self)@,
            res ==> background_set(
                old(self)@,
                final(self)@,
                BackgroundView::Image(
                    ImageBackgroundSpecView {
                        opacity: from_percent(percent),
                        ..old(self)@.document.background->Image_0
                    },
                ),
            ),
    {
        let opacity = percent.over(Double::from_int(100));
        let limit = Double::ratio(1, 0x10_0000_0000_0000);
        let new = match &self.document.background {
            Background::Image(spec) => {
                if self.syncing_controls || spec.opacity.minus(opacity).abs().less(limit) {
                    return false;
                }
                ImageBackgroundSpec { source: spec.source.clone(), fit: spec.fit, opacity }
            },
            _ => {
                return false;
            },
        };
        self.replace_background(Background::Image(new));
        true
    }

    /// The files of the visible screenshots, which a palette is taken from.
    pub fn visible_paths(&self) -> (res: Vec<PathBuf>)
        ensures
            res@ == source_paths(visible_of(self@.document.elements)),
    {
        let ghost all = self@.document.elements;
        let mut res: Vec<PathBuf> = Vec::new();
        let mut i: usize = 0;
        proof {
            assert(visible_of(all.take(0)) =~= Seq::empty());
        }
        while i < self.document.elements.len()
            invariant
                i <= self.document.elements.len(),
                all == views(self.document.elements@),
                res@ == source_paths(visible_of(all.take(i as int))),
            decreases self.document.elements.len() - i,
        {
            proof {
                assert(all.take(i + 1).drop_last() =~= all.take(i as int));
                assert(all.take(i + 1).last() == all[i as int]);
                let seen = visible_of(all.take(i as int));
                assert(seen.push(all[i as int]).drop_last() =~= seen);
            }
            let element = &self.document.elements[i];
            if element.visible {
                match &element.source {
                    ImageSource::Path(path) => {
                        res.push(path.clone());
                    },
                    ImageSource::Embedded { .. } => {},
                }
            }
            i = i + 1;
        }
        proof {
            assert(all.take(i as int) =~= all);
        }
        res
    }

    /// The visible screenshots.
    pub fn visible_ids(&self) -> (res: Vec<u128>)
        ensures
            res@ == visible_of(self@.document.elements).map_values(|e: ScreenshotElementView| e.id),
    {
        let ghost all = self@.document.elements;
        let ghost id_of = |e: ScreenshotElementView| e.id;
        let mut res: Vec<u128> = Vec::new();
        let mut i: usize = 0;
        proof {
            assert(visible_of(all.take(0)).map_values(id_of) =~= Seq::empty());
        }
        while i < self.document.elements.len()
            invariant
                i <= self.document.elements.len(),
                all == views(self.document.elements@),
                id_of == (|e: ScreenshotElementView| e.id),
                res@ == visible_of(all.take(i as int)).map_values(id_of),
            decreases self.document.elements.len() - i,
        {
            proof {
                assert(all.take(i + 1).drop_last() =~= all.take(i as int));
                assert(all.take(i + 1).last() == all[i as int]);
                let seen = visible_of(all.take(i as int));
                assert(seen.push(all[i as int]).map_values(id_of) =~= seen.map_values(id_of).push(all[i as int].id));
            }
            if self.document.elements[i].visible {
                res.push(self.document.elements[i].id);
            }
            i = i + 1;
        }
        proof {
            assert(all.take(i as int) =~= all);
        }
        res
    }

    /// Whether the background is due a palette from the screenshots anew: it
    /// follows them, and other ones are visible than before.
    pub fn palette_due(&self, before: &Vec<u128>) -> (res: bool)
        ensures
            res == (follows_screenshots(self@.document.background) && !same_members(
                before@,
                visible_of(self@.document.elements).map_values(|e: ScreenshotElementView| e.id),
            )),
    {
        let now = self.visible_ids();
        tracks_screenshots(&self.document.background) && !(all_named(before, &now) && all_named(&now, before))
    }

    /// Gives a background that follows the screenshots the palette that was
    /// taken from them, if it is another one. Nothing else of it changes.
    pub fn adapt_palette(&mut self, palette: Vec<Rgba>) -> (res: bool)
        ensures
            res == (follows_screenshots(old(self)@.document.background) && !same_colors(
                old(self)@.document.background->Generated_0.palette,
                palette@,
            )),
            !res ==> final(self)@ == old(self)@,
            res ==> background_set(
                old(self)@,
                final(self)@,
                BackgroundView::Generated(
                    GeneratedBackgroundView { palette: palette@, ..old(self)@.document.background->Generated_0 },
                ),
            ),
    {
        if !tracks_screenshots(&self.document.background) {
            return false;
        }
        let new = match &self.document.background {
            Background::Generated(current) => {
                if palettes_equal(&current.palette, &palette) {
                    return false;
                }
                let mut new = current.clone();
                new.palette = palette;
                new
            },
            _ => {
                return false;
            },
        };
        self.replace_background(Background::Generated(new));
        true
    }

    /// The seed of the next suggested gradient. Each call gives another one,
    /// until they begin again.
    pub fn next_gradient_seed(&mut self) -> (res: u32)
        ensures
            res == old(self)@.gradient_auto_seed,
            final(self)@ == (EditorView {
                gradient_auto_seed: if res == u32::MAX {
                    0
                } else {
                    (res + 1) as u32
                },
                ..old(self)@
            }),
    {
        let seed: u32 = self.gradient_auto_seed;
        self.gradient_auto_seed = if seed == u32::MAX {
            0
        } else {
            seed + 1
        };
        seed
    }

    /// Sets a suggested gradient. It becomes a radial one if that is the kind
    /// that is selected.
    pub fn generate_gradient_from_screenshots(&mut self, suggestion: GradientSpec, selected: u32)
        ensures
            background_set(
                old(self)@,
                final(self)@,
                BackgroundView::Gradient(
                    if selected == 2 {
                        GradientSpecView { kind: centered(), stops: suggestion@.stops }
                    } else {
                        suggestion@
                    },
                ),
            ),
    {
        let spec = if selected == 2 {
            GradientSpec { kind: radial_center(), stops: suggestion.stops }
        } else {
            suggestion
        };
        self.replace_background(Background::Gradient(spec));
    }

    /// Brings a generated background in line with its controls. The parameters
    /// without a control stay, and so does a palette that is not the user's
    /// own.
    pub fn apply_generator_controls(&mut self, c: GeneratorControls) -> (res: bool)
        ensures
            ({
                let new = described_generated(
                    c,
                    drawn_before(old(self)@.document.background->Generated_0, seed_of(c.seed)),
                    kept_palette(c, old(self)@.document.background->Generated_0.palette),
                );
                &&& res == (!old(self)@.syncing_controls && (old(self)@.document.background
                    matches BackgroundView::Generated(current) && !same_generated(current, new)))
                &&& !res ==> final(self)@ == old(self)@
                &&& res ==> background_set(old(self)@, final(self)@, BackgroundView::Generated(new))
            }),
    {
        if self.syncing_controls {
            return false;
        }
        let new = match &self.document.background {
            Background::Generated(current) => {
                let palette = if color_strategy_for_index(c.strategy) == ColorStrategy::Manual {
                    manual_palette(c)
                } else {
                    copied(&current.palette)
                };
                let kept = Drawn {
                    seed: seed_from(c.seed),
                    density: current.density,
                    flow: current.flow,
                    variation: current.variation,
                    softness: current.softness,
                };
                let new = generated_from_controls(c, kept, palette);
                if generated_equal(current, &new) {
                    return false;
                }
                new
            },
            _ => {
                return false;
            },
        };
        self.replace_background(Background::Generated(new));
        true
    }

    /// What the next generated background is drawn from.
    pub fn next_background_drawing(&self) -> (res: Drawn)
        ensures
            res == next_drawing(current_seed(self@.document.background)),
    {
        let previous: u64 = match &self.document.background {
            Background::Generated(g) => g.seed,
            _ => 0,
        };
        let mut source = Rng::new(previous ^ 0x5EED_5EED_5EED_5EED);
        let seed: u64 = source.next_u64() % 1_000_000_000;
        let density = source.range(Double::zero(), Double::one());
        let flow = source.range(Double::zero(), Double::one());
        let variation = source.range(Double::zero(), Double::one());
        let softness = source.range(Double::zero(), Double::one());
        Drawn { seed, density, flow, variation, softness }
    }

    /// Sets a background drawn anew. `palette` is the palette that belongs to
    /// its seed; the user's own colors go before it.
    pub fn generate_background(&mut self, c: GeneratorControls, palette: Vec<Rgba>) -> (res: bool)
        ensures
            res == !old(self)@.syncing_controls,
            !res ==> final(self)@ == old(self)@,
            res ==> background_set(
                old(self)@,
                final(self)@,
                BackgroundView::Generated(
                    described_generated(
                        c,
                        next_drawing(current_seed(old(self)@.document.background)),
                        kept_palette(c, palette@),
                    ),
                ),
            ),
    {
        if self.syncing_controls {
            return false;
        }
        let drawing = self.next_background_drawing();
        let colors = if color_strategy_for_index(c.strategy) == ColorStrategy::Manual {
            manual_palette(c)
        } else {
            palette
        };
        self.replace_background(Background::Generated(generated_from_controls(c, drawing, colors)));
        true
    }
}

/// A background that is generated again and again runs through seeds that the
/// first one decides, each below a thousand million.
pub proof fn law_generation_follows_from_the_seed(a: BackgroundView, b: BackgroundView)
    requires
        current_seed(a) == current_seed(b),
    ensures
        next_drawing(current_seed(a)) == next_drawing(current_seed(b)),
        next_drawing(current_seed(a)).seed < 1_000_000_000,
{
}

} // verus!
