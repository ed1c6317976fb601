//! Where the screenshots of a composition go. Placements are computed from
//! natural sizes alone; drawing and hit testing both work on them.
use crate::arith_laws::{lemma_int_double_exact, lemma_sum_commutes, lemma_sum_grows, lemma_sum_monotone};
use crate::double::{infinity, prod, quot, sum, Double};
use crate::model::document::{
    views, Document, DocumentView, LayoutMode, ScreenshotElement, ScreenshotElementView,
};
use crate::model::CanvasSettings;
use crate::order::{larger, le, lt, smaller};
use crate::rounding::INF_LOW;
use crate::whole::{clip, int_double, whole, Rounding};
use vstd::prelude::*;

verus! {

/// Where one screenshot goes, in document pixels.
#[derive(Clone, Copy, Debug, PartialEq)]
pub struct Placement {
    pub element_id: u128,
    pub x: Double,
    pub y: Double,
    pub width: Double,
    pub height: Double,
}

/// The canvas size that a set of placements needs.
#[derive(Clone, Copy, Debug, PartialEq)]
pub struct CanvasExtent {
    pub width: Double,
    pub height: Double,
}

/// The least of some numbers; infinity if there are none.
pub open spec fn least(values: Seq<Double>) -> Double
    decreases values.len(),
{
    if values.len() == 0 {
        infinity()
    } else {
        smaller(least(values.drop_last()), values.last())
    }
}

/// The greatest of zero and some numbers.
pub open spec fn greatest(values: Seq<Double>) -> Double
    decreases values.len(),
{
    if values.len() == 0 {
        int_double(0)
    } else {
        larger(greatest(values.drop_last()), values.last())
    }
}

pub open spec fn natural_widths(elements: Seq<ScreenshotElementView>) -> Seq<Double> {
    elements.map_values(|e: ScreenshotElementView| e.natural_width)
}

pub open spec fn natural_heights(elements: Seq<ScreenshotElementView>) -> Seq<Double> {
    elements.map_values(|e: ScreenshotElementView| e.natural_height)
}

/// The factor that brings a side of length `own` to `target`; a side without
/// a length is left alone.
pub open spec fn fit_factor(target: Double, own: Double) -> Double {
    if lt(int_double(0), own) {
        quot(target, own)
    } else {
        int_double(1)
    }
}

/// A screenshot's width when it is scaled to a height.
pub open spec fn width_at(e: ScreenshotElementView, height: Double) -> Double {
    prod(e.natural_width, fit_factor(height, e.natural_height))
}

/// A screenshot's height when it is scaled to a width.
pub open spec fn height_at(e: ScreenshotElementView, width: Double) -> Double {
    prod(e.natural_height, fit_factor(width, e.natural_width))
}

/// Where the next one starts after one that starts at `start`.
pub open spec fn next_start(start: Double, extent: Double, spacing: Double) -> Double {
    sum(start, sum(extent, spacing))
}

/// The left edge of the `i`th screenshot in a row of a common height.
pub open spec fn row_x(elements: Seq<ScreenshotElementView>, height: Double, spacing: Double, margin: Double, i: nat) -> Double
    decreases i,
{
    if i == 0 {
        margin
    } else {
        let k = (i - 1) as nat;
        next_start(row_x(elements, height, spacing, margin, k), width_at(elements[k as int], height), spacing)
    }
}

/// The upper edge of the `i`th screenshot in a column of a common width.
pub open spec fn column_y(elements: Seq<ScreenshotElementView>, width: Double, spacing: Double, margin: Double, i: nat) -> Double
    decreases i,
{
    if i == 0 {
        margin
    } else {
        let k = (i - 1) as nat;
        next_start(column_y(elements, width, spacing, margin, k), height_at(elements[k as int], width), spacing)
    }
}

/// Screenshots side by side, all as high as the lowest.
pub open spec fn horizontal_layout(elements: Seq<ScreenshotElementView>, spacing: Double, margin: Double) -> Seq<Placement> {
    let height = least(natural_heights(elements));
    Seq::new(
        elements.len(),
        |i: int|
            Placement {
                element_id: elements[i].id,
                x: row_x(elements, height, spacing, margin, i as nat),
                y: margin,
                width: width_at(elements[i], height),
                height,
            },
    )
}

/// Screenshots one below the other, all as wide as the narrowest.
pub open spec fn vertical_layout(elements: Seq<ScreenshotElementView>, spacing: Double, margin: Double) -> Seq<Placement> {
    let width = least(natural_widths(elements));
    Seq::new(
        elements.len(),
        |i: int|
            Placement {
                element_id: elements[i].id,
                x: margin,
                y: column_y(elements, width, spacing, margin, i as nat),
                width,
                height: height_at(elements[i], width),
            },
    )
}

/// Whether a grid of `n` screenshots has `c` columns: the square root of `n`,
/// rounded up.
pub open spec fn is_column_count(n: nat, c: nat) -> bool {
    n <= c * c && (c > 0 ==> (c - 1) * (c - 1) < n)
}

/// The number of columns of a grid of `n` screenshots.
pub open spec fn column_count(n: nat) -> nat {
    choose|c: nat| #[trigger] is_column_count(n, c)
}

/// The left edge of the `i`th screenshot in a grid.
pub open spec fn grid_x(
    elements: Seq<ScreenshotElementView>,
    columns: nat,
    height: Double,
    spacing: Double,
    margin: Double,
    i: nat,
) -> Double
    decreases i,
{
    if i == 0 || i % columns == 0 {
        margin
    } else {
        let k = (i - 1) as nat;
        next_start(
            grid_x(elements, columns, height, spacing, margin, k),
            width_at(elements[k as int], height),
            spacing,
        )
    }
}

/// The upper edge of the `i`th screenshot in a grid.
pub open spec fn grid_y(columns: nat, height: Double, spacing: Double, margin: Double, i: nat) -> Double
    decreases i,
{
    if i == 0 {
        margin
    } else {
        let above = grid_y(columns, height, spacing, margin, (i - 1) as nat);
        if i % columns == 0 {
            next_start(above, height, spacing)
        } else {
            above
        }
    }
}

/// Screenshots in rows of a roughly square grid, all as high as the lowest.
pub open spec fn grid_layout(elements: Seq<ScreenshotElementView>, spacing: Double, margin: Double) -> Seq<Placement> {
    let height = least(natural_heights(elements));
    let columns = column_count(elements.len());
    Seq::new(
        elements.len(),
        |i: int|
            Placement {
                element_id: elements[i].id,
                x: grid_x(elements, columns, height, spacing, margin, i as nat),
                y: grid_y(columns, height, spacing, margin, i as nat),
                width: width_at(elements[i], height),
                height,
            },
    )
}

/// Where each screenshot's own transform puts it.
pub open spec fn free_layout(elements: Seq<ScreenshotElementView>) -> Seq<Placement> {
    elements.map_values(
        |e: ScreenshotElementView|
            Placement {
                element_id: e.id,
                x: e.transform.x,
                y: e.transform.y,
                width: e.transform.width,
                height: e.transform.height,
            },
    )
}

/// The placements of a layout mode.
pub open spec fn layout_of(mode: LayoutMode, elements: Seq<ScreenshotElementView>, spacing: Double, margin: Double) -> Seq<Placement> {
    match mode {
        LayoutMode::Horizontal => horizontal_layout(elements, spacing, margin),
        LayoutMode::Vertical => vertical_layout(elements, spacing, margin),
        LayoutMode::Grid => grid_layout(elements, spacing, margin),
        LayoutMode::Free => free_layout(elements),
    }
}

/// The canvas size that placements need: their far edges, and the margin.
pub open spec fn extent_of(placements: Seq<Placement>, margin: Double) -> CanvasExtent {
    CanvasExtent {
        width: sum(greatest(placements.map_values(|p: Placement| sum(p.x, p.width))), margin),
        height: sum(greatest(placements.map_values(|p: Placement| sum(p.y, p.height))), margin),
    }
}

/// The visible ones among the screenshots, in order.
pub open spec fn visible_of(elements: Seq<ScreenshotElementView>) -> Seq<ScreenshotElementView>
    decreases elements.len(),
{
    if elements.len() == 0 {
        Seq::empty()
    } else if elements.last().visible {
        visible_of(elements.drop_last()).push(elements.last())
    } else {
        visible_of(elements.drop_last())
    }
}

/// A length in whole pixels, rounded up so that nothing is cut off.
pub open spec fn whole_pixels(length: Double) -> u32 {
    clip(whole(length, Rounding::Up), 0, u32::MAX as int) as u32
}

/// The placements of the visible screenshots.
pub open spec fn current_layout(doc: DocumentView) -> Seq<Placement> {
    layout_of(doc.layout.mode, visible_of(doc.elements), doc.layout.spacing_px, doc.layout.margin_px)
}

/// The document with its canvas fitted to the visible screenshots; without
/// any, the canvas stays as it is.
pub open spec fn fitted(doc: DocumentView) -> DocumentView {
    if visible_of(doc.elements).len() == 0 {
        doc
    } else {
        let extent = extent_of(current_layout(doc), doc.layout.margin_px);
        DocumentView {
            canvas: CanvasSettings {
                export_width: whole_pixels(extent.width),
                export_height: whole_pixels(extent.height),
                ..doc.canvas
            },
            ..doc
        }
    }
}

proof fn lemma_take_step<T>(s: Seq<T>, i: int)
    requires
        0 <= i < s.len(),
    ensures
        s.take(i + 1).drop_last() == s.take(i),
        s.take(i + 1).last() == s[i],
        s.take(s.len() as int) == s,
{
    assert(s.take(i + 1).drop_last() =~= s.take(i));
    assert(s.take(s.len() as int) =~= s);
}

fn least_natural(elements: &[ScreenshotElement], of_width: bool) -> (res: Double)
    ensures
        res == least(
            if of_width {
                natural_widths(views(elements@))
            } else {
                natural_heights(views(elements@))
            },
        ),
{
    let ghost values = if of_width {
        natural_widths(views(elements@))
    } else {
        natural_heights(views(elements@))
    };
    let mut res = Double { bits: INF_LOW };
    let mut i: usize = 0;
    while i < elements.len()
        invariant
            i <= elements.len(),
            values.len() == elements.len(),
            values == if of_width {
                natural_widths(views(elements@))
            } else {
                natural_heights(views(elements@))
            },
            res == least(values.take(i as int)),
        decreases elements.len() - i,
    {
        proof {
            lemma_take_step(values, i as int);
        }
        let own = if of_width {
            elements[i].natural_width
        } else {
            elements[i].natural_height
        };
        res = res.min(own);
        i = i + 1;
    }
    proof {
        assert(values.take(i as int) =~= values);
    }
    res
}

fn factor(target: Double, own: Double) -> (res: Double)
    ensures
        res == fit_factor(target, own),
{
    if Double::zero().less(own) {
        target.over(own)
    } else {
        Double::one()
    }
}

pub proof fn lemma_column_count_unique(n: nat, c: nat, d: nat)
    requires
        is_column_count(n, c),
        is_column_count(n, d),
    ensures
        c == d,
{
    if c < d {
        assert(c * c <= (d - 1) * (d - 1)) by (nonlinear_arith)
            requires
                0 <= c <= d - 1,
        ;
    } else if d < c {
        assert(d * d <= (c - 1) * (c - 1)) by (nonlinear_arith)
            requires
                0 <= d <= c - 1,
        ;
    }
}

fn columns_for(n: usize) -> (res: usize)
    ensures
        res == column_count(n as nat),
        n > 0 ==> res > 0,
{
    let mut c: usize = 0;
    let mut square: u128 = 0;
    proof {
        assert(0 * 0 == 0);
    }
    while square < n as u128
        invariant
            c <= n,
            c > 0 ==> (c - 1) * (c - 1) < n,
            square == c * c,
        decreases n - c,
    {
        proof {
            assert(c < n) by (nonlinear_arith)
                requires
                    c * c < n,
                    c <= n,
                    c >= 0,
            ;
            assert((c + 1) * (c + 1) == c * c + 2 * c + 1) by (nonlinear_arith);
        }
        square = square + 2 * (c as u128) + 1;
        c = c + 1;
    }
    proof {
        assert(is_column_count(n as nat, c as nat));
        lemma_column_count_unique(n as nat, c as nat, column_count(n as nat));
    }
    c
}

/// Scales every screenshot to the least natural height and puts them side by
/// side from `margin_px` on, `spacing_px` apart.
pub fn compute_horizontal_layout(elements: &[ScreenshotElement], spacing_px: Double, margin_px: Double) -> (res: Vec<Placement>)
    ensures
        res@ == horizontal_layout(views(elements@), spacing_px, margin_px),
{
    let target_height = least_natural(elements, false);
    let ghost all = views(elements@);
    let mut x = margin_px;
    let mut placements: Vec<Placement> = Vec::new();
    let mut i: usize = 0;
    while i < elements.len()
        invariant
            i <= elements.len(),
            all == views(elements@),
            target_height == least(natural_heights(all)),
            x == row_x(all, target_height, spacing_px, margin_px, i as nat),
            placements@ == horizontal_layout(all, spacing_px, margin_px).take(i as int),
        decreases elements.len() - i,
    {
        let el = &elements[i];
        let width = el.natural_width.times(factor(target_height, el.natural_height));
        placements.push(Placement { element_id: el.id, x, y: margin_px, width, height: target_height });
        x = x.plus(width.plus(spacing_px));
        i = i + 1;
        proof {
            assert(horizontal_layout(all, spacing_px, margin_px).take(i as int) =~= horizontal_layout(
                all,
                spacing_px,
                margin_px,
            ).take(i - 1).push(placements@.last()));
        }
    }
    proof {
        assert(horizontal_layout(all, spacing_px, margin_px).take(i as int) =~= horizontal_layout(
            all,
            spacing_px,
            margin_px,
        ));
    }
    placements
}

/// Scales every screenshot to the least natural width and puts them one below
/// the other from `margin_px` on, `spacing_px` apart.
pub fn compute_vertical_layout(elements: &[ScreenshotElement], spacing_px: Double, margin_px: Double) -> (res: Vec<Placement>)
    ensures
        res@ == vertical_layout(views(elements@), spacing_px, margin_px),
{
    let target_width = least_natural(elements, true);
    let ghost all = views(elements@);
    let mut y = margin_px;
    let mut placements: Vec<Placement> = Vec::new();
    let mut i: usize = 0;
    while i < elements.len()
        invariant
            i <= elements.len(),
            all == views(elements@),
            target_width == least(natural_widths(all)),
            y == column_y(all, target_width, spacing_px, margin_px, i as nat),
            placements@ == vertical_layout(all, spacing_px, margin_px).take(i as int),
        decreases elements.len() - i,
    {
        let el = &elements[i];
        let height = el.natural_height.times(factor(target_width, el.natural_width));
        placements.push(Placement { element_id: el.id, x: margin_px, y, width: target_width, height });
        y = y.plus(height.plus(spacing_px));
        i = i + 1;
        proof {
            assert(vertical_layout(all, spacing_px, margin_px).take(i as int) =~= vertical_layout(
                all,
                spacing_px,
                margin_px,
            ).take(i - 1).push(placements@.last()));
        }
    }
    proof {
        assert(vertical_layout(all, spacing_px, margin_px).take(i as int) =~= vertical_layout(
            all,
            spacing_px,
            margin_px,
        ));
    }
    placements
}

/// Scales every screenshot to the least natural height and puts them into the
/// rows of a roughly square grid.
pub fn compute_grid_layout(elements: &[ScreenshotElement], spacing_px: Double, margin_px: Double) -> (res: Vec<Placement>)
    ensures
        res@ == grid_layout(views(elements@), spacing_px, margin_px),
{
    let columns: usize = columns_for(elements.len());
    let target_height = least_natural(elements, false);
    let ghost all = views(elements@);
    let mut x = margin_px;
    let mut y = margin_px;
    let mut placements: Vec<Placement> = Vec::new();
    let mut i: usize = 0;
    while i < elements.len()
        invariant
            i <= elements.len(),
            elements.len() > 0 ==> columns > 0,
            all == views(elements@),
            columns == column_count(all.len()),
            target_height == least(natural_heights(all)),
            i == 0 ==> x == margin_px && y == margin_px,
            i > 0 ==> x == next_start(
                grid_x(all, columns as nat, target_height, spacing_px, margin_px, (i - 1) as nat),
                width_at(all[i - 1], target_height),
                spacing_px,
            ),
            i > 0 ==> y == grid_y(columns as nat, target_height, spacing_px, margin_px, (i - 1) as nat),
            placements@ == grid_layout(all, spacing_px, margin_px).take(i as int),
        decreases elements.len() - i,
    {
        let el = &elements[i];
        if i > 0 && i % columns == 0 {
            x = margin_px;
            y = y.plus(target_height.plus(spacing_px));
        }
        let width = el.natural_width.times(factor(target_height, el.natural_height));
        placements.push(Placement { element_id: el.id, x, y, width, height: target_height });
        x = x.plus(width.plus(spacing_px));
        i = i + 1;
        proof {
            assert(grid_layout(all, spacing_px, margin_px).take(i as int) =~= grid_layout(
                all,
                spacing_px,
                margin_px,
            ).take(i - 1).push(placements@.last()));
        }
    }
    proof {
        assert(grid_layout(all, spacing_px, margin_px).take(i as int) =~= grid_layout(all, spacing_px, margin_px));
    }
    placements
}

/// Each screenshot where its own transform puts it.
pub fn compute_free_layout(elements: &[ScreenshotElement]) -> (res: Vec<Placement>)
    ensures
        res@ == free_layout(views(elements@)),
{
    let mut placements: Vec<Placement> = Vec::new();
    let mut i: usize = 0;
    while i < elements.len()
        invariant
            i <= elements.len(),
            placements@ == free_layout(views(elements@)).take(i as int),
        decreases elements.len() - i,
    {
        let el = &elements[i];
        let t = el.transform;
        placements.push(Placement { element_id: el.id, x: t.x, y: t.y, width: t.width, height: t.height });
        i = i + 1;
        proof {
            assert(free_layout(views(elements@)).take(i as int) =~= free_layout(views(elements@)).take(
                i - 1,
            ).push(placements@.last()));
        }
    }
    proof {
        assert(free_layout(views(elements@)).take(i as int) =~= free_layout(views(elements@)));
    }
    placements
}

/// The placements of a layout mode other than free positioning, which has no
/// arrangement of its own to compute.
pub fn compute_layout(mode: LayoutMode, elements: &[ScreenshotElement], spacing_px: Double, margin_px: Double) -> (res: Vec<Placement>)
    requires
        mode != LayoutMode::Free,
    ensures
        res@ == layout_of(mode, views(elements@), spacing_px, margin_px),
{
    match mode {
        LayoutMode::Horizontal => compute_horizontal_layout(elements, spacing_px, margin_px),
        LayoutMode::Vertical => compute_vertical_layout(elements, spacing_px, margin_px),
        _ => compute_grid_layout(elements, spacing_px, margin_px),
    }
}

fn farthest(placements: &[Placement], across: bool) -> (res: Double)
    ensures
        across ==> res == greatest(placements@.map_values(|p: Placement| sum(p.x, p.width))),
        !across ==> res == greatest(placements@.map_values(|p: Placement| sum(p.y, p.height))),
{
    let ghost values = if across {
        placements@.map_values(|p: Placement| sum(p.x, p.width))
    } else {
        placements@.map_values(|p: Placement| sum(p.y, p.height))
    };
    let mut res = Double::zero();
    let mut i: usize = 0;
    while i < placements.len()
        invariant
            i <= placements.len(),
            values.len() == placements.len(),
            values == if across {
                placements@.map_values(|p: Placement| sum(p.x, p.width))
            } else {
                placements@.map_values(|p: Placement| sum(p.y, p.height))
            },
            res == greatest(values.take(i as int)),
        decreases placements.len() - i,
    {
        proof {
            lemma_take_step(values, i as int);
        }
        let p = placements[i];
        let edge = if across {
            p.x.plus(p.width)
        } else {
            p.y.plus(p.height)
        };
        res = res.max(edge);
        i = i + 1;
    }
    proof {
        assert(values.take(i as int) =~= values);
    }
    res
}

/// The canvas size that placements need, with the margin that they were
/// computed with.
pub fn extent_for(placements: &[Placement], margin_px: Double) -> (res: CanvasExtent)
    ensures
        res == extent_of(placements@, margin_px),
{
    CanvasExtent {
        width: farthest(placements, true).plus(margin_px),
        height: farthest(placements, false).plus(margin_px),
    }
}

/// Copies of the visible screenshots, in order.
pub fn visible_elements(elements: &[ScreenshotElement]) -> (res: Vec<ScreenshotElement>)
    ensures
        views(res@) == visible_of(views(elements@)),
{
    let ghost all = views(elements@);
    let mut res: Vec<ScreenshotElement> = Vec::new();
    let mut i: usize = 0;
    proof {
        assert(views(res@) =~= visible_of(all.take(0)));
    }
    while i < elements.len()
        invariant
            i <= elements.len(),
            all == views(elements@),
            views(res@) == visible_of(all.take(i as int)),
        decreases elements.len() - i,
    {
        proof {
            lemma_take_step(all, i as int);
        }
        if elements[i].visible {
            let element = elements[i].clone();
            proof {
                assert(views(res@.push(element)) =~= views(res@).push(element@));
            }
            res.push(element);
        }
        i = i + 1;
    }
    proof {
        assert(all.take(i as int) =~= all);
    }
    res
}

/// The placements of a document's visible screenshots.
pub fn placements_of(doc: &Document) -> (res: Vec<Placement>)
    ensures
        res@ == current_layout(doc@),
{
    let visible = visible_elements(doc.elements.as_slice());
    match doc.layout.mode {
        LayoutMode::Free => compute_free_layout(visible.as_slice()),
        _ => compute_layout(doc.layout.mode, visible.as_slice(), doc.layout.spacing_px, doc.layout.margin_px),
    }
}

/// Sets the canvas size to what the visible screenshots need. Without any,
/// nothing changes.
pub fn fit_canvas_to_content(doc: &mut Document)
    ensures
        final(doc)@ == fitted(old(doc)@),
{
    let placements = placements_of(doc);
    proof {
        lemma_layout_len(doc@);
    }
    if placements.len() == 0 {
        return;
    }
    let extent = extent_for(placements.as_slice(), doc.layout.margin_px);
    doc.canvas.export_width = extent.width.to_int(Rounding::Up, 0, u32::MAX as i128) as u32;
    doc.canvas.export_height = extent.height.to_int(Rounding::Up, 0, u32::MAX as i128) as u32;
}

proof fn lemma_layout_len(doc: DocumentView)
    ensures
        current_layout(doc).len() == visible_of(doc.elements).len(),
{
}

/// Every layout places each screenshot once, in the order given.
pub proof fn law_layout_keeps_order(mode: LayoutMode, elements: Seq<ScreenshotElementView>, spacing: Double, margin: Double)
    ensures
        layout_of(mode, elements, spacing, margin).len() == elements.len(),
        forall|i: int|
            0 <= i < elements.len() ==> (#[trigger] layout_of(mode, elements, spacing, margin)[i]).element_id
                == elements[i].id,
{
}

/// The least of some numbers is none of the greater ones, and it is one of them.
pub proof fn lemma_least(values: Seq<Double>)
    requires
        forall|i: int| 0 <= i < values.len() ==> !(#[trigger] values[i]).nan(),
    ensures
        !least(values).nan(),
        forall|i: int| 0 <= i < values.len() ==> le(least(values), #[trigger] values[i]),
        values.len() > 0 ==> least(values) == infinity() || values.contains(least(values)),
    decreases values.len(),
{
    if values.len() > 0 {
        let init = values.drop_last();
        assert forall|i: int| 0 <= i < init.len() implies !(#[trigger] init[i]).nan() by {
            assert(init[i] == values[i]);
        }
        lemma_least(init);
        assert forall|i: int| 0 <= i < values.len() implies le(least(values), #[trigger] values[i]) by {
            if i < values.len() - 1 {
                assert(init[i] == values[i]);
            }
        }
        if least(values) == values.last() {
            assert(values[values.len() - 1] == least(values));
        } else if init.len() > 0 && init.contains(least(init)) {
            let k = choose|k: int| 0 <= k < init.len() && init[k] == least(init);
            assert(values[k] == least(init));
        }
    }
}

/// In a row all screenshots have one height, no greater than any natural
/// height, and one upper edge: the margin.
pub proof fn law_row_has_common_height(elements: Seq<ScreenshotElementView>, spacing: Double, margin: Double)
    requires
        forall|i: int| 0 <= i < elements.len() ==> !(#[trigger] elements[i]).natural_height.nan(),
    ensures
        ({
            let placements = horizontal_layout(elements, spacing, margin);
            forall|i: int, j: int|
                0 <= i < elements.len() && 0 <= j < elements.len() ==> (#[trigger] placements[i]).y == margin
                    && placements[i].height == (#[trigger] placements[j]).height && le(
                    placements[i].height,
                    elements[j].natural_height,
                )
        }),
{
    let values = natural_heights(elements);
    assert forall|i: int| 0 <= i < values.len() implies !(#[trigger] values[i]).nan() by {
        assert(values[i] == elements[i].natural_height);
    }
    lemma_least(values);
    let placements = horizontal_layout(elements, spacing, margin);
    assert forall|i: int, j: int| 0 <= i < elements.len() && 0 <= j < elements.len() implies le(
        (#[trigger] placements[i]).height,
        (#[trigger] elements[j]).natural_height,
    ) by {
        assert(values[j] == elements[j].natural_height);
    }
}

/// In a column all screenshots have one width, no greater than any natural
/// width, and one left edge: the margin.
pub proof fn law_column_has_common_width(elements: Seq<ScreenshotElementView>, spacing: Double, margin: Double)
    requires
        forall|i: int| 0 <= i < elements.len() ==> !(#[trigger] elements[i]).natural_width.nan(),
    ensures
        ({
            let placements = vertical_layout(elements, spacing, margin);
            forall|i: int, j: int|
                0 <= i < elements.len() && 0 <= j < elements.len() ==> (#[trigger] placements[i]).x == margin
                    && placements[i].width == (#[trigger] placements[j]).width && le(
                    placements[i].width,
                    elements[j].natural_width,
                )
        }),
{
    let values = natural_widths(elements);
    assert forall|i: int| 0 <= i < values.len() implies !(#[trigger] values[i]).nan() by {
        assert(values[i] == elements[i].natural_width);
    }
    lemma_least(values);
    let placements = vertical_layout(elements, spacing, margin);
    assert forall|i: int, j: int| 0 <= i < elements.len() && 0 <= j < elements.len() implies le(
        (#[trigger] placements[i]).width,
        (#[trigger] elements[j]).natural_width,
    ) by {
        assert(values[j] == elements[j].natural_width);
    }
}

/// In a row with a spacing that is not negative, no screenshot begins before
/// the one to its left ends.
pub proof fn law_row_does_not_overlap(elements: Seq<ScreenshotElementView>, spacing: Double, margin: Double, i: int)
    requires
        0 <= i < elements.len() - 1,
        spacing.finite(),
        spacing.val() >= 0,
        ({
            let p = horizontal_layout(elements, spacing, margin)[i];
            p.x.finite() && p.width.finite() && sum(p.width, spacing).finite()
        }),
    ensures
        ({
            let placements = horizontal_layout(elements, spacing, margin);
            le(sum(placements[i].x, placements[i].width), placements[i + 1].x)
        }),
{
    let p = horizontal_layout(elements, spacing, margin)[i];
    lemma_start_after_end(p.x, p.width, spacing);
}

/// In a column with a spacing that is not negative, no screenshot begins
/// before the one above it ends.
pub proof fn law_column_does_not_overlap(elements: Seq<ScreenshotElementView>, spacing: Double, margin: Double, i: int)
    requires
        0 <= i < elements.len() - 1,
        spacing.finite(),
        spacing.val() >= 0,
        ({
            let p = vertical_layout(elements, spacing, margin)[i];
            p.y.finite() && p.height.finite() && sum(p.height, spacing).finite()
        }),
    ensures
        ({
            let placements = vertical_layout(elements, spacing, margin);
            le(sum(placements[i].y, placements[i].height), placements[i + 1].y)
        }),
{
    let p = vertical_layout(elements, spacing, margin)[i];
    lemma_start_after_end(p.y, p.height, spacing);
}

proof fn lemma_start_after_end(start: Double, extent: Double, spacing: Double)
    requires
        start.finite(),
        extent.finite(),
        spacing.finite(),
        spacing.val() >= 0,
        sum(extent, spacing).finite(),
    ensures
        le(sum(start, extent), next_start(start, extent, spacing)),
{
    lemma_sum_grows(extent, spacing);
    lemma_sum_monotone(extent, sum(extent, spacing), start);
    lemma_sum_commutes(start, extent);
    lemma_sum_commutes(start, sum(extent, spacing));
}

/// Where a row of a grid breaks, the next screenshot starts at the margin
/// again, below the row.
pub proof fn law_grid_wraps(elements: Seq<ScreenshotElementView>, spacing: Double, margin: Double, i: int)
    requires
        0 < i < elements.len(),
        i % (column_count(elements.len()) as int) == 0,
        column_count(elements.len()) > 0,
    ensures
        ({
            let placements = grid_layout(elements, spacing, margin);
            &&& placements[i].x == margin
            &&& placements[i].y == next_start(placements[i - 1].y, placements[i - 1].height, spacing)
        }),
{
}

/// A grid has as many columns as the square root of the number of
/// screenshots, rounded up: with one less it would need more rows than that.
pub proof fn law_grid_is_roughly_square(n: nat)
    ensures
        is_column_count(n, column_count(n)),
{
    let c = lemma_column_count_exists(n);
    assert(is_column_count(n, c));
}

proof fn lemma_column_count_exists(n: nat) -> (c: nat)
    ensures
        is_column_count(n, c),
    decreases n,
{
    if n == 0 {
        assert(is_column_count(0, 0)) by (nonlinear_arith);
        0
    } else {
        let c = lemma_column_count_exists((n - 1) as nat);
        if n <= c * c {
            c
        } else {
            let d = c + 1;
            assert(n <= d * d) by (nonlinear_arith)
                requires
                    n - 1 <= c * c,
                    d == c + 1,
                    c >= 0,
            ;
            d
        }
    }
}

/// The greatest is no less than any of the numbers.
pub proof fn lemma_greatest(values: Seq<Double>, i: int)
    requires
        0 <= i < values.len(),
        forall|k: int| 0 <= k < values.len() ==> !(#[trigger] values[k]).nan(),
    ensures
        le(values[i], greatest(values)),
        le(int_double(0), greatest(values)),
    decreases values.len(),
{
    lemma_int_double_exact(0);
    let init = values.drop_last();
    assert forall|k: int| 0 <= k < init.len() implies !(#[trigger] init[k]).nan() by {
        assert(init[k] == values[k]);
    }
    if init.len() > 0 {
        lemma_greatest(init, if i < init.len() { i } else { 0 });
    }
}

/// The extent leaves room for every placement and, beyond it, the margin.
pub proof fn law_extent_covers_every_placement(placements: Seq<Placement>, margin: Double, i: int)
    requires
        0 <= i < placements.len(),
        margin.finite(),
        forall|k: int|
            0 <= k < placements.len() ==> sum((#[trigger] placements[k]).x, placements[k].width).finite()
                && sum(placements[k].y, placements[k].height).finite(),
    ensures
        le(sum(sum(placements[i].x, placements[i].width), margin), extent_of(placements, margin).width),
        le(sum(sum(placements[i].y, placements[i].height), margin), extent_of(placements, margin).height),
{
    let right = placements.map_values(|p: Placement| sum(p.x, p.width));
    let bottom = placements.map_values(|p: Placement| sum(p.y, p.height));
    assert forall|k: int| 0 <= k < right.len() implies (#[trigger] right[k]).finite() && !right[k].nan() by {
        assert(placements[k].x == placements[k].x);
    }
    assert forall|k: int| 0 <= k < bottom.len() implies (#[trigger] bottom[k]).finite() && !bottom[k].nan() by {
        assert(placements[k].x == placements[k].x);
    }
    lemma_greatest(right, i);
    lemma_greatest(bottom, i);
    lemma_greatest_finite(right);
    lemma_greatest_finite(bottom);
    lemma_sum_monotone(right[i], greatest(right), margin);
    lemma_sum_monotone(bottom[i], greatest(bottom), margin);
}

pub proof fn lemma_greatest_finite(values: Seq<Double>)
    requires
        forall|k: int| 0 <= k < values.len() ==> (#[trigger] values[k]).finite(),
    ensures
        greatest(values).finite(),
    decreases values.len(),
{
    lemma_int_double_exact(0);
    if values.len() > 0 {
        let init = values.drop_last();
        assert forall|k: int| 0 <= k < init.len() implies (#[trigger] init[k]).finite() by {
            assert(init[k] == values[k]);
        }
        lemma_greatest_finite(init);
        assert(values.last() == values[values.len() - 1]);
    }
}

/// Fitting the canvas a second time changes nothing, and fitting touches
/// nothing but the canvas size.
pub proof fn law_fit_is_idempotent(doc: DocumentView)
    ensures
        fitted(fitted(doc)) == fitted(doc),
        fitted(doc).id == doc.id,
        fitted(doc).elements == doc.elements,
        fitted(doc).layout == doc.layout,
        fitted(doc).background == doc.background,
        fitted(doc).title == doc.title,
        fitted(doc).canvas.export_target_width == doc.canvas.export_target_width,
        fitted(doc).canvas.export_format == doc.canvas.export_format,
        fitted(doc).canvas.export_quality == doc.canvas.export_quality,
{
}

} // verus!
