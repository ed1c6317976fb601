//! The preview: how large it is drawn, what a pointer hits, and what a drag
//! does. The widget hands in sizes, points and gestures; what comes back says
//! what to draw and which command a finished drag stands for.
use crate::arith_laws::{
    lemma_fraction, lemma_int_double_exact, lemma_round_bounded, lemma_round_exact, lemma_round_monotone,
};
use crate::double::{diff, lemma_mag_ordered, one_unit, prod, quot, signed, sum, Double, UNIT_EXP};
use crate::generator::{half, Point};
use crate::layout::{current_layout, placements_of, Placement};
use crate::model::document::{views, DocumentView, ScreenshotElementView};
use crate::model::geometry::resized;
use crate::model::{Corner, Document, LayoutMode, Transform};
use crate::order::{larger, le, lt, same, smaller};
use crate::rounding::round_low;
use crate::sameness::{same_transform, transforms_equal};
use crate::whole::{clip, int_double, ratio, whole, Rounding};
use vstd::arithmetic::power2::*;
use vstd::prelude::*;

verus! {

/// How near a press has to be to a corner to grab it, in screen pixels.
pub const HANDLE_HIT_RADIUS_PX: i64 = 10;

/// Half the side of the squares that are drawn at corners, in screen pixels.
pub const HANDLE_DRAW_HALF_PX: i64 = 5;

/// A move under way: where it began and where the screenshot was.
#[derive(Clone, Copy, Debug, PartialEq)]
pub struct FreeDragOrigin {
    pub start: Point,
    pub origin: Point,
}

/// A resize under way: the corner that was grabbed, the transform before, and
/// where the drag began.
#[derive(Clone, Copy, Debug, PartialEq)]
pub struct ResizeDragOrigin {
    pub corner: Corner,
    pub original: Transform,
    pub start: Point,
}

/// What a drag has picked up.
#[derive(Clone, Copy, Debug, PartialEq)]
pub struct DragState {
    /// The position of the screenshot that is dragged.
    pub from: Option<usize>,
    /// Where it would be put in, for the line that shows it.
    pub hover: Option<usize>,
    pub moving: Option<FreeDragOrigin>,
    pub resizing: Option<ResizeDragOrigin>,
}

pub open spec fn no_drag() -> DragState {
    DragState { from: None, hover: None, moving: None, resizing: None }
}

/// The state of the preview.
#[derive(Debug)]
pub struct CanvasState {
    pub document: Document,
    /// The size of the last rendering, if there is one.
    pub rendered: Option<(i32, i32)>,
    /// Whether the document has changed since.
    pub dirty: bool,
    /// A fixed scale; without one the document is fitted to the widget.
    pub zoom: Option<Double>,
    /// The placements of the last rendering.
    pub placements: Vec<Placement>,
    /// The scale of the last rendering.
    pub scale: Double,
    pub drag: DragState,
}

#[verifier::ext_equal]
pub struct CanvasView {
    pub document: DocumentView,
    pub rendered: Option<(i32, i32)>,
    pub dirty: bool,
    pub zoom: Option<Double>,
    pub placements: Seq<Placement>,
    pub scale: Double,
    pub drag: DragState,
}

impl View for CanvasState {
    type V = CanvasView;

    open spec fn view(&self) -> CanvasView {
        CanvasView {
            document: self.document@,
            rendered: self.rendered,
            dirty: self.dirty,
            zoom: self.zoom,
            placements: self.placements@,
            scale: self.scale,
            drag: self.drag,
        }
    }
}

/// A length in whole pixels, at least one.
pub open spec fn pixels(length: Double) -> i32 {
    let n = clip(whole(length, Rounding::Nearest), 0, i32::MAX as int) as i32;
    if n < 1 {
        1
    } else {
        n
    }
}

/// A side of a document in whole pixels at a scale.
pub open spec fn pixels_at(side: u32, scale: Double) -> i32 {
    pixels(prod(int_double(side as int), scale))
}

fn to_pixels(length: Double) -> (res: i32)
    ensures
        res == pixels(length),
{
    let n: i32 = length.to_int(Rounding::Nearest, 0, i32::MAX as i128) as i32;
    if n < 1 {
        1
    } else {
        n
    }
}

/// A scale and the size that the document has at it.
#[derive(Clone, Copy, Debug, PartialEq)]
pub struct RenderRequest {
    pub scale: Double,
    pub width: i32,
    pub height: i32,
}

/// The scale that the preview is drawn at in a widget of a size.
pub open spec fn preview_scale(zoom: Option<Double>, doc_w: Double, doc_h: Double, width: i32, height: i32) -> Double {
    match zoom {
        Some(z) => larger(z, ratio(1, 100)),
        None => larger(
            smaller(quot(int_double(width as int), doc_w), quot(int_double(height as int), doc_h)),
            ratio(1, 1000),
        ),
    }
}

/// The rendering that a widget of a size asks for, if the document has an
/// extent.
pub open spec fn wanted_rendering(v: CanvasView, width: i32, height: i32) -> Option<RenderRequest> {
    let (w, h) = (v.document.canvas.export_width, v.document.canvas.export_height);
    if w == 0 || h == 0 {
        None
    } else {
        let (doc_w, doc_h) = (int_double(w as int), int_double(h as int));
        let scale = preview_scale(v.zoom, doc_w, doc_h, width, height);
        Some(
            RenderRequest { scale, width: pixels_at(w, scale), height: pixels_at(h, scale) },
        )
    }
}

/// The rendering that is due: none if the last one still holds.
pub open spec fn due_rendering(v: CanvasView, width: i32, height: i32) -> Option<RenderRequest> {
    match wanted_rendering(v, width, height) {
        Some(r) => if !v.dirty && v.rendered == Some((r.width, r.height)) {
            None
        } else {
            Some(r)
        },
        None => None,
    }
}

/// Where a point of the widget lies in the document, once it was rendered.
pub open spec fn document_point(v: CanvasView, width: i32, height: i32, x: Double, y: Double) -> Option<Point> {
    if le(v.scale, int_double(0)) {
        None
    } else {
        match v.rendered {
            Some((w, h)) => {
                let ox = drawn_offset(width, w);
                let oy = drawn_offset(height, h);
                Some(Point { x: quot(diff(x, ox), v.scale), y: quot(diff(y, oy), v.scale) })
            },
            None => None,
        }
    }
}

/// Where a coordinate of the document is drawn in the widget, of which the
/// composition starts at an offset.
pub open spec fn drawn_at(offset: Double, coordinate: Double, scale: Double) -> Double {
    sum(offset, prod(coordinate, scale))
}

/// Where the composition is drawn in a widget: in the middle.
pub open spec fn drawn_offset(widget: i32, rendered: i32) -> Double {
    half(diff(int_double(widget as int), int_double(rendered as int)))
}

/// Whether a placement covers a point.
pub open spec fn covers(p: Placement, at: Point) -> bool {
    le(p.x, at.x) && le(at.x, sum(p.x, p.width)) && le(p.y, at.y) && le(at.y, sum(p.y, p.height))
}

/// The first of the placements from `i` on that covers a point.
pub open spec fn hit_from(placements: Seq<Placement>, at: Point, i: nat) -> Option<usize>
    decreases placements.len() - i,
{
    if i >= placements.len() {
        None
    } else if covers(placements[i as int], at) {
        Some(i as usize)
    } else {
        hit_from(placements, at, i + 1)
    }
}

/// The point of a placement's corner.
pub open spec fn corner_point(p: Placement, corner: Corner) -> Point {
    Point {
        x: if corner.right() {
            sum(p.x, p.width)
        } else {
            p.x
        },
        y: if corner.bottom() {
            sum(p.y, p.height)
        } else {
            p.y
        },
    }
}

/// Whether a point is within reach of a placement's corner.
pub open spec fn grabs(p: Placement, corner: Corner, at: Point, reach: Double) -> bool {
    let c = corner_point(p, corner);
    let dx = diff(at.x, c.x);
    let dy = diff(at.y, c.y);
    le(sum(prod(dx, dx), prod(dy, dy)), prod(reach, reach))
}

/// The corner of a placement that a point grabs, the upper left one first.
pub open spec fn grabbed_corner(p: Placement, at: Point, reach: Double) -> Option<Corner> {
    if grabs(p, Corner::TopLeft, at, reach) {
        Some(Corner::TopLeft)
    } else if grabs(p, Corner::TopRight, at, reach) {
        Some(Corner::TopRight)
    } else if grabs(p, Corner::BottomLeft, at, reach) {
        Some(Corner::BottomLeft)
    } else if grabs(p, Corner::BottomRight, at, reach) {
        Some(Corner::BottomRight)
    } else {
        None
    }
}

/// The first corner that a point grabs among the placements from `i` on.
pub open spec fn handle_from(placements: Seq<Placement>, at: Point, reach: Double, i: nat) -> Option<(usize, Corner)>
    decreases placements.len() - i,
{
    if i >= placements.len() {
        None
    } else {
        match grabbed_corner(placements[i as int], at, reach) {
            Some(corner) => Some((i as usize, corner)),
            None => handle_from(placements, at, reach, i + 1),
        }
    }
}

/// How far a corner handle reaches in the document.
pub open spec fn handle_reach(scale: Double) -> Double {
    quot(int_double(HANDLE_HIT_RADIUS_PX as int), scale)
}

/// The corner handle at a point of the document. Its reach is the same on the
/// screen at every scale.
pub open spec fn handle_at(v: CanvasView, at: Point) -> Option<(usize, Corner)> {
    if le(v.scale, int_double(0)) {
        None
    } else {
        handle_from(v.placements, at, handle_reach(v.scale), 0)
    }
}

/// Before which of the placements from `i` on a horizontal position lies.
pub open spec fn insertion_from(placements: Seq<Placement>, x: Double, i: nat) -> usize
    decreases placements.len() - i,
{
    if i >= placements.len() {
        placements.len() as usize
    } else if lt(x, sum(placements[i as int].x, half(placements[i as int].width))) {
        i as usize
    } else {
        insertion_from(placements, x, i + 1)
    }
}

fn find_hit(placements: &Vec<Placement>, at: Point) -> (res: Option<usize>)
    ensures
        res == hit_from(placements@, at, 0),
        res matches Some(i) ==> i < placements.len(),
{
    let mut i: usize = 0;
    while i < placements.len()
        invariant
            i <= placements.len(),
            hit_from(placements@, at, 0) == hit_from(placements@, at, i as nat),
        decreases placements.len() - i,
    {
        let p = placements[i];
        if p.x.at_most(at.x) && at.x.at_most(p.x.plus(p.width)) && p.y.at_most(at.y) && at.y.at_most(
            p.y.plus(p.height),
        ) {
            return Some(i);
        }
        i = i + 1;
    }
    None
}

fn is_grabbed(p: Placement, corner: Corner, at: Point, reach: Double) -> (res: bool)
    ensures
        res == grabs(p, corner, at, reach),
{
    let right: bool = match corner {
        Corner::TopRight | Corner::BottomRight => true,
        Corner::TopLeft | Corner::BottomLeft => false,
    };
    let bottom: bool = match corner {
        Corner::BottomLeft | Corner::BottomRight => true,
        Corner::TopLeft | Corner::TopRight => false,
    };
    let cx = if right {
        p.x.plus(p.width)
    } else {
        p.x
    };
    let cy = if bottom {
        p.y.plus(p.height)
    } else {
        p.y
    };
    let dx = at.x.minus(cx);
    let dy = at.y.minus(cy);
    dx.times(dx).plus(dy.times(dy)).at_most(reach.times(reach))
}

fn find_handle(placements: &Vec<Placement>, at: Point, reach: Double) -> (res: Option<(usize, Corner)>)
    ensures
        res == handle_from(placements@, at, reach, 0),
        res matches Some(hit) ==> hit.0 < placements.len(),
{
    let mut i: usize = 0;
    while i < placements.len()
        invariant
            i <= placements.len(),
            handle_from(placements@, at, reach, 0) == handle_from(placements@, at, reach, i as nat),
        decreases placements.len() - i,
    {
        let p = placements[i];
        if is_grabbed(p, Corner::TopLeft, at, reach) {
            return Some((i, Corner::TopLeft));
        }
        if is_grabbed(p, Corner::TopRight, at, reach) {
            return Some((i, Corner::TopRight));
        }
        if is_grabbed(p, Corner::BottomLeft, at, reach) {
            return Some((i, Corner::BottomLeft));
        }
        if is_grabbed(p, Corner::BottomRight, at, reach) {
            return Some((i, Corner::BottomRight));
        }
        i = i + 1;
    }
    None
}

fn find_insertion(placements: &Vec<Placement>, x: Double) -> (res: usize)
    ensures
        res == insertion_from(placements@, x, 0),
        res <= placements.len(),
{
    let mut i: usize = 0;
    while i < placements.len()
        invariant
            i <= placements.len(),
            insertion_from(placements@, x, 0) == insertion_from(placements@, x, i as nat),
        decreases placements.len() - i,
    {
        let p = placements[i];
        if x.less(p.x.plus(p.width.over(Double::from_int(2)))) {
            return i;
        }
        i = i + 1;
    }
    i
}

/// The document with the transform at a position replaced, where there is one.
pub open spec fn with_transform_at(doc: DocumentView, index: usize, t: Transform) -> DocumentView {
    if index < doc.elements.len() {
        DocumentView {
            elements: doc.elements.update(
                index as int,
                ScreenshotElementView { transform: t, ..doc.elements[index as int] },
            ),
            ..doc
        }
    } else {
        doc
    }
}

fn put_transform(document: &mut Document, index: usize, t: Transform)
    ensures
        final(document)@ == with_transform_at(old(document)@, index, t),
{
    if index < document.elements.len() {
        let ghost before = document.elements@;
        document.elements[index].transform = t;
        proof {
            assert(views(document.elements@) =~= views(before).update(index as int, document.elements@[index as int]@));
        }
    }
}

/// The transform moved to another place.
pub open spec fn moved_to(t: Transform, x: Double, y: Double) -> Transform {
    Transform { x, y, ..t }
}

/// Where a dragged coordinate ends up.
pub open spec fn dragged(origin: Double, now: Double, start: Double) -> Double {
    sum(origin, diff(now, start))
}

/// The state after a press at a point of the widget.
pub open spec fn begun(v: CanvasView, width: i32, height: i32, x: Double, y: Double) -> CanvasView {
    match document_point(v, width, height, x, y) {
        None => v,
        Some(at) => if v.document.layout.mode == LayoutMode::Free {
            match handle_at(v, at) {
                Some((i, corner)) => CanvasView {
                    drag: DragState {
                        from: Some(i),
                        resizing: Some(
                            ResizeDragOrigin {
                                corner,
                                original: v.document.elements[i as int].transform,
                                start: at,
                            },
                        ),
                        ..v.drag
                    },
                    ..v
                },
                None => match hit_from(v.placements, at, 0) {
                    Some(i) => {
                        let t = v.document.elements[i as int].transform;
                        CanvasView {
                            drag: DragState {
                                from: Some(i),
                                moving: Some(FreeDragOrigin { start: at, origin: Point { x: t.x, y: t.y } }),
                                ..v.drag
                            },
                            ..v
                        }
                    },
                    None => CanvasView { drag: DragState { from: None, ..v.drag }, ..v },
                },
            }
        } else {
            let hit = hit_from(v.placements, at, 0);
            CanvasView { drag: DragState { from: hit, hover: hit, ..v.drag }, ..v }
        },
    }
}

/// The state after the pointer of a drag has moved, and whether to draw anew.
pub open spec fn updated(v: CanvasView, width: i32, height: i32, x: Double, y: Double) -> (CanvasView, bool) {
    let point = document_point(v, width, height, x, y);
    match (v.drag.resizing, v.drag.moving, v.drag.from, point) {
        (Some(r), _, Some(i), Some(at)) => (
            CanvasView {
                document: with_transform_at(
                    v.document,
                    i,
                    resized(r.original, r.corner, diff(at.x, r.start.x), diff(at.y, r.start.y)),
                ),
                dirty: true,
                ..v
            },
            true,
        ),
        (None, Some(m), Some(i), Some(at)) => (
            CanvasView {
                document: with_transform_at(
                    v.document,
                    i,
                    moved_to(
                        v.document.elements[i as int].transform,
                        dragged(m.origin.x, at.x, m.start.x),
                        dragged(m.origin.y, at.y, m.start.y),
                    ),
                ),
                dirty: true,
                ..v
            },
            true,
        ),
        (None, None, Some(_), Some(at)) => (
            CanvasView {
                drag: DragState { hover: Some(insertion_from(v.placements, at.x, 0)), ..v.drag },
                ..v
            },
            true,
        ),
        _ => (v, false),
    }
}

/// What a finished drag stands for.
#[derive(Clone, Copy, Debug, PartialEq)]
pub enum DragOutcome {
    Resize { index: usize, transform: Transform },
    Move { index: usize, x: Double, y: Double },
    Reorder { from: usize, to: usize },
}

/// The position among the others of one that was dropped before the position
/// `insertion` of the list it is still in.
pub open spec fn position_among_others(from: usize, insertion: usize) -> usize {
    if insertion > from {
        (insertion - 1) as usize
    } else {
        insertion
    }
}

/// The state after a drag was finished, and what the drag stands for. A drag
/// that ends where it began stands for nothing.
pub open spec fn ended(v: CanvasView, width: i32, height: i32, x: Double, y: Double) -> (CanvasView, Option<DragOutcome>) {
    let point = document_point(v, width, height, x, y);
    match (v.drag.resizing, v.drag.moving) {
        (Some(r), _) => (
            CanvasView { drag: DragState { from: None, resizing: None, ..v.drag }, ..v },
            match (v.drag.from, point) {
                (Some(index), Some(at)) => {
                    let t = resized(r.original, r.corner, diff(at.x, r.start.x), diff(at.y, r.start.y));
                    if same_transform(t, r.original) {
                        None
                    } else {
                        Some(DragOutcome::Resize { index, transform: t })
                    }
                },
                _ => None,
            },
        ),
        (None, Some(m)) => (
            CanvasView { drag: DragState { from: None, moving: None, ..v.drag }, ..v },
            match (v.drag.from, point) {
                (Some(index), Some(at)) => {
                    let nx = dragged(m.origin.x, at.x, m.start.x);
                    let ny = dragged(m.origin.y, at.y, m.start.y);
                    if same(nx, m.origin.x) && same(ny, m.origin.y) {
                        None
                    } else {
                        Some(DragOutcome::Move { index, x: nx, y: ny })
                    }
                },
                _ => None,
            },
        ),
        (None, None) => match v.drag.from {
            None => (v, None),
            Some(from) => {
                let insertion = match point {
                    Some(at) => insertion_from(v.placements, at.x, 0),
                    None => from,
                };
                let to = position_among_others(from, insertion);
                (
                    CanvasView { drag: DragState { from: None, hover: None, ..v.drag }, ..v },
                    if to == from {
                        None
                    } else {
                        Some(DragOutcome::Reorder { from, to })
                    },
                )
            },
        },
    }
}

/// The state after a drag was given up: what it moved or resized is put back.
pub open spec fn cancelled(v: CanvasView) -> CanvasView {
    let idle = CanvasView { drag: no_drag(), ..v };
    match (v.drag.from, v.drag.resizing, v.drag.moving) {
        (Some(i), Some(r), _) => CanvasView {
            document: with_transform_at(v.document, i, r.original),
            dirty: true,
            ..idle
        },
        (Some(i), None, Some(m)) => CanvasView {
            document: with_transform_at(
                v.document,
                i,
                moved_to(v.document.elements[i as int].transform, m.origin.x, m.origin.y),
            ),
            dirty: true,
            ..idle
        },
        _ => idle,
    }
}

impl CanvasState {
    pub fn new(document: Document) -> (res: CanvasState)
        ensures
            res@ == (CanvasView {
                document: document@,
                rendered: None,
                dirty: true,
                zoom: None,
                placements: Seq::empty(),
                scale: int_double(1),
                drag: no_drag(),
            }),
    {
        CanvasState {
            document,
            rendered: None,
            dirty: true,
            zoom: None,
            placements: Vec::new(),
            scale: Double::one(),
            drag: DragState { from: None, hover: None, moving: None, resizing: None },
        }
    }

    /// Replaces the document. The next drawing renders it.
    pub fn set_document(&mut self, document: Document)
        ensures
            final(self)@ == (CanvasView { document: document@, dirty: true, ..old(self)@ }),
    {
        self.document = document;
        self.dirty = true;
    }

    /// Fixes the scale, or fits the document to the widget again.
    pub fn set_zoom(&mut self, zoom: Option<Double>)
        ensures
            final(self)@ == (CanvasView { zoom, dirty: true, ..old(self)@ }),
    {
        self.zoom = zoom;
        self.dirty = true;
    }

    pub fn zoom(&self) -> (res: Option<Double>)
        ensures
            res == self@.zoom,
    {
        self.zoom
    }

    /// The width or height that the preview asks for at a fixed scale.
    pub fn measure(&self, horizontal: bool) -> (res: Option<i32>)
        ensures
            res == match self@.zoom {
                Some(zoom) => Some(
                    pixels_at(
                        if horizontal {
                            self@.document.canvas.export_width
                        } else {
                            self@.document.canvas.export_height
                        },
                        zoom,
                    ),
                ),
                None => None,
            },
    {
        match self.zoom {
            Some(zoom) => {
                let side: i64 = if horizontal {
                    self.document.canvas.export_width as i64
                } else {
                    self.document.canvas.export_height as i64
                };
                Some(to_pixels(Double::from_int(side).times(zoom)))
            },
            None => None,
        }
    }

    /// The rendering that is due in a widget of a size, if any.
    pub fn due(&self, width: i32, height: i32) -> (res: Option<RenderRequest>)
        ensures
            res == due_rendering(self@, width, height),
    {
        let canvas = self.document.canvas;
        if canvas.export_width == 0 || canvas.export_height == 0 {
            return None;
        }
        let doc_w = Double::from_int(canvas.export_width as i64);
        let doc_h = Double::from_int(canvas.export_height as i64);
        let scale = match self.zoom {
            Some(zoom) => zoom.max(Double::ratio(1, 100)),
            None => Double::from_int(width as i64).over(doc_w).min(Double::from_int(height as i64).over(doc_h)).max(
                Double::ratio(1, 1000),
            ),
        };
        let w: i32 = to_pixels(doc_w.times(scale));
        let h: i32 = to_pixels(doc_h.times(scale));
        let holds: bool = match self.rendered {
            Some((rw, rh)) => rw == w && rh == h,
            None => false,
        };
        if !self.dirty && holds {
            None
        } else {
            Some(RenderRequest { scale, width: w, height: h })
        }
    }

    /// Notes that a rendering was made: hit tests then go by it.
    pub fn ensure_rendered(&mut self, request: RenderRequest)
        ensures
            final(self)@ == (CanvasView {
                rendered: Some((request.width, request.height)),
                dirty: false,
                placements: current_layout(old(self)@.document),
                scale: request.scale,
                ..old(self)@
            }),
    {
        self.placements = placements_of(&self.document);
        self.scale = request.scale;
        self.rendered = Some((request.width, request.height));
        self.dirty = false;
    }

    /// Where a point of the widget lies in the document.
    pub fn widget_to_document(&self, width: i32, height: i32, x: Double, y: Double) -> (res: Option<Point>)
        ensures
            res == document_point(self@, width, height, x, y),
    {
        if self.scale.at_most(Double::zero()) {
            return None;
        }
        match self.rendered {
            Some((w, h)) => {
                let two = Double::from_int(2);
                let ox = Double::from_int(width as i64).minus(Double::from_int(w as i64)).over(two);
                let oy = Double::from_int(height as i64).minus(Double::from_int(h as i64)).over(two);
                Some(Point { x: x.minus(ox).over(self.scale), y: y.minus(oy).over(self.scale) })
            },
            None => None,
        }
    }

    /// The screenshot at a point of the document.
    pub fn element_index_at(&self, at: Point) -> (res: Option<usize>)
        ensures
            res == hit_from(self@.placements, at, 0),
            res matches Some(i) ==> i < self@.placements.len(),
    {
        find_hit(&self.placements, at)
    }

    /// The screenshot and the corner whose handle is at a point of the
    /// document.
    pub fn corner_handle_at(&self, at: Point) -> (res: Option<(usize, Corner)>)
        ensures
            res == handle_at(self@, at),
            res matches Some(hit) ==> hit.0 < self@.placements.len(),
    {
        if self.scale.at_most(Double::zero()) {
            return None;
        }
        find_handle(&self.placements, at, Double::from_int(HANDLE_HIT_RADIUS_PX).over(self.scale))
    }

    /// Before which placement a horizontal position of the document lies.
    pub fn insertion_index_at(&self, x: Double) -> (res: usize)
        ensures
            res == insertion_from(self@.placements, x, 0),
            res <= self@.placements.len(),
    {
        find_insertion(&self.placements, x)
    }

    /// The screenshot under a click, if there is one.
    pub fn on_secondary_click(&self, width: i32, height: i32, x: Double, y: Double) -> (res: Option<usize>)
        ensures
            res == match document_point(self@, width, height, x, y) {
                Some(at) => hit_from(self@.placements, at, 0),
                None => None,
            },
    {
        match self.widget_to_document(width, height, x, y) {
            Some(at) => self.element_index_at(at),
            None => None,
        }
    }

    /// Starts a drag at a point of the widget: a resize at a corner handle, a
    /// move of a screenshot, or, where the layout places the screenshots, a
    /// reorder.
    pub fn on_drag_begin(&mut self, width: i32, height: i32, x: Double, y: Double)
        requires
            old(self)@.document.layout.mode == LayoutMode::Free ==> old(self)@.placements.len() <= old(
                self,
            )@.document.elements.len(),
        ensures
            final(self)@ == begun(old(self)@, width, height, x, y),
    {
        let at = match self.widget_to_document(width, height, x, y) {
            Some(at) => at,
            None => {
                return;
            },
        };
        let is_free: bool = match self.document.layout.mode {
            LayoutMode::Free => true,
            _ => false,
        };
        if is_free {
            match self.corner_handle_at(at) {
                Some((i, corner)) => {
                    let original = self.document.elements[i].transform;
                    self.drag.from = Some(i);
                    self.drag.resizing = Some(ResizeDragOrigin { corner, original, start: at });
                },
                None => {
                    let hit = self.element_index_at(at);
                    self.drag.from = hit;
                    match hit {
                        Some(i) => {
                            let t = self.document.elements[i].transform;
                            self.drag.moving = Some(
                                FreeDragOrigin { start: at, origin: Point { x: t.x, y: t.y } },
                            );
                        },
                        None => {},
                    }
                },
            }
        } else {
            let hit = self.element_index_at(at);
            self.drag.from = hit;
            self.drag.hover = hit;
        }
    }

    /// Follows the pointer of a drag. `true` asks for a drawing.
    pub fn on_drag_update(&mut self, width: i32, height: i32, x: Double, y: Double) -> (res: bool)
        ensures
            (final(self)@, res) == updated(old(self)@, width, height, x, y),
    {
        let point = self.widget_to_document(width, height, x, y);
        match (self.drag.resizing, self.drag.moving, self.drag.from, point) {
            (Some(r), _, Some(i), Some(at)) => {
                let t = r.original.resized_from_corner(r.corner, at.x.minus(r.start.x), at.y.minus(r.start.y));
                put_transform(&mut self.document, i, t);
                self.dirty = true;
                true
            },
            (None, Some(m), Some(i), Some(at)) => {
                if i < self.document.elements.len() {
                    let mut t = self.document.elements[i].transform;
                    t.x = m.origin.x.plus(at.x.minus(m.start.x));
                    t.y = m.origin.y.plus(at.y.minus(m.start.y));
                    put_transform(&mut self.document, i, t);
                }
                self.dirty = true;
                true
            },
            (None, None, Some(_), Some(at)) => {
                self.drag.hover = Some(self.insertion_index_at(at.x));
                true
            },
            _ => false,
        }
    }

    /// Finishes a drag.
    pub fn on_drag_end(&mut self, width: i32, height: i32, x: Double, y: Double) -> (res: Option<DragOutcome>)
        ensures
            (final(self)@, res) == ended(old(self)@, width, height, x, y),
    {
        let point = self.widget_to_document(width, height, x, y);
        let from = self.drag.from;
        match (self.drag.resizing, self.drag.moving) {
            (Some(r), _) => {
                self.drag.from = None;
                self.drag.resizing = None;
                match (from, point) {
                    (Some(index), Some(at)) => {
                        let t = r.original.resized_from_corner(
                            r.corner,
                            at.x.minus(r.start.x),
                            at.y.minus(r.start.y),
                        );
                        if transforms_equal(t, r.original) {
                            None
                        } else {
                            Some(DragOutcome::Resize { index, transform: t })
                        }
                    },
                    _ => None,
                }
            },
            (None, Some(m)) => {
                self.drag.from = None;
                self.drag.moving = None;
                match (from, point) {
                    (Some(index), Some(at)) => {
                        let nx = m.origin.x.plus(at.x.minus(m.start.x));
                        let ny = m.origin.y.plus(at.y.minus(m.start.y));
                        if nx.equals(m.origin.x) && ny.equals(m.origin.y) {
                            None
                        } else {
                            Some(DragOutcome::Move { index, x: nx, y: ny })
                        }
                    },
                    _ => None,
                }
            },
            (None, None) => match from {
                None => None,
                Some(from) => {
                    let insertion: usize = match point {
                        Some(at) => self.insertion_index_at(at.x),
                        None => from,
                    };
                    self.drag.from = None;
                    self.drag.hover = None;
                    let to: usize = if insertion > from {
                        insertion - 1
                    } else {
                        insertion
                    };
                    if to == from {
                        None
                    } else {
                        Some(DragOutcome::Reorder { from, to })
                    }
                },
            },
        }
    }

    /// Gives up a drag and puts back what it moved or resized.
    pub fn cancel_drag(&mut self)
        ensures
            final(self)@ == cancelled(old(self)@),
    {
        match (self.drag.from, self.drag.resizing, self.drag.moving) {
            (Some(i), Some(r), _) => {
                put_transform(&mut self.document, i, r.original);
                self.dirty = true;
            },
            (Some(i), None, Some(m)) => {
                if i < self.document.elements.len() {
                    let mut t = self.document.elements[i].transform;
                    t.x = m.origin.x;
                    t.y = m.origin.y;
                    put_transform(&mut self.document, i, t);
                }
                self.dirty = true;
            },
            _ => {},
        }
        self.drag = DragState { from: None, hover: None, moving: None, resizing: None };
    }
}

// ---------------------------------------------------------------------------
// What is drawn over the composition
// ---------------------------------------------------------------------------

/// The horizontal position, in the document, of the line that shows where a
/// reordered screenshot would go: before the placement it points at, or behind
/// the last one.
pub open spec fn hover_position(placements: Seq<Placement>, hover: usize) -> Double {
    if hover < placements.len() {
        placements[hover as int].x
    } else if placements.len() > 0 {
        sum(placements.last().x, placements.last().width)
    } else {
        int_double(0)
    }
}

/// A corner handle's square on the screen.
#[derive(Clone, Copy, Debug, PartialEq)]
pub struct HandleSquare {
    pub x: Double,
    pub y: Double,
    pub side: Double,
}

pub open spec fn handle_square(p: Placement, corner: Corner, offset: Point, scale: Double) -> HandleSquare {
    let c = corner_point(p, corner);
    let h = int_double(HANDLE_DRAW_HALF_PX as int);
    HandleSquare {
        x: diff(drawn_at(offset.x, c.x, scale), h),
        y: diff(drawn_at(offset.y, c.y, scale), h),
        side: prod(h, int_double(2)),
    }
}

impl CanvasState {
    /// Where the composition is drawn in the widget.
    pub fn drawing_offset(&self, width: i32, height: i32) -> (res: Option<Point>)
        ensures
            res == match self@.rendered {
                Some((w, h)) => Some(
                    Point { x: drawn_offset(width, w), y: drawn_offset(height, h) },
                ),
                None => None,
            },
    {
        match self.rendered {
            Some((w, h)) => {
                let two = Double::from_int(2);
                Some(
                    Point {
                        x: Double::from_int(width as i64).minus(Double::from_int(w as i64)).over(two),
                        y: Double::from_int(height as i64).minus(Double::from_int(h as i64)).over(two),
                    },
                )
            },
            None => None,
        }
    }

    /// Where the insertion line of a reorder goes in the widget, if one is
    /// under way.
    pub fn hover_line(&self, offset: Point) -> (res: Option<Double>)
        ensures
            res == match self@.drag.hover {
                Some(hover) => Some(
                    drawn_at(offset.x, hover_position(self@.placements, hover), self@.scale),
                ),
                None => None,
            },
    {
        match self.drag.hover {
            Some(hover) => {
                let x = if hover < self.placements.len() {
                    self.placements[hover].x
                } else if self.placements.len() > 0 {
                    let last = self.placements[self.placements.len() - 1];
                    last.x.plus(last.width)
                } else {
                    Double::zero()
                };
                Some(offset.x.plus(x.times(self.scale)))
            },
            None => None,
        }
    }

    /// The corner handles to draw: four for each screenshot in free
    /// positioning, none otherwise.
    pub fn handles(&self, offset: Point) -> (res: Vec<HandleSquare>)
        ensures
            self@.document.layout.mode != LayoutMode::Free ==> res.len() == 0,
            self@.document.layout.mode == LayoutMode::Free ==> {
                &&& res.len() == 4 * self@.placements.len()
                &&& forall|i: int|
                    #![trigger self@.placements[i]]
                    0 <= i < self@.placements.len() ==> {
                        let p = self@.placements[i];
                        &&& res[4 * i] == handle_square(p, Corner::TopLeft, offset, self@.scale)
                        &&& res[4 * i + 1] == handle_square(p, Corner::TopRight, offset, self@.scale)
                        &&& res[4 * i + 2] == handle_square(p, Corner::BottomLeft, offset, self@.scale)
                        &&& res[4 * i + 3] == handle_square(p, Corner::BottomRight, offset, self@.scale)
                    }
            },
    {
        let mut res: Vec<HandleSquare> = Vec::new();
        match self.document.layout.mode {
            LayoutMode::Free => {},
            _ => {
                return res;
            },
        }
        let h = Double::from_int(HANDLE_DRAW_HALF_PX);
        let side = h.times(Double::from_int(2));
        let mut i: usize = 0;
        while i < self.placements.len()
            invariant
                i <= self.placements.len(),
                h == int_double(HANDLE_DRAW_HALF_PX as int),
                side == prod(h, int_double(2)),
                res.len() == 4 * i,
                forall|k: int|
                    #![trigger self@.placements[k]]
                    0 <= k < i ==> {
                        let p = self@.placements[k];
                        &&& res[4 * k] == handle_square(p, Corner::TopLeft, offset, self@.scale)
                        &&& res[4 * k + 1] == handle_square(p, Corner::TopRight, offset, self@.scale)
                        &&& res[4 * k + 2] == handle_square(p, Corner::BottomLeft, offset, self@.scale)
                        &&& res[4 * k + 3] == handle_square(p, Corner::BottomRight, offset, self@.scale)
                    },
            decreases self.placements.len() - i,
        {
            let p = self.placements[i];
            let left = offset.x.plus(p.x.times(self.scale)).minus(h);
            let right = offset.x.plus(p.x.plus(p.width).times(self.scale)).minus(h);
            let top = offset.y.plus(p.y.times(self.scale)).minus(h);
            let bottom = offset.y.plus(p.y.plus(p.height).times(self.scale)).minus(h);
            res.push(HandleSquare { x: left, y: top, side });
            res.push(HandleSquare { x: right, y: top, side });
            res.push(HandleSquare { x: left, y: bottom, side });
            res.push(HandleSquare { x: right, y: bottom, side });
            i = i + 1;
        }
        res
    }
}

// ---------------------------------------------------------------------------
// Laws
// ---------------------------------------------------------------------------

/// Whether a state is a free drag that began on a document: nothing differs
/// from it but the transform that is dragged, and the drag holds what that
/// was.
pub open spec fn drag_began_on(v: CanvasView, before: DocumentView) -> bool {
    match (v.drag.from, v.drag.resizing, v.drag.moving) {
        (Some(i), Some(r), _) => {
            &&& i < before.elements.len()
            &&& r.original == before.elements[i as int].transform
            &&& exists|t: Transform| v.document == #[trigger] with_transform_at(before, i, t)
        },
        (Some(i), None, Some(m)) => {
            let t = before.elements[i as int].transform;
            &&& i < before.elements.len()
            &&& m.origin == (Point { x: t.x, y: t.y })
            &&& exists|x: Double, y: Double| v.document == with_transform_at(before, i, #[trigger] moved_to(t, x, y))
        },
        _ => v.document == before,
    }
}

/// A press starts a drag on the document as it is, from an idle state.
pub proof fn law_press_starts_a_drag_on_the_document(v: CanvasView, width: i32, height: i32, x: Double, y: Double)
    requires
        v.placements.len() <= v.document.elements.len() <= usize::MAX,
        v.drag == no_drag(),
    ensures
        drag_began_on(begun(v, width, height, x, y), v.document),
{
    let doc = v.document;
    match document_point(v, width, height, x, y) {
        None => {},
        Some(at) => {
            lemma_hits_in_range(v.placements, at, handle_reach(v.scale), 0);
            let after = begun(v, width, height, x, y);
            if after.drag.resizing is Some {
                let i = after.drag.from->0;
                let t = doc.elements[i as int].transform;
                assert(with_transform_at(doc, i, t).elements =~= doc.elements);
                assert(doc == with_transform_at(doc, i, t));
            } else if after.drag.moving is Some {
                let i = after.drag.from->0;
                let t = doc.elements[i as int].transform;
                assert(moved_to(t, t.x, t.y) == t);
                assert(with_transform_at(doc, i, t).elements =~= doc.elements);
                assert(doc == with_transform_at(doc, i, moved_to(t, t.x, t.y)));
            }
        },
    }
}

proof fn lemma_hits_in_range(placements: Seq<Placement>, at: Point, reach: Double, i: nat)
    requires
        placements.len() <= usize::MAX,
    ensures
        hit_from(placements, at, i) matches Some(k) ==> k < placements.len(),
        handle_from(placements, at, reach, i) matches Some(hit) ==> hit.0 < placements.len(),
    decreases placements.len() - i,
{
    if i < placements.len() {
        lemma_hits_in_range(placements, at, reach, i + 1);
    }
}

/// However a free drag moves, it stays a drag on the document that it began
/// on.
pub proof fn law_dragging_touches_only_what_is_dragged(v: CanvasView, before: DocumentView, width: i32, height: i32, x: Double, y: Double)
    requires
        drag_began_on(v, before),
    ensures
        drag_began_on(updated(v, width, height, x, y).0, before),
{
    let after = updated(v, width, height, x, y).0;
    match (v.drag.resizing, v.drag.moving, v.drag.from, document_point(v, width, height, x, y)) {
        (Some(r), _, Some(i), Some(at)) => {
            let t = resized(r.original, r.corner, diff(at.x, r.start.x), diff(at.y, r.start.y));
            let s = choose|s: Transform| v.document == #[trigger] with_transform_at(before, i, s);
            assert(after.document.elements =~= with_transform_at(before, i, t).elements);
            assert(after.document == with_transform_at(before, i, t));
        },
        (None, Some(m), Some(i), Some(at)) => {
            let t = before.elements[i as int].transform;
            let (nx, ny) = (dragged(m.origin.x, at.x, m.start.x), dragged(m.origin.y, at.y, m.start.y));
            let (sx, sy) = choose|sx: Double, sy: Double|
                v.document == with_transform_at(before, i, #[trigger] moved_to(t, sx, sy));
            assert(moved_to(moved_to(t, sx, sy), nx, ny) == moved_to(t, nx, ny));
            assert(after.document.elements =~= with_transform_at(before, i, moved_to(t, nx, ny)).elements);
            assert(after.document == with_transform_at(before, i, moved_to(t, nx, ny)));
        },
        _ => {},
    }
}

/// Giving up a drag restores the document that it began on, and leaves no drag
/// under way.
pub proof fn law_cancel_restores_the_document(v: CanvasView, before: DocumentView)
    requires
        drag_began_on(v, before),
    ensures
        cancelled(v).document == before,
        cancelled(v).drag == no_drag(),
{
    match (v.drag.from, v.drag.resizing, v.drag.moving) {
        (Some(i), Some(r), _) => {
            let s = choose|s: Transform| v.document == #[trigger] with_transform_at(before, i, s);
            assert(cancelled(v).document.elements =~= before.elements);
        },
        (Some(i), None, Some(m)) => {
            let t = before.elements[i as int].transform;
            let (sx, sy) = choose|sx: Double, sy: Double|
                v.document == with_transform_at(before, i, #[trigger] moved_to(t, sx, sy));
            assert(moved_to(moved_to(t, sx, sy), t.x, t.y) == t);
            assert(cancelled(v).document.elements =~= before.elements);
        },
        _ => {},
    }
}

/// A reorder that comes out of a drag is a proper one: both positions are
/// those of screenshots, and they differ.
pub proof fn law_reorders_are_proper(v: CanvasView, width: i32, height: i32, x: Double, y: Double)
    requires
        v.placements.len() <= usize::MAX,
        v.drag.from matches Some(i) ==> i < v.placements.len(),
    ensures
        ended(v, width, height, x, y).1 matches Some(DragOutcome::Reorder { from, to }) ==> from < v.placements.len()
            && to < v.placements.len() && from != to,
{
    match document_point(v, width, height, x, y) {
        Some(at) => lemma_insertion_in_range(v.placements, at.x, 0),
        None => {},
    }
}

proof fn lemma_insertion_in_range(placements: Seq<Placement>, x: Double, i: nat)
    requires
        placements.len() <= usize::MAX,
    ensures
        insertion_from(placements, x, i) <= placements.len(),
    decreases placements.len() - i,
{
    if i < placements.len() {
        lemma_insertion_in_range(placements, x, i + 1);
    }
}

// ---------------------------------------------------------------------------
// Zoom
// ---------------------------------------------------------------------------

/// One step closer, but no further than eightfold. A fitted preview counts as
/// full size.
pub open spec fn zoomed_in(zoom: Option<Double>) -> Double {
    smaller(
        prod(
            match zoom {
                Some(z) => z,
                None => int_double(1),
            },
            ratio(5, 4),
        ),
        int_double(8),
    )
}

/// One step away, but no further than a tenth.
pub open spec fn zoomed_out(zoom: Option<Double>) -> Double {
    larger(
        quot(
            match zoom {
                Some(z) => z,
                None => int_double(1),
            },
            ratio(5, 4),
        ),
        ratio(1, 10),
    )
}

impl CanvasState {
    pub fn zoom_in(&mut self)
        ensures
            final(self)@ == (CanvasView { zoom: Some(zoomed_in(old(self)@.zoom)), dirty: true, ..old(self)@ }),
    {
        let current = match self.zoom {
            Some(z) => z,
            None => Double::one(),
        };
        self.set_zoom(Some(current.times(Double::ratio(5, 4)).min(Double::from_int(8))));
    }

    pub fn zoom_out(&mut self)
        ensures
            final(self)@ == (CanvasView { zoom: Some(zoomed_out(old(self)@.zoom)), dirty: true, ..old(self)@ }),
    {
        let current = match self.zoom {
            Some(z) => z,
            None => Double::one(),
        };
        self.set_zoom(Some(current.over(Double::ratio(5, 4)).max(Double::ratio(1, 10))));
    }
}

proof fn lemma_step_grows()
    ensures
        ratio(5, 4).finite(),
        !ratio(5, 4).neg(),
        ratio(5, 4).mag() >= one_unit(),
{
    reveal(quot);
    let u = one_unit();
    lemma_pow2_pos(UNIT_EXP as nat);
    lemma_int_double_exact(5);
    lemma_int_double_exact(4);
    lemma_int_double_exact(1);
    lemma_int_double_exact(2);
    let (top, bottom) = ((5 * u) * u, 4 * u);
    assert(u * bottom <= top * 1 && top * 1 <= (2 * u) * bottom && bottom > 0 && top > 0) by (nonlinear_arith)
        requires
            top == (5 * u) * u,
            bottom == 4 * u,
            u > 0,
    ;
    lemma_round_monotone(u, 1, top, bottom);
    lemma_round_monotone(top, bottom, 2 * u, 1);
    lemma_round_bounded(top, bottom);
    lemma_round_bounded(u, 1);
    lemma_round_bounded(2 * u, 1);
    assert(1 * u == u);
    assert(int_double(1).low() == round_low(u, 1));
    assert(int_double(2).low() == round_low(2 * u, 1));
    lemma_mag_ordered(round_low(u, 1), round_low(top, bottom));
}

proof fn lemma_steps(z: Double)
    requires
        z.finite(),
        !z.neg(),
    ensures
        le(z, prod(z, ratio(5, 4))),
        le(quot(z, ratio(5, 4)), z),
{
    lemma_step_grows();
    let u = one_unit();
    let step = ratio(5, 4);
    lemma_pow2_pos(UNIT_EXP as nat);
    let (m, s) = (z.mag(), step.mag());
    assert(m * u <= (m * s) * 1 && (m * u) * 1 <= m * s) by (nonlinear_arith)
        requires
            s >= u,
            m >= 0,
            u > 0,
    ;
    lemma_round_monotone(m, 1, m * s, u);
    lemma_round_monotone(m * u, s, m, 1);
    lemma_round_exact(z.low());
    lemma_round_bounded(m * s, u);
    lemma_round_bounded(m * u, s);
    lemma_mag_ordered(z.low(), round_low(m * s, u));
    lemma_mag_ordered(round_low(m * u, s), z.low());
    lemma_mag_ordered(0, z.low());
    assert(prod(z, step) == signed(false, round_low(m * s, u))) by {
        reveal(prod);
    }
    assert(le(quot(z, step), z)) by {
        reveal(quot);
    }
}

/// Zooming moves the scale the right way, and within the range from a tenth
/// to eightfold it stays there.
pub proof fn law_zoom_stays_in_range(z: Double)
    requires
        le(ratio(1, 10), z),
        le(z, int_double(8)),
    ensures
        le(z, zoomed_in(Some(z))),
        le(zoomed_in(Some(z)), int_double(8)),
        le(zoomed_out(Some(z)), z),
        le(ratio(1, 10), zoomed_out(Some(z))),
{
    lemma_int_double_exact(8);
    lemma_fraction(1, 10);
    lemma_mag_ordered(z.low(), int_double(8).low());
    assert(z.finite());
    lemma_steps(z);
}

} // verus!
