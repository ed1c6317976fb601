use screenforge::canvas::{CanvasState, DragOutcome, RenderRequest};
use screenforge::double::Double;
use screenforge::generator::Point;
use screenforge::layout::fit_canvas_to_content;
use screenforge::model::{Corner, Document, ImageSource, LayoutMode, ScreenshotElement};
use std::path::PathBuf;

fn num(v: f64) -> Double {
    Double::from_bits(v.to_bits())
}

fn at(x: f64, y: f64) -> Point {
    Point { x: num(x), y: num(y) }
}

fn screenshot(width: f64, height: f64) -> ScreenshotElement {
    ScreenshotElement::new(ImageSource::Path(PathBuf::from("a.png")), num(width), num(height))
}

/// Three screenshots of 100 by 100 in a row, 20 apart, with a margin of 10.
fn row() -> CanvasState {
    let mut doc = Document::new();
    doc.layout.spacing_px = num(20.0);
    doc.layout.margin_px = num(10.0);
    for _ in 0..3 {
        doc.elements.push(screenshot(100.0, 100.0));
    }
    fit_canvas_to_content(&mut doc);
    rendered(doc)
}

/// One freely placed screenshot of 100 by 50 at (200, 100).
fn free() -> CanvasState {
    let mut doc = Document::new();
    doc.layout.mode = LayoutMode::Free;
    let mut e = screenshot(100.0, 50.0);
    e.transform.x = num(200.0);
    e.transform.y = num(100.0);
    e.transform.width = num(100.0);
    e.transform.height = num(50.0);
    e.transform.aspect_locked = false;
    doc.elements.push(e);
    rendered(doc)
}

fn rendered(doc: Document) -> CanvasState {
    let (w, h) = (doc.canvas.export_width as i32, doc.canvas.export_height as i32);
    let mut canvas = CanvasState::new(doc);
    canvas.ensure_rendered(RenderRequest { scale: num(1.0), width: w, height: h });
    canvas
}

fn size(canvas: &CanvasState) -> (i32, i32) {
    canvas.rendered.unwrap()
}

#[test]
fn a_preview_is_fitted_to_its_widget() {
    let mut doc = Document::new();
    doc.canvas.export_width = 1000;
    doc.canvas.export_height = 500;
    let mut canvas = CanvasState::new(doc);
    let due = canvas.due(500, 400).unwrap();
    assert_eq!(due, RenderRequest { scale: num(0.5), width: 500, height: 250 });
    canvas.ensure_rendered(due);
    assert_eq!(canvas.due(500, 400), None);
    assert!(canvas.due(500, 100).is_some());
    canvas.set_zoom(Some(num(2.0)));
    assert_eq!(canvas.due(500, 400).unwrap().width, 2000);
    assert_eq!((canvas.measure(true), canvas.measure(false)), (Some(2000), Some(1000)));
}

#[test]
fn a_canvas_without_an_extent_is_not_rendered() {
    let mut doc = Document::new();
    doc.canvas.export_width = 0;
    let canvas = CanvasState::new(doc);
    assert_eq!(canvas.due(100, 100), None);
    assert_eq!(canvas.widget_to_document(100, 100, num(1.0), num(1.0)), None);
    assert_eq!(canvas.measure(true), None);
}

#[test]
fn a_point_of_the_widget_is_taken_into_the_document() {
    let canvas = row();
    let (w, h) = size(&canvas);
    assert_eq!((w, h), (360, 120));
    assert_eq!(canvas.widget_to_document(w + 40, h + 20, num(30.0), num(30.0)), Some(at(10.0, 20.0)));
    assert_eq!(canvas.drawing_offset(w + 40, h + 20), Some(at(20.0, 10.0)));
}

#[test]
fn hits_include_the_edges_and_insertions_go_by_the_middle() {
    let canvas = row();
    assert_eq!(canvas.element_index_at(at(10.0, 10.0)), Some(0));
    assert_eq!(canvas.element_index_at(at(110.0, 110.0)), Some(0));
    assert_eq!(canvas.element_index_at(at(120.0, 50.0)), None);
    assert_eq!(canvas.element_index_at(at(130.0, 50.0)), Some(1));
    assert_eq!(canvas.insertion_index_at(num(59.0)), 0);
    assert_eq!(canvas.insertion_index_at(num(60.0)), 1);
    assert_eq!(canvas.insertion_index_at(num(9999.0)), 3);
    let (w, h) = size(&canvas);
    assert_eq!(canvas.on_secondary_click(w, h, num(50.0), num(50.0)), Some(0));
    assert_eq!(canvas.on_secondary_click(w, h, num(120.0), num(50.0)), None);
}

#[test]
fn a_corner_is_grabbed_within_ten_pixels() {
    let canvas = free();
    assert_eq!(canvas.corner_handle_at(at(206.0, 108.0)), Some((0, Corner::TopLeft)));
    assert_eq!(canvas.corner_handle_at(at(300.0, 150.0)), Some((0, Corner::BottomRight)));
    assert_eq!(canvas.corner_handle_at(at(300.0, 95.0)), Some((0, Corner::TopRight)));
    assert_eq!(canvas.corner_handle_at(at(195.0, 150.0)), Some((0, Corner::BottomLeft)));
    assert_eq!(canvas.corner_handle_at(at(208.0, 108.0)), None);
}

#[test]
fn dragging_along_a_row_reorders() {
    let mut canvas = row();
    let (w, h) = size(&canvas);
    canvas.on_drag_begin(w, h, num(50.0), num(50.0));
    assert!(canvas.on_drag_update(w, h, num(290.0), num(50.0)));
    assert_eq!(canvas.drag.hover, Some(2));
    assert_eq!(canvas.hover_line(at(5.0, 0.0)), Some(num(255.0)));
    let outcome = canvas.on_drag_end(w, h, num(355.0), num(50.0));
    assert_eq!(outcome, Some(DragOutcome::Reorder { from: 0, to: 2 }));
    assert_eq!(canvas.drag.from, None);
    assert_eq!(canvas.hover_line(at(0.0, 0.0)), None);
}

#[test]
fn a_drop_at_the_own_place_is_no_reorder() {
    let mut canvas = row();
    let (w, h) = size(&canvas);
    canvas.on_drag_begin(w, h, num(50.0), num(50.0));
    assert_eq!(canvas.on_drag_end(w, h, num(100.0), num(50.0)), None);
    assert_eq!(canvas.on_drag_end(w, h, num(100.0), num(50.0)), None);
}

#[test]
fn dragging_a_free_screenshot_moves_it() {
    let mut canvas = free();
    let (w, h) = size(&canvas);
    canvas.on_drag_begin(w, h, num(250.0), num(125.0));
    assert!(canvas.on_drag_update(w, h, num(260.0), num(120.0)));
    assert_eq!(canvas.document.elements[0].transform.x, num(210.0));
    assert_eq!(canvas.document.elements[0].transform.y, num(95.0));
    let outcome = canvas.on_drag_end(w, h, num(270.0), num(125.0));
    assert_eq!(outcome, Some(DragOutcome::Move { index: 0, x: num(220.0), y: num(100.0) }));
}

#[test]
fn dragging_a_corner_resizes() {
    let mut canvas = free();
    let (w, h) = size(&canvas);
    let original = canvas.document.elements[0].transform;
    canvas.on_drag_begin(w, h, num(300.0), num(150.0));
    canvas.on_drag_update(w, h, num(330.0), num(160.0));
    assert_eq!(canvas.document.elements[0].transform.width, num(130.0));
    let outcome = canvas.on_drag_end(w, h, num(330.0), num(160.0));
    let expected = original.resized_from_corner(Corner::BottomRight, num(30.0), num(10.0));
    assert_eq!(outcome, Some(DragOutcome::Resize { index: 0, transform: expected }));
}

#[test]
fn giving_up_a_drag_restores_the_document() {
    for (x, y) in [(300.0, 150.0), (250.0, 125.0)] {
        let mut canvas = free();
        let (w, h) = size(&canvas);
        let original = canvas.document.elements[0].transform;
        canvas.on_drag_begin(w, h, num(x), num(y));
        canvas.on_drag_update(w, h, num(x + 40.0), num(y - 7.0));
        canvas.on_drag_update(w, h, num(x - 4.0), num(y + 70.0));
        assert_ne!(canvas.document.elements[0].transform, original);
        canvas.cancel_drag();
        assert_eq!(canvas.document.elements[0].transform, original);
        assert_eq!((canvas.drag.from, canvas.drag.moving, canvas.drag.resizing), (None, None, None));
    }
}

#[test]
fn handles_are_drawn_for_free_screenshots_only() {
    let squares = free().handles(at(1.0, 2.0));
    assert_eq!(squares.len(), 4);
    assert_eq!((squares[0].x, squares[0].y, squares[0].side), (num(196.0), num(97.0), num(10.0)));
    assert_eq!((squares[3].x, squares[3].y), (num(296.0), num(147.0)));
    assert!(row().handles(at(0.0, 0.0)).is_empty());
}

#[test]
fn zooming_steps_within_its_range() {
    let mut canvas = row();
    canvas.zoom_in();
    assert_eq!(canvas.zoom(), Some(num(1.25)));
    canvas.zoom_out();
    assert_eq!(canvas.zoom(), Some(num(1.0)));
    for _ in 0..40 {
        canvas.zoom_in();
    }
    assert_eq!(canvas.zoom(), Some(num(8.0)));
    for _ in 0..40 {
        canvas.zoom_out();
    }
    assert_eq!(canvas.zoom(), Some(num(0.1)));
}
