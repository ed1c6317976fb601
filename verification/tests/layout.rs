use screenforge::double::Double;
use screenforge::layout::{
    compute_free_layout, compute_grid_layout, compute_horizontal_layout, compute_layout, compute_vertical_layout,
    extent_for, fit_canvas_to_content,
};
use screenforge::model::{Document, ImageSource, LayoutMode, ScreenshotElement};
use std::path::PathBuf;

fn num(v: f64) -> Double {
    Double::from_bits(v.to_bits())
}

fn val(v: Double) -> f64 {
    f64::from_bits(v.bits)
}

fn fixture(natural_width: f64, natural_height: f64) -> ScreenshotElement {
    ScreenshotElement::new(
        ImageSource::Path(PathBuf::from("test.png")),
        num(natural_width),
        num(natural_height),
    )
}

#[test]
fn empty_input_produces_no_placements() {
    assert_eq!(compute_horizontal_layout(&[], num(24.0), num(48.0)), Vec::new());
}

#[test]
fn single_element_is_offset_by_margin_only() {
    let elements = [fixture(400.0, 800.0)];
    let placements = compute_horizontal_layout(&elements, num(24.0), num(48.0));
    assert_eq!(placements.len(), 1);
    assert_eq!(placements[0].x, num(48.0));
    assert_eq!(placements[0].y, num(48.0));
    assert_eq!(placements[0].width, num(400.0));
    assert_eq!(placements[0].height, num(800.0));
}

#[test]
fn equal_height_elements_are_spaced_evenly_with_no_rescale() {
    let elements = [fixture(400.0, 800.0), fixture(400.0, 800.0), fixture(400.0, 800.0)];
    let placements = compute_horizontal_layout(&elements, num(20.0), num(0.0));
    assert_eq!(placements[0].x, num(0.0));
    assert_eq!(placements[1].x, num(420.0));
    assert_eq!(placements[2].x, num(840.0));
    for p in &placements {
        assert_eq!(p.height, num(800.0));
        assert_eq!(p.width, num(400.0));
        assert_eq!(p.y, num(0.0));
    }
}

#[test]
fn differing_heights_are_scaled_to_the_smallest() {
    let elements = [fixture(400.0, 800.0), fixture(300.0, 900.0)];
    let placements = compute_horizontal_layout(&elements, num(0.0), num(0.0));
    assert_eq!(placements[0].height, num(800.0));
    assert_eq!(placements[0].width, num(400.0));
    assert_eq!(placements[1].height, num(800.0));
    assert!((val(placements[1].width) - 266.666_666_67).abs() < 1e-6);
    assert_eq!(placements[1].x, placements[0].width);
}

#[test]
fn zero_spacing_and_margin_are_respected() {
    let elements = [fixture(100.0, 100.0), fixture(100.0, 100.0)];
    let placements = compute_horizontal_layout(&elements, num(0.0), num(0.0));
    assert_eq!(placements[0].x, num(0.0));
    assert_eq!(placements[1].x, num(100.0));
}

#[test]
fn extent_accounts_for_trailing_margin() {
    let elements = [fixture(400.0, 800.0), fixture(400.0, 800.0)];
    let placements = compute_horizontal_layout(&elements, num(20.0), num(48.0));
    let extent = extent_for(&placements, num(48.0));
    assert_eq!(extent.width, num(48.0 + 400.0 + 20.0 + 400.0 + 48.0));
    assert_eq!(extent.height, num(48.0 + 800.0 + 48.0));
}

#[test]
fn vertical_layout_stacks_top_to_bottom_scaled_to_common_width() {
    let elements = [fixture(400.0, 800.0), fixture(200.0, 300.0)];
    let placements = compute_vertical_layout(&elements, num(10.0), num(5.0));

    assert_eq!(placements[0].x, num(5.0));
    assert_eq!(placements[0].y, num(5.0));
    assert_eq!(placements[0].width, num(200.0));
    assert_eq!(placements[0].height, num(400.0));

    assert_eq!(placements[1].x, num(5.0));
    assert_eq!(placements[1].y, num(415.0));
    assert_eq!(placements[1].width, num(200.0));
    assert_eq!(placements[1].height, num(300.0));
}

#[test]
fn vertical_layout_of_empty_input_is_empty() {
    assert_eq!(compute_vertical_layout(&[], num(10.0), num(5.0)), Vec::new());
}

#[test]
fn grid_layout_wraps_after_ceil_sqrt_n_columns() {
    let elements = [fixture(100.0, 100.0), fixture(100.0, 100.0), fixture(100.0, 100.0), fixture(100.0, 100.0)];
    let placements = compute_grid_layout(&elements, num(10.0), num(0.0));

    assert_eq!(placements[0].x, num(0.0));
    assert_eq!(placements[0].y, num(0.0));
    assert_eq!(placements[1].x, num(110.0));
    assert_eq!(placements[1].y, num(0.0));
    assert_eq!(placements[2].x, num(0.0));
    assert_eq!(placements[2].y, num(110.0));
    assert_eq!(placements[3].x, num(110.0));
    assert_eq!(placements[3].y, num(110.0));
}

#[test]
fn grid_layout_scales_each_row_to_a_common_height() {
    let elements = [fixture(100.0, 100.0), fixture(50.0, 50.0), fixture(100.0, 100.0)];
    let placements = compute_grid_layout(&elements, num(0.0), num(0.0));
    for p in &placements {
        assert_eq!(p.height, num(50.0));
    }
}

#[test]
fn grid_layout_of_empty_input_is_empty() {
    assert_eq!(compute_grid_layout(&[], num(10.0), num(5.0)), Vec::new());
}

#[test]
fn each_mode_uses_its_own_layout() {
    let elements = [fixture(100.0, 100.0), fixture(100.0, 100.0)];
    let (s, m) = (num(10.0), num(5.0));
    assert_eq!(compute_layout(LayoutMode::Horizontal, &elements, s, m), compute_horizontal_layout(&elements, s, m));
    assert_eq!(compute_layout(LayoutMode::Vertical, &elements, s, m), compute_vertical_layout(&elements, s, m));
    assert_eq!(compute_layout(LayoutMode::Grid, &elements, s, m), compute_grid_layout(&elements, s, m));
    assert_ne!(compute_horizontal_layout(&elements, s, m), compute_vertical_layout(&elements, s, m));
}

#[test]
fn free_layout_follows_the_transforms() {
    let mut e = fixture(100.0, 100.0);
    e.transform.x = num(7.0);
    e.transform.y = num(8.0);
    e.transform.width = num(30.0);
    e.transform.height = num(40.0);
    let placements = compute_free_layout(&[e]);
    assert_eq!(placements.len(), 1);
    assert_eq!((placements[0].x, placements[0].y), (num(7.0), num(8.0)));
    assert_eq!((placements[0].width, placements[0].height), (num(30.0), num(40.0)));
}

#[test]
fn fitting_covers_the_visible_screenshots_and_is_stable() {
    let mut doc = Document::new();
    doc.elements.push(fixture(1080.0, 2424.0));
    fit_canvas_to_content(&mut doc);
    assert_eq!((doc.canvas.export_width, doc.canvas.export_height), (1080 + 96, 2424 + 96));
    let once = doc.canvas;
    fit_canvas_to_content(&mut doc);
    assert_eq!(doc.canvas, once);
    doc.elements[0].visible = false;
    doc.elements.push(fixture(10.0, 10.0));
    fit_canvas_to_content(&mut doc);
    assert_eq!((doc.canvas.export_width, doc.canvas.export_height), (106, 106));
    doc.elements[1].visible = false;
    fit_canvas_to_content(&mut doc);
    assert_eq!((doc.canvas.export_width, doc.canvas.export_height), (106, 106));
}

#[test]
fn a_fractional_extent_is_rounded_up() {
    let mut doc = Document::new();
    doc.layout.margin_px = num(0.25);
    doc.elements.push(fixture(10.0, 20.0));
    fit_canvas_to_content(&mut doc);
    assert_eq!((doc.canvas.export_width, doc.canvas.export_height), (11, 21));
}
