use screenforge::double::Double;
use screenforge::generator::Point;
use screenforge::model::{
    Background, BackgroundImageFit, CanvasSettings, CornerRadius, Document, GradientKind, ImageBackgroundSpec,
    ImageSource, Rgba, ScreenshotElement, ShadowParams, TextElement, TextPosition,
};
use screenforge::render::{
    compose, draw_text_element, draws_text, lay_image, paint_gradient, plan_shadow, rounded_rect_path, shadow_pad, text_setting,
    BackgroundPlan, GradientShape, ImageLayout, ImageSize, RenderError,
};
use std::path::PathBuf;

fn num(v: f64) -> Double {
    Double::from_bits(v.to_bits())
}

fn val(v: Double) -> f64 {
    f64::from_bits(v.bits)
}

fn screenshot(width: f64, height: f64) -> ScreenshotElement {
    ScreenshotElement::new(ImageSource::Path(PathBuf::from("a.png")), num(width), num(height))
}

fn sizes(doc: &Document) -> Vec<ImageSize> {
    doc.elements
        .iter()
        .map(|e| ImageSize { id: e.id, width: val(e.natural_width) as i32, height: val(e.natural_height) as i32 })
        .collect()
}

#[test]
fn missing_decoded_image_is_reported_as_an_error() {
    let mut doc = Document::new();
    doc.elements.push(screenshot(100.0, 100.0));
    let id = doc.elements[0].id;
    assert_eq!(compose(&doc, num(1.0), &[], None).unwrap_err(), RenderError::MissingImage(id));
}

#[test]
fn image_background_without_a_decoded_surface_is_an_error() {
    let mut doc = Document::new();
    doc.background = Background::Image(ImageBackgroundSpec {
        source: ImageSource::Path(PathBuf::from("bg.png")),
        fit: BackgroundImageFit::Cover,
        opacity: num(1.0),
    });
    assert_eq!(compose(&doc, num(1.0), &[], None).unwrap_err(), RenderError::MissingBackgroundImage);
    assert!(compose(&doc, num(1.0), &[], Some((4, 4))).is_ok());
}

#[test]
fn a_solid_background_is_planned_as_its_color() {
    let mut doc = Document::new();
    doc.canvas = CanvasSettings { export_width: 200, export_height: 100, ..CanvasSettings::default() };
    let color = Rgba::new(num(0.2), num(0.4), num(0.6), num(1.0));
    doc.background = Background::Solid(color);
    let plan = compose(&doc, num(1.0), &[], None).unwrap();
    assert_eq!(plan.background, BackgroundPlan::Solid(color));
    assert!(plan.elements.is_empty());
    assert!(!plan.title);
}

#[test]
fn two_elements_are_planned_side_by_side() {
    let mut doc = Document::new();
    doc.layout.spacing_px = num(10.0);
    doc.layout.margin_px = num(5.0);
    doc.elements.push(screenshot(50.0, 50.0));
    doc.elements.push(screenshot(50.0, 50.0));
    let plan = compose(&doc, num(1.0), &sizes(&doc), None).unwrap();
    assert_eq!(plan.elements.len(), 2);
    assert_eq!(plan.elements[0].middle, Point { x: num(30.0), y: num(30.0) });
    assert_eq!(plan.elements[1].middle, Point { x: num(90.0), y: num(30.0) });
    assert_eq!(plan.elements[0].corner, Point { x: num(-25.0), y: num(-25.0) });
    assert_eq!(plan.elements[0].image_scale_x, num(1.0));
}

#[test]
fn a_hidden_screenshot_is_not_drawn_and_needs_no_image() {
    let mut doc = Document::new();
    doc.elements.push(screenshot(50.0, 50.0));
    doc.elements[0].visible = false;
    let plan = compose(&doc, num(1.0), &[], None).unwrap();
    assert!(plan.elements.is_empty());
}

#[test]
fn a_flipped_screenshot_is_moved_by_its_side_before_it_is_mirrored() {
    let mut doc = Document::new();
    doc.elements.push(screenshot(40.0, 20.0));
    let plain = compose(&doc, num(1.0), &sizes(&doc), None).unwrap();
    assert_eq!((plain.elements[0].flip_x, plain.elements[0].flip_y), (None, None));
    doc.elements[0].transform.flip_horizontal = true;
    doc.elements[0].transform.flip_vertical = true;
    doc.elements[0].transform.rotation_deg = num(180.0);
    let flipped = compose(&doc, num(1.0), &sizes(&doc), None).unwrap();
    assert_eq!(flipped.elements[0].flip_x, Some(num(40.0)));
    assert_eq!(flipped.elements[0].flip_y, Some(num(20.0)));
    assert_eq!(val(flipped.elements[0].rotation), 180.0f64.to_radians());
}

#[test]
fn cover_and_contain_center_the_image_at_one_scale() {
    let (w, h) = (num(100.0), num(50.0));
    let place = |x: f64, y: f64, sx: f64, sy: f64| ImageLayout::Placed {
        x: num(x),
        y: num(y),
        scale_x: num(sx),
        scale_y: num(sy),
    };
    assert_eq!(lay_image(BackgroundImageFit::Cover, w, h, num(10.0), num(10.0)), place(0.0, -25.0, 10.0, 10.0));
    assert_eq!(lay_image(BackgroundImageFit::Contain, w, h, num(10.0), num(10.0)), place(25.0, 0.0, 5.0, 5.0));
    assert_eq!(lay_image(BackgroundImageFit::Fill, w, h, num(10.0), num(10.0)), place(0.0, 0.0, 10.0, 5.0));
    assert_eq!(lay_image(BackgroundImageFit::Tile, w, h, num(10.0), num(10.0)), ImageLayout::Tiled);
}

#[test]
fn gradients_run_by_angle_or_from_their_center() {
    let linear = paint_gradient(GradientKind::Linear { angle_deg: num(90.0) }, num(10.0), num(20.0));
    assert_eq!(linear, GradientShape::Linear { angle: num(90.0f64.to_radians()) });
    let radial =
        paint_gradient(GradientKind::Radial { center_x: num(0.5), center_y: num(0.25) }, num(10.0), num(20.0));
    assert_eq!(radial, GradientShape::Radial { x: num(5.0), y: num(5.0), radius: num(10.0) });
}

#[test]
fn corner_radii_are_cut_to_half_of_the_shorter_side() {
    let path = rounded_rect_path(num(100.0), num(40.0), &CornerRadius::uniform(num(30.0)));
    assert_eq!(path.top_left.radius, num(20.0));
    assert_eq!((path.bottom_right.x, path.bottom_right.y), (num(80.0), num(20.0)));
    let sharp = rounded_rect_path(num(100.0), num(40.0), &CornerRadius::uniform(num(-3.0)));
    assert_eq!(sharp.top_right.radius, num(0.0));
}

#[test]
fn a_shadow_is_padded_for_its_blur_and_moved_by_its_offset() {
    let shadow = ShadowParams { blur: num(10.0), offset_x: num(3.0), ..ShadowParams::standard() };
    let plan = plan_shadow(num(100.0), num(50.0), &shadow, num(1.0));
    assert_eq!(plan.pad, 34);
    assert_eq!((plan.surface_width, plan.surface_height), (168, 118));
    assert_eq!(plan.blur_radius, Some(num(10.0)));
    assert_eq!((plan.paint_x, plan.paint_y), (num(-31.0), num(-28.0)));
    assert_eq!(plan.alpha, num(0.25));
    let sharp = plan_shadow(num(100.0), num(50.0), &ShadowParams { blur: num(0.0), ..shadow }, num(1.0));
    assert_eq!(sharp.blur_radius, None);
    assert_eq!(sharp.pad, 4);
}

#[test]
fn a_very_large_shadow_bitmap_is_rendered_smaller() {
    let shadow = ShadowParams { blur: num(0.0), ..ShadowParams::standard() };
    let plan = plan_shadow(num(20000.0), num(10000.0), &shadow, num(2.0));
    assert!(plan.surface_width <= 4096 + 1 + 8);
    assert!(val(plan.render_scale) < 2.0);
    assert_eq!(val(plan.paint_scale), 1.0 / val(plan.render_scale));
}

#[test]
fn only_an_enabled_text_with_content_is_drawn() {
    let mut text = TextElement::title_default();
    assert!(!draws_text(&text));
    text.enabled = true;
    assert!(!draws_text(&text));
    text.content = "x".to_string();
    assert!(draws_text(&text));
    text.enabled = false;
    assert!(!draws_text(&text));
}

#[test]
fn a_text_box_surrounds_its_lines_and_follows_its_position() {
    let mut text = TextElement::title_default();
    text.content = "Title".to_string();
    assert_eq!(draw_text_element(&text, num(400.0), num(300.0), 100, 20, num(1.0)), None);
    text.enabled = true;
    let small = draw_text_element(&text, num(400.0), num(300.0), 100, 20, num(1.0)).unwrap();
    assert_eq!((small.width, small.height), (num(132.0), num(52.0)));
    assert_eq!((small.x, small.y), (num(134.0), num(32.0)));
    assert_eq!(small.alpha, num(1.0));
    assert_eq!(small.shadow, None);
    let large = draw_text_element(&text, num(800.0), num(300.0), 100, 20, num(1.0)).unwrap();
    assert_eq!(large.x, num(334.0));
    text.position = TextPosition::Absolute { x: num(7.0), y: num(9.0) };
    text.typography.opacity = num(0.5);
    text.shadow = ShadowParams::subtle();
    let fixed = draw_text_element(&text, num(800.0), num(300.0), 100, 20, num(1.0)).unwrap();
    assert_eq!((fixed.x, fixed.y, fixed.alpha), (num(7.0), num(9.0), num(0.5)));
    assert!(fixed.shadow.is_some());
}

#[test]
fn a_text_is_set_in_the_units_of_the_text_engine() {
    let mut text = TextElement::title_default();
    let plain = text_setting(&text, num(100.0));
    assert_eq!(plain.font_size, num(32.0 * 1024.0));
    assert_eq!(plain.line_spacing, num(1.2));
    assert_eq!((plain.letter_spacing, plain.wrap_width), (None, None));
    text.typography.letter_spacing = num(-0.5);
    text.typography.wrap = true;
    text.typography.font_size = num(0.0);
    let set = text_setting(&text, num(100.0));
    assert_eq!(set.letter_spacing, Some(-512));
    assert_eq!(set.wrap_width, Some(36 * 1024));
    assert_eq!(set.font_size, num(0.1 * 1024.0));
}

#[test]
fn preview_and_export_draw_the_same() {
    let mut doc = Document::new();
    doc.elements.push(screenshot(300.0, 200.0));
    doc.elements[0].shadow = ShadowParams::standard();
    doc.elements[0].transform.flip_vertical = true;
    doc.elements[0].corner_radius = CornerRadius::uniform(num(12.0));
    let mut preview = compose(&doc, num(0.25), &sizes(&doc), None).unwrap();
    let full = compose(&doc, num(2.0), &sizes(&doc), None).unwrap();
    assert_ne!(preview.elements[0].shadow, full.elements[0].shadow);
    preview.elements[0].shadow = full.elements[0].shadow;
    assert_eq!(preview, full);
}

#[test]
fn a_shadow_bitmap_takes_a_pixel_more_than_the_greatest_at_most() {
    for (width, height, scale) in [(1e300, 3.0, 1e5), (5000.3, 4999.9, 1.7), (4096.0, 0.5, 1.0), (3.1e-300, 2.0, 1e9)] {
        let plan = plan_shadow(num(width), num(height), &ShadowParams::strong(), num(scale));
        let most = 4097 + 2 * plan.pad as i64;
        assert!(plan.surface_width <= most && plan.surface_height <= most, "{plan:?}");
    }
}

#[test]
fn a_shadow_margin_holds_what_the_blur_spreads() {
    assert_eq!(shadow_pad(num(10.0), num(0.5)), 19);
    for blur in [-3.0, 0.0, 0.4, 0.5, 2.5, 16.0, 40.0, 1e6] {
        let radius = f64::round(blur) as i32;
        assert!(3 * radius < shadow_pad(num(blur), num(1.0)), "blur {blur}");
    }
}
