use screenforge::blur::box_blur;
use screenforge::double::Double;
use screenforge::generator::gradient_line;
use screenforge::layout::visible_elements;
use screenforge::model::{
    Background, BackgroundImageFit, CanvasSettings, CornerRadius, Document, GradientKind, GradientSpec,
    HorizontalAnchor, ImageBackgroundSpec, ImageSource, LayoutMode, LayoutSettings, Rgba, ScreenshotElement,
    ShadowParams, TextBackground, TextElement, TextPosition, Typography, VerticalAnchor,
};
use screenforge::render::{
    compose, draw_text_element, rounded_rect_path, BackgroundPlan, GradientShape, ImageLayout, ImageSize,
    RenderError, RoundedRect, ShadowPlan, TextBox,
};
use screenforge::shadow_cache::{ShadowCache, MAX_SHADOW_SURFACE_DIM};
use std::collections::HashMap;
use std::path::PathBuf;

fn num(v: f64) -> Double {
    Double::from_bits(v.to_bits())
}

fn val(v: Double) -> f64 {
    f64::from_bits(v.bits)
}

fn rgba(r: f64, g: f64, b: f64, a: f64) -> Rgba {
    Rgba::new(num(r), num(g), num(b), num(a))
}

type Color = [f64; 4];

fn color_of(c: Rgba) -> Color {
    [val(c.r), val(c.g), val(c.b), val(c.a)]
}

/// A picture of straight colors.
struct Picture {
    width: i32,
    height: i32,
    pixels: Vec<Color>,
}

impl Picture {
    fn new(width: i32, height: i32) -> Picture {
        Picture { width, height, pixels: vec![[0.0; 4]; (width * height) as usize] }
    }

    fn solid(width: i32, height: i32, color: Rgba) -> Picture {
        Picture { width, height, pixels: vec![color_of(color); (width * height) as usize] }
    }

    fn split(width: i32, height: i32, left: Rgba, right: Rgba) -> Picture {
        let mut picture = Picture::solid(width, height, left);
        for y in 0..height {
            for x in width / 2..width {
                picture.pixels[(y * width + x) as usize] = color_of(right);
            }
        }
        picture
    }

    /// The color at a point, or none outside.
    fn at(&self, x: f64, y: f64) -> Option<Color> {
        let (x, y) = (x.floor(), y.floor());
        if x < 0.0 || y < 0.0 || x >= self.width as f64 || y >= self.height as f64 {
            return None;
        }
        Some(self.pixels[y as usize * self.width as usize + x as usize])
    }

    fn read(&self, x: i32, y: i32) -> (f64, f64, f64, f64) {
        let c = self.pixels[(y * self.width + x) as usize];
        if c[3] == 0.0 {
            (0.0, 0.0, 0.0, 0.0)
        } else {
            (c[0], c[1], c[2], c[3])
        }
    }
}

fn over(top: Color, bottom: Color) -> Color {
    let alpha = top[3] + bottom[3] * (1.0 - top[3]);
    if alpha == 0.0 {
        return [0.0; 4];
    }
    let mix = |i: usize| (top[i] * top[3] + bottom[i] * bottom[3] * (1.0 - top[3])) / alpha;
    [mix(0), mix(1), mix(2), alpha]
}

fn faded(c: Color, alpha: f64) -> Color {
    [c[0], c[1], c[2], c[3] * alpha]
}

/// Whether a point lies in a rounded box.
fn inside(outline: &RoundedRect, width: f64, height: f64, x: f64, y: f64) -> bool {
    if x < 0.0 || y < 0.0 || x >= width || y >= height {
        return false;
    }
    let near = |ax: f64, ay: f64, r: f64| (x - ax).hypot(y - ay) <= r;
    let (tl, tr) = (outline.top_left, outline.top_right);
    let (bl, br) = (outline.bottom_left, outline.bottom_right);
    if x < val(tl.x) && y < val(tl.y) {
        near(val(tl.x), val(tl.y), val(tl.radius))
    } else if x > val(tr.x) && y < val(tr.y) {
        near(val(tr.x), val(tr.y), val(tr.radius))
    } else if x < val(bl.x) && y > val(bl.y) {
        near(val(bl.x), val(bl.y), val(bl.radius))
    } else if x > val(br.x) && y > val(br.y) {
        near(val(br.x), val(br.y), val(br.radius))
    } else {
        true
    }
}

/// The bitmap of a shadow.
fn shadow_bitmap(width: Double, height: Double, radius: &CornerRadius, shadow: &ShadowParams, plan: &ShadowPlan) -> Picture {
    let (w, h) = (plan.surface_width as i32, plan.surface_height as i32);
    let outline = rounded_rect_path(width, height, radius);
    let mut bytes = vec![0u8; (w * h * 4) as usize];
    for y in 0..h {
        for x in 0..w {
            let sx = (x as f64 + 0.5 - plan.pad as f64) / val(plan.render_scale);
            let sy = (y as f64 + 0.5 - plan.pad as f64) / val(plan.render_scale);
            if inside(&outline, val(width), val(height), sx, sy) {
                bytes[((y * w + x) * 4 + 3) as usize] = (val(plan.alpha) * 255.0).round() as u8;
            }
        }
    }
    if let Some(blur) = plan.blur_radius {
        box_blur(&mut bytes, w, h, 4 * w, blur);
    }
    let c = color_of(shadow.color);
    let pixels = bytes.chunks(4).map(|p| [c[0], c[1], c[2], p[3] as f64 / 255.0]).collect();
    Picture { width: w, height: h, pixels }
}

fn background_at(plan: &BackgroundPlan, width: f64, height: f64, image: Option<&Picture>, x: f64, y: f64) -> Color {
    match plan {
        BackgroundPlan::Solid(c) => color_of(*c),
        BackgroundPlan::Gradient { shape: GradientShape::Linear { angle }, stops } => {
            let angle = val(*angle);
            let (from, to) = gradient_line(num(width), num(height), num(angle.cos()), num(angle.sin()));
            let (dx, dy) = (val(to.x) - val(from.x), val(to.y) - val(from.y));
            let t = ((x - val(from.x)) * dx + (y - val(from.y)) * dy) / (dx * dx + dy * dy);
            let (first, last) = (color_of(stops[0].1), color_of(stops[1].1));
            let mix = |i: usize| first[i] + (last[i] - first[i]) * t.clamp(0.0, 1.0);
            [mix(0), mix(1), mix(2), mix(3)]
        }
        BackgroundPlan::Image { layout: Some(ImageLayout::Placed { x: at_x, y: at_y, scale_x, scale_y }), opacity } => {
            let found = image.unwrap().at((x - val(*at_x)) / val(*scale_x), (y - val(*at_y)) / val(*scale_y));
            faded(found.unwrap_or([0.0; 4]), val(*opacity))
        }
        BackgroundPlan::Image { layout: Some(ImageLayout::Tiled), opacity } => {
            let image = image.unwrap();
            let found = image.at(x.rem_euclid(image.width as f64), y.rem_euclid(image.height as f64));
            faded(found.unwrap_or([0.0; 4]), val(*opacity))
        }
        _ => [0.0; 4],
    }
}

/// Paints the plan of a document, texts aside.
fn paint(
    doc: &Document,
    width: i32,
    height: i32,
    images: &HashMap<u128, Picture>,
    background: Option<&Picture>,
    cache: &mut ShadowCache<Picture>,
) -> Result<Picture, RenderError> {
    cache.begin_frame();
    let sizes: Vec<ImageSize> =
        images.iter().map(|(id, p)| ImageSize { id: *id, width: p.width, height: p.height }).collect();
    let plan = compose(doc, num(1.0), &sizes, background.map(|p| (p.width, p.height)))?;
    let (doc_w, doc_h) = (doc.canvas.export_width as f64, doc.canvas.export_height as f64);
    let mut target = Picture::new(width, height);
    for py in 0..height {
        for px in 0..width {
            let (x, y) = (px as f64 + 0.5, py as f64 + 0.5);
            target.pixels[(py * width + px) as usize] =
                background_at(&plan.background, doc_w, doc_h, background, x, y);
        }
    }
    for (el, p) in visible_elements(&doc.elements).iter().zip(&plan.elements) {
        let bitmap = match &p.shadow {
            Some(shadow) => Some(
                cache
                    .get_or_render(p.width, p.height, &el.corner_radius, &el.shadow, shadow.render_scale, || {
                        Ok::<Picture, RenderError>(shadow_bitmap(
                            p.width,
                            p.height,
                            &el.corner_radius,
                            &el.shadow,
                            shadow,
                        ))
                    })?,
            ),
            None => None,
        };
        let (sine, cosine) = (-val(p.rotation)).sin_cos();
        for py in 0..height {
            for px in 0..width {
                let (dx, dy) = (px as f64 + 0.5 - val(p.middle.x), py as f64 + 0.5 - val(p.middle.y));
                let x = dx * cosine - dy * sine - val(p.corner.x);
                let y = dx * sine + dy * cosine - val(p.corner.y);
                let i = (py * width + px) as usize;
                if let (Some(bitmap), Some(shadow)) = (&bitmap, &p.shadow) {
                    let scale = val(shadow.paint_scale);
                    let found = bitmap.at(x / scale - val(shadow.paint_x), y / scale - val(shadow.paint_y));
                    target.pixels[i] = over(found.unwrap_or([0.0; 4]), target.pixels[i]);
                }
                if inside(&p.outline, val(p.width), val(p.height), x, y) {
                    let u = p.flip_x.map_or(x, |side| val(side) - x);
                    let v = p.flip_y.map_or(y, |side| val(side) - y);
                    let found = images[&p.id].at(u / val(p.image_scale_x), v / val(p.image_scale_y));
                    target.pixels[i] = over(found.unwrap_or([0.0; 4]), target.pixels[i]);
                }
            }
        }
    }
    Ok(target)
}

fn painted(doc: &Document, size: (i32, i32), images: HashMap<u128, Picture>, background: Option<Picture>) -> Picture {
    paint(doc, size.0, size.1, &images, background.as_ref(), &mut ShadowCache::new()).unwrap()
}

fn assert_close(actual: (f64, f64, f64, f64), expected: (f64, f64, f64, f64)) {
    let tol = 0.02;
    assert!((actual.0 - expected.0).abs() < tol, "r: {actual:?} vs {expected:?}");
    assert!((actual.1 - expected.1).abs() < tol, "g: {actual:?} vs {expected:?}");
    assert!((actual.2 - expected.2).abs() < tol, "b: {actual:?} vs {expected:?}");
    assert!((actual.3 - expected.3).abs() < tol, "a: {actual:?} vs {expected:?}");
}

fn screenshot(name: &str, width: f64, height: f64) -> ScreenshotElement {
    ScreenshotElement::new(ImageSource::Path(PathBuf::from(name)), num(width), num(height))
}

fn sized(width: u32, height: u32) -> CanvasSettings {
    CanvasSettings { export_width: width, export_height: height, ..CanvasSettings::default() }
}

fn row(spacing: f64, margin: f64) -> LayoutSettings {
    LayoutSettings { mode: LayoutMode::Horizontal, spacing_px: num(spacing), margin_px: num(margin) }
}

#[test]
fn solid_background_fills_the_canvas() {
    let mut doc = Document::new();
    doc.canvas = sized(200, 100);
    doc.background = Background::Solid(rgba(0.2, 0.4, 0.6, 1.0));
    let target = painted(&doc, (200, 100), HashMap::new(), None);
    assert_close(target.read(5, 5), (0.2, 0.4, 0.6, 1.0));
    assert_close(target.read(195, 95), (0.2, 0.4, 0.6, 1.0));
}

#[test]
fn linear_gradient_background_varies_across_the_canvas() {
    let mut doc = Document::new();
    doc.canvas = sized(200, 100);
    doc.background = Background::Gradient(GradientSpec {
        kind: GradientKind::Linear { angle_deg: num(0.0) },
        stops: vec![(num(0.0), rgba(0.0, 0.0, 0.0, 1.0)), (num(1.0), rgba(1.0, 1.0, 1.0, 1.0))],
    });
    let target = painted(&doc, (200, 100), HashMap::new(), None);
    let left = target.read(2, 50);
    let right = target.read(197, 50);
    assert!(left.0 < 0.3, "left edge should be near black: {left:?}");
    assert!(right.0 > 0.7, "right edge should be near white: {right:?}");
}

#[test]
fn two_elements_are_placed_side_by_side_and_composited() {
    let mut doc = Document::new();
    doc.canvas = sized(300, 200);
    doc.background = Background::Solid(Rgba::white());
    doc.layout = row(10.0, 20.0);
    let (red, blue) = (screenshot("a.png", 100.0, 160.0), screenshot("b.png", 100.0, 160.0));
    let mut images = HashMap::new();
    images.insert(red.id, Picture::solid(100, 160, rgba(1.0, 0.0, 0.0, 1.0)));
    images.insert(blue.id, Picture::solid(100, 160, rgba(0.0, 0.0, 1.0, 1.0)));
    doc.elements = vec![red, blue];
    let target = painted(&doc, (300, 200), images, None);

    // First element: x in [20, 120), y in [20, 180).
    assert_close(target.read(60, 100), (1.0, 0.0, 0.0, 1.0));
    // Second element starts at 120 + 10 = 130.
    assert_close(target.read(160, 100), (0.0, 0.0, 1.0, 1.0));
    // Background is visible in the gap between the two elements.
    assert_close(target.read(122, 100), (1.0, 1.0, 1.0, 1.0));
}

#[test]
fn rounded_corners_clip_the_element_at_the_corner_pixel() {
    let mut doc = Document::new();
    doc.canvas = sized(100, 100);
    doc.background = Background::Solid(Rgba::white());
    doc.layout = row(0.0, 0.0);
    let mut el = screenshot("a.png", 100.0, 100.0);
    el.corner_radius = CornerRadius::uniform(num(20.0));
    let mut images = HashMap::new();
    images.insert(el.id, Picture::solid(100, 100, rgba(0.0, 0.0, 0.0, 1.0)));
    doc.elements = vec![el];
    let target = painted(&doc, (100, 100), images, None);

    // The corner pixel lies outside the rounded box, so the background shows.
    assert_close(target.read(1, 1), (1.0, 1.0, 1.0, 1.0));
    assert_close(target.read(50, 50), (0.0, 0.0, 0.0, 1.0));
}

fn split_element(flipped: bool) -> Picture {
    let mut doc = Document::new();
    doc.canvas = sized(100, 100);
    doc.layout = row(0.0, 0.0);
    let mut el = screenshot("a.png", 100.0, 100.0);
    el.transform.flip_horizontal = flipped;
    let mut images = HashMap::new();
    images.insert(el.id, Picture::split(100, 100, rgba(1.0, 0.0, 0.0, 1.0), rgba(0.0, 0.0, 1.0, 1.0)));
    doc.elements = vec![el];
    painted(&doc, (100, 100), images, None)
}

#[test]
fn flip_horizontal_mirrors_the_element() {
    let target = split_element(true);
    assert_close(target.read(10, 50), (0.0, 0.0, 1.0, 1.0));
    assert_close(target.read(90, 50), (1.0, 0.0, 0.0, 1.0));
}

#[test]
fn no_flip_keeps_original_orientation() {
    let target = split_element(false);
    assert_close(target.read(10, 50), (1.0, 0.0, 0.0, 1.0));
    assert_close(target.read(90, 50), (0.0, 0.0, 1.0, 1.0));
}

fn image_background(fit: BackgroundImageFit, opacity: f64, width: i32, height: i32) -> Picture {
    let mut doc = Document::new();
    doc.canvas = sized(100, 100);
    doc.background = Background::Image(ImageBackgroundSpec {
        source: ImageSource::Path(PathBuf::from("bg.png")),
        fit,
        opacity: num(opacity),
    });
    let background = Picture::solid(width, height, rgba(0.0, 1.0, 0.0, 1.0));
    painted(&doc, (100, 100), HashMap::new(), Some(background))
}

#[test]
fn cover_scales_up_to_fill_the_canvas_with_no_gaps() {
    let target = image_background(BackgroundImageFit::Cover, 1.0, 200, 100);
    assert_close(target.read(1, 1), (0.0, 1.0, 0.0, 1.0));
    assert_close(target.read(98, 98), (0.0, 1.0, 0.0, 1.0));
}

#[test]
fn contain_leaves_letterbox_gaps_transparent() {
    let target = image_background(BackgroundImageFit::Contain, 1.0, 200, 100);
    // Scaled to 100x50, centered: covers y in [25, 75), leaves top/bottom empty.
    assert_close(target.read(50, 50), (0.0, 1.0, 0.0, 1.0));
    assert_close(target.read(50, 5), (0.0, 0.0, 0.0, 0.0));
}

#[test]
fn fill_stretches_to_the_canvas_exactly() {
    let target = image_background(BackgroundImageFit::Fill, 1.0, 200, 100);
    assert_close(target.read(1, 1), (0.0, 1.0, 0.0, 1.0));
    assert_close(target.read(98, 98), (0.0, 1.0, 0.0, 1.0));
}

#[test]
fn tile_repeats_the_image_across_the_canvas() {
    let target = image_background(BackgroundImageFit::Tile, 1.0, 10, 10);
    assert_close(target.read(5, 5), (0.0, 1.0, 0.0, 1.0));
    assert_close(target.read(95, 95), (0.0, 1.0, 0.0, 1.0));
}

#[test]
fn opacity_is_applied_to_the_background_image() {
    let target = image_background(BackgroundImageFit::Fill, 0.5, 100, 100);
    assert_close(target.read(50, 50), (0.0, 1.0, 0.0, 0.5));
}

fn shadow_test_doc(shadow: ShadowParams) -> (Document, HashMap<u128, Picture>) {
    let mut doc = Document::new();
    doc.canvas = sized(200, 200);
    doc.background = Background::Solid(Rgba::white());
    doc.layout = row(0.0, 50.0);
    let mut el = screenshot("a.png", 100.0, 100.0);
    el.shadow = shadow;
    let mut images = HashMap::new();
    images.insert(el.id, Picture::solid(100, 100, rgba(0.0, 1.0, 0.0, 1.0)));
    doc.elements = vec![el];
    (doc, images)
}

fn black_shadow(offset: f64, blur: f64) -> ShadowParams {
    ShadowParams {
        enabled: true,
        offset_x: num(offset),
        offset_y: num(offset),
        blur: num(blur),
        opacity: num(1.0),
        color: rgba(0.0, 0.0, 0.0, 1.0),
    }
}

#[test]
fn shadow_offset_moves_it_away_from_the_element() {
    let (doc, images) = shadow_test_doc(black_shadow(20.0, 0.0));
    let target = painted(&doc, (200, 200), images, None);
    // Element at [50,150)x[50,150), shadow at [70,170)x[70,170).
    assert_close(target.read(160, 160), (0.0, 0.0, 0.0, 1.0));
    assert_close(target.read(100, 100), (0.0, 1.0, 0.0, 1.0));
    assert_close(target.read(190, 190), (1.0, 1.0, 1.0, 1.0));
}

#[test]
fn recomposing_after_a_move_reuses_the_cached_shadow_bitmap() {
    let (mut doc, images) = shadow_test_doc(ShadowParams::standard());
    let mut cache = ShadowCache::new();
    paint(&doc, 200, 200, &images, None, &mut cache).unwrap();
    assert_eq!(cache.len(), 1);

    doc.layout.margin_px = num(65.0);
    paint(&doc, 200, 200, &images, None, &mut cache).unwrap();
    assert_eq!(cache.len(), 1, "moving the element should not have minted a second cached shadow bitmap");
}

#[test]
fn two_elements_with_matching_shadows_share_one_cached_bitmap() {
    let mut doc = Document::new();
    doc.canvas = sized(400, 200);
    doc.background = Background::Solid(Rgba::white());
    doc.layout = row(0.0, 20.0);
    let mut a = screenshot("a.png", 100.0, 100.0);
    a.shadow = ShadowParams::standard();
    let mut b = screenshot("b.png", 100.0, 100.0);
    b.shadow = ShadowParams::standard();
    let mut images = HashMap::new();
    images.insert(a.id, Picture::solid(100, 100, rgba(0.0, 1.0, 0.0, 1.0)));
    images.insert(b.id, Picture::solid(100, 100, rgba(0.0, 0.0, 1.0, 1.0)));
    doc.elements = vec![a, b];

    let mut cache = ShadowCache::new();
    paint(&doc, 400, 200, &images, None, &mut cache).unwrap();
    assert_eq!(cache.len(), 1, "two elements with identical size/shape/shadow should share one cached bitmap");
}

/// The shadow of a huge screenshot, at a scale.
fn huge_shadow(scale: f64) -> ShadowPlan {
    let mut doc = Document::new();
    doc.canvas = sized(20_100, 20_100);
    doc.background = Background::Solid(Rgba::white());
    doc.layout = row(0.0, 50.0);
    let mut el = screenshot("huge.png", 20_000.0, 20_000.0);
    el.shadow = ShadowParams::floating();
    let size = ImageSize { id: el.id, width: 1, height: 1 };
    doc.elements = vec![el];
    let plan = compose(&doc, num(scale), &[size], None).expect("a huge element's shadow must render, not error or abort");
    plan.elements[0].shadow.unwrap()
}

fn assert_bounded(plan: &ShadowPlan) {
    let most = MAX_SHADOW_SURFACE_DIM as i64 + 1 + 2 * plan.pad as i64;
    assert!(plan.surface_width <= most && plan.surface_height <= most, "{plan:?}");
}

#[test]
fn a_very_large_shadowed_screenshot_does_not_blow_up_the_shadow_surface() {
    let plan = huge_shadow(100.0 / 20_100.0);
    assert_bounded(&plan);
    assert_eq!((plan.surface_width, plan.pad), (110, 5));
}

#[test]
fn a_full_resolution_export_of_a_huge_shadowed_screenshot_stays_bounded() {
    let plan = huge_shadow(1.0);
    assert_bounded(&plan);
    assert_eq!((plan.surface_width, plan.pad), (4096 + 2 * 29, 29));
}

#[test]
fn shadow_without_blur_has_a_sharp_edge() {
    let (doc, images) = shadow_test_doc(black_shadow(0.0, 0.0));
    let target = painted(&doc, (200, 200), images, None);
    assert_close(target.read(160, 100), (1.0, 1.0, 1.0, 1.0));
}

#[test]
fn shadow_blur_softens_and_extends_beyond_the_sharp_edge() {
    let (doc, images) = shadow_test_doc(black_shadow(0.0, 15.0));
    let target = painted(&doc, (200, 200), images, None);
    let just_outside = target.read(160, 100);
    assert!(just_outside.0 < 0.99, "expected blur to darken the background past the sharp edge, got {just_outside:?}");
}

fn text_test_doc(title: TextElement) -> Document {
    let mut doc = Document::new();
    doc.canvas = sized(200, 100);
    doc.background = Background::Solid(Rgba::white());
    doc.title = title;
    doc
}

fn absolute_title(enabled: bool, content: &str) -> TextElement {
    TextElement {
        enabled,
        content: content.to_string(),
        position: TextPosition::Absolute { x: num(10.0), y: num(10.0) },
        typography: Typography { font_size: num(24.0), color: Rgba::black(), ..Typography::title_default() },
        ..TextElement::title_default()
    }
}

/// The box of a title whose lines measure `lines`, if it is drawn.
fn title_box(doc: &Document, lines: (i32, i32)) -> Option<TextBox> {
    let (width, height) = (doc.canvas.export_width as f64, doc.canvas.export_height as f64);
    let plan = compose(doc, num(1.0), &[], None).unwrap();
    let frame = draw_text_element(&doc.title, num(width), num(height), lines.0, lines.1, num(1.0));
    assert_eq!(frame.is_some(), plan.title);
    frame
}

/// Whether the lines in a box meet a region.
fn lines_meet(frame: &TextBox, x0: f64, y0: f64, x1: f64, y1: f64) -> bool {
    let pad = val(frame.padding);
    let (left, top) = (val(frame.x) + pad, val(frame.y) + pad);
    let (right, bottom) = (val(frame.x) + val(frame.width) - pad, val(frame.y) + val(frame.height) - pad);
    left < x1 && right > x0 && top < y1 && bottom > y0
}

#[test]
fn disabled_title_draws_nothing() {
    let doc = text_test_doc(absolute_title(false, "Hallo"));
    assert!(title_box(&doc, (70, 30)).is_none(), "a disabled title should draw no ink at all");
}

#[test]
fn empty_content_draws_nothing_even_when_enabled() {
    let doc = text_test_doc(absolute_title(true, ""));
    assert!(title_box(&doc, (0, 30)).is_none(), "empty content should draw no ink");
}

#[test]
fn enabled_title_draws_ink_near_its_position() {
    let doc = text_test_doc(absolute_title(true, "Hallo"));
    let frame = title_box(&doc, (70, 30)).unwrap();
    assert!(
        lines_meet(&frame, 5.0, 5.0, 120.0, 45.0),
        "expected the caption's glyphs somewhere near (10, 10)"
    );
    assert!(
        !lines_meet(&frame, 0.0, 60.0, 200.0, 100.0),
        "far from the caption, the background should stay untouched"
    );
}

#[test]
fn semantic_title_position_follows_a_changed_canvas_size() {
    let title = TextElement {
        enabled: true,
        content: "Title".to_string(),
        position: TextPosition::Semantic {
            horizontal: HorizontalAnchor::Center,
            vertical: VerticalAnchor::Top,
            padding: num(4.0),
        },
        typography: Typography { font_size: num(16.0), color: Rgba::black(), ..Typography::title_default() },
        ..TextElement::title_default()
    };
    let mut doc = text_test_doc(title);
    let narrow = title_box(&doc, (40, 20)).unwrap();
    doc.canvas = sized(800, 100);
    let wide = title_box(&doc, (40, 20)).unwrap();
    assert!(
        lines_meet(&narrow, 70.0, 0.0, 130.0, 40.0),
        "expected the centered title near x=100, the 200px canvas's own center"
    );
    assert!(
        !lines_meet(&wide, 70.0, 0.0, 130.0, 40.0),
        "expected the title to have moved away from x=100 once the canvas widened and recentered around x=400"
    );
}

#[test]
fn title_with_a_solid_background_paints_a_filled_box_behind_the_text() {
    let title = TextElement {
        enabled: true,
        content: "Hi".to_string(),
        position: TextPosition::Absolute { x: num(20.0), y: num(20.0) },
        background: TextBackground::Solid(rgba(0.0, 0.0, 1.0, 1.0)),
        background_padding: num(10.0),
        typography: Typography { font_size: num(16.0), color: Rgba::white(), ..Typography::title_default() },
        ..TextElement::title_default()
    };
    let doc = text_test_doc(title);
    let frame = title_box(&doc, (16, 20)).unwrap();
    let outline = rounded_rect_path(frame.width, frame.height, &doc.title.corner_radius);
    let (x, y) = (22.5 - val(frame.x), 22.5 - val(frame.y));
    assert!(inside(&outline, val(frame.width), val(frame.height), x, y));
    assert!(!lines_meet(&frame, 22.0, 22.0, 23.0, 23.0));
}

#[test]
fn screenshot_label_renders_relative_to_its_own_screenshot() {
    let mut doc = Document::new();
    doc.canvas = sized(300, 200);
    doc.background = Background::Solid(Rgba::white());
    doc.layout = row(0.0, 50.0);
    let mut el = screenshot("a.png", 100.0, 100.0);
    el.label = TextElement {
        enabled: true,
        content: "Label".to_string(),
        position: TextPosition::Absolute { x: num(5.0), y: num(5.0) },
        typography: Typography { font_size: num(16.0), color: Rgba::black(), ..Typography::label_default() },
        ..TextElement::label_default()
    };
    let size = ImageSize { id: el.id, width: 100, height: 100 };
    doc.elements = vec![el];
    let plan = compose(&doc, num(1.0), &[size], None).unwrap();
    let p = &plan.elements[0];
    assert!(p.label);
    let mut frame = draw_text_element(&doc.elements[0].label, p.width, p.height, 40, 20, num(1.0)).unwrap();
    // The box goes by the screenshot's own corner.
    frame.x = frame.x.plus(p.middle.x).plus(p.corner.x);
    frame.y = frame.y.plus(p.middle.y).plus(p.corner.y);
    assert!(
        lines_meet(&frame, 50.0, 50.0, 90.0, 80.0),
        "expected the label's glyphs near the screenshot's own top-left"
    );
}

#[test]
fn disabled_screenshot_label_draws_nothing() {
    let mut doc = Document::new();
    doc.canvas = sized(200, 200);
    doc.background = Background::Solid(Rgba::white());
    doc.layout = row(0.0, 50.0);
    let el = screenshot("a.png", 100.0, 100.0);
    let size = ImageSize { id: el.id, width: 100, height: 100 };
    doc.elements = vec![el];
    let plan = compose(&doc, num(1.0), &[size], None).unwrap();
    assert!(!plan.elements[0].label, "a disabled label should draw no ink at all");
    assert_eq!(draw_text_element(&doc.elements[0].label, num(100.0), num(100.0), 40, 20, num(1.0)), None);
}
