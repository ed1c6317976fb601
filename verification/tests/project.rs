use screenforge::double::Double;
use screenforge::model::{
    Background, ColorStrategy, CornerRadius, Document, GeneratedBackground, ImageSource, LayoutMode, LayoutSettings,
    Rgba, ScreenshotElement, ShadowParams, TextPosition,
};
use screenforge::project;
use screenforge::project::{ProjectError, ProjectFile};
use screenforge::template;
use screenforge::template::{Template, TemplateError, TemplateFile};
use std::path::PathBuf;

fn num(v: f64) -> Double {
    Double::from_bits(v.to_bits())
}

fn rgb(r: f64, g: f64, b: f64) -> Rgba {
    Rgba::new(num(r), num(g), num(b), num(1.0))
}

fn sample_document() -> Document {
    let mut doc = Document::new();
    doc.background = Background::Solid(rgb(0.1, 0.2, 0.3));
    doc.layout = LayoutSettings { spacing_px: num(12.0), margin_px: num(30.0), ..LayoutSettings::default() };
    doc.elements.push(ScreenshotElement::new(
        ImageSource::Path(PathBuf::from("/tmp/a.png")),
        num(400.0),
        num(800.0),
    ));
    doc.elements.push(ScreenshotElement::new(
        ImageSource::Path(PathBuf::from("/tmp/b.png")),
        num(420.0),
        num(820.0),
    ));
    doc
}

#[test]
fn save_then_load_round_trips_a_simple_document() {
    let doc = Document::new();
    let file = project::save(&doc);
    assert_eq!((file.format.as_str(), file.version), ("screenforge", project::CURRENT_VERSION));
    let loaded = project::load(file).unwrap();
    assert_eq!(loaded.id, doc.id);
    assert_eq!(loaded.layout, doc.layout);
}

#[test]
fn save_then_load_round_trips_multiple_elements_and_background() {
    let doc = sample_document();
    let loaded = project::load(project::save(&doc)).unwrap();

    assert_eq!(loaded.elements.len(), 2);
    assert_eq!(loaded.elements[0].natural_width, num(400.0));
    assert_eq!(loaded.elements[1].natural_width, num(420.0));
    match loaded.background {
        Background::Solid(c) => assert_eq!(c, rgb(0.1, 0.2, 0.3)),
        other => panic!("expected Solid background, got {other:?}"),
    }
    assert_eq!(loaded.layout.spacing_px, num(12.0));
    assert_eq!(loaded.layout.margin_px, num(30.0));
}

#[test]
fn save_then_load_round_trips_a_generated_background_exactly() {
    let mut doc = Document::new();
    let generated = GeneratedBackground {
        seed: 48291374,
        color_strategy: ColorStrategy::FromScreenshots,
        palette: vec![rgb(0.2, 0.3, 0.6), rgb(0.8, 0.5, 0.1)],
        adapt_to_screenshots: false,
        inverse_contrast: num(0.73),
        density: num(0.61),
        flow: num(0.28),
        variation: num(0.5),
        contrast: num(0.5),
        softness: num(0.9),
        corner_bias: num(0.44),
        offset_x: num(-0.2),
        offset_y: num(0.15),
        scale: num(1.3),
    };
    doc.background = Background::Generated(generated.clone());

    let loaded = project::load(project::save(&doc)).unwrap();

    match loaded.background {
        Background::Generated(loaded_generated) => assert_eq!(loaded_generated, generated),
        other => panic!("expected Generated background, got {other:?}"),
    }
}

#[test]
fn a_stale_canvas_size_is_fitted_on_load() {
    let mut doc = sample_document();
    doc.canvas.export_width = 7;
    let loaded = project::load(project::save(&doc)).unwrap();
    assert_eq!(loaded.canvas.export_height, 800 + 60);
    let again = project::load(project::save(&loaded)).unwrap();
    assert_eq!(again.canvas, loaded.canvas);
}

#[test]
fn a_file_without_a_target_width_is_not_scaled() {
    let mut doc = sample_document();
    doc.canvas.export_width = 1234;
    doc.canvas.export_target_width = 777;
    let mut file = project::save(&doc);
    assert_eq!(file.target_width, Some(777));
    assert_eq!(project::load(project::save(&doc)).unwrap().canvas.export_target_width, 777);
    file.target_width = None;
    assert_eq!(project::load(file).unwrap().canvas.export_target_width, 1234);
}

#[test]
fn mod_corrupted_file_is_reported_as_a_parse_error_not_a_panic() {
    let err = project::parse("{ this is not valid json at all").unwrap_err();
    assert!(matches!(err, ProjectError::Parse(_)));
}

const LEGACY: &str = r#"{
    "format": "screenforge",
    "version": 1,
    "document": {
        "id": "8f14e45f-ceea-467e-adc0-51944115d5c6",
        "elements": [],
        "layout": { "mode": "horizontal", "spacing_px": 24.0, "margin_px": 48.0 },
        "background": { "type": "solid", "value": { "r": 0.95, "g": 0.95, "b": 0.96, "a": 1.0 } },
        "canvas": { "export_width": 1920, "export_height": 1080, "export_format": "png", "export_quality": 90 },
        "text_overlay": {
            "enabled": true,
            "content": "My App Review",
            "x": 100.0,
            "y": 50.0,
            "font_size": 40.0,
            "color": { "r": 0.1, "g": 0.2, "b": 0.3, "a": 1.0 }
        }
    }
}"#;

#[test]
fn migrates_a_legacy_text_overlay_into_the_new_title() {
    let raw = project::parse(LEGACY).unwrap();
    let overlay = project::migrate_legacy_text_overlay(&raw).unwrap();
    let part = |key: &str| {
        let color = overlay.color.as_ref().unwrap();
        num(color.get(key).and_then(|v| v.as_f64()).unwrap())
    };
    let color = Rgba::new(part("r"), part("g"), part("b"), part("a"));
    let title = overlay.into_title(Some(color));
    assert!(title.enabled);
    assert_eq!(title.content, "My App Review");
    assert_eq!(title.position, TextPosition::Absolute { x: num(100.0), y: num(50.0) });
    assert_eq!(title.typography.font_size, num(40.0));
    assert_eq!(title.typography.color, rgb(0.1, 0.2, 0.3));
    assert_eq!(title.background_padding, num(16.0));
}

#[test]
fn a_file_with_both_title_and_legacy_text_overlay_keeps_the_title() {
    let json = r#"{ "document": { "title": { "content": "New Title" }, "text_overlay": { "content": "Old" } } }"#;
    let raw = project::parse(json).unwrap();
    assert!(project::migrate_legacy_text_overlay(&raw).is_none());
}

#[test]
fn an_overlay_that_says_nothing_has_values_of_its_own() {
    let raw = project::parse(r#"{ "document": { "text_overlay": { "x": 7, "y": "wide", "enabled": 1 } } }"#).unwrap();
    let overlay = project::migrate_legacy_text_overlay(&raw).unwrap();
    assert!(!overlay.enabled);
    assert!(overlay.color.is_none());
    assert_eq!((overlay.x, overlay.y, overlay.font_size), (num(7.0), num(24.0), num(32.0)));
    let title = overlay.into_title(None);
    assert_eq!(title.content, "");
    assert_eq!(title.typography.color, Rgba::black());

    let raw = project::parse(r#"{ "document": { "text_overlay": { "x": -3, "content": "a" } } }"#).unwrap();
    let overlay = project::migrate_legacy_text_overlay(&raw).unwrap();
    assert_eq!((overlay.x, overlay.content.as_str()), (num(-3.0), "a"));
}

#[test]
fn a_file_without_an_overlay_is_left_alone() {
    for json in ["{}", "[1, 2]", r#"{ "document": 5 }"#, r#"{ "document": { "elements": [] } }"#] {
        let raw = project::parse(json).unwrap();
        assert!(project::migrate_legacy_text_overlay(&raw).is_none());
    }
}

#[test]
fn mod_unsupported_future_version_is_reported_clearly() {
    let file = ProjectFile {
        format: "screenforge".to_string(),
        version: 99,
        target_width: None,
        document: Document::new(),
    };
    match project::load(file).unwrap_err() {
        ProjectError::UnsupportedVersion { found, supported } => {
            assert_eq!(found, 99);
            assert_eq!(supported, project::CURRENT_VERSION);
        }
        other => panic!("expected UnsupportedVersion, got {other:?}"),
    }
}

#[test]
fn from_document_captures_style_but_not_elements() {
    let mut doc = Document::new();
    doc.layout = LayoutSettings { mode: LayoutMode::Grid, spacing_px: num(10.0), margin_px: num(20.0) };
    doc.background = Background::Solid(rgb(0.1, 0.2, 0.3));
    let mut el = ScreenshotElement::new(ImageSource::Path(PathBuf::from("a.png")), num(100.0), num(200.0));
    el.shadow = ShadowParams::strong();
    el.corner_radius = CornerRadius::uniform(num(12.0));
    doc.elements.push(el);

    let template = Template::from_document(&doc);

    assert_eq!(template.layout.mode, LayoutMode::Grid);
    assert_eq!(template.layout.spacing_px, num(10.0));
    assert_eq!(template.shadow, ShadowParams::strong());
    assert_eq!(template.corner_radius, CornerRadius::uniform(num(12.0)));
    match template.background {
        Background::Solid(c) => assert_eq!(c, rgb(0.1, 0.2, 0.3)),
        other => panic!("expected Solid background, got {other:?}"),
    }
}

#[test]
fn from_document_uses_defaults_when_there_are_no_elements() {
    let doc = Document::new();
    let template = Template::from_document(&doc);
    assert_eq!(template.shadow, ShadowParams::default());
    assert_eq!(template.corner_radius, CornerRadius::default());
}

#[test]
fn save_then_load_round_trips() {
    let mut doc = Document::new();
    doc.layout = LayoutSettings { mode: LayoutMode::Vertical, spacing_px: num(16.0), margin_px: num(32.0) };
    doc.background = Background::Solid(rgb(0.5, 0.5, 0.5));
    let template = Template::from_document(&doc);

    let file = template::save(&template);
    assert_eq!((file.format.as_str(), file.version), ("screenforge-template", template::CURRENT_VERSION));
    let loaded = template::load(file).unwrap();

    assert_eq!(loaded, template);
}

#[test]
fn template_unsupported_future_version_is_reported_clearly() {
    let template = Template::from_document(&Document::new());
    let file = TemplateFile { format: "screenforge-template".to_string(), version: 99, template };
    match template::load(file).unwrap_err() {
        TemplateError::UnsupportedVersion { found, supported } => {
            assert_eq!(found, 99);
            assert_eq!(supported, template::CURRENT_VERSION);
        }
    }
}
