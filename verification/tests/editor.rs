use screenforge::controls::{
    sync_generator_controls, BackgroundControls, FontChoice, GeneratorControls, TextControls,
};
use screenforge::double::Double;
use screenforge::editor::background::background_image_path;
use screenforge::editor::elements::{ElementAction, ImportedImage};
use screenforge::editor::EditorState;
use screenforge::model::{
    Background, BackgroundImageFit, ColorStrategy, CornerRadius, Document, ExportFormat, GeneratedBackground,
    GradientKind, GradientSpec, ImageSource, LayoutMode, Rgba, ShadowParams, TextElement, TextPosition,
};
use screenforge::rng::Rng;
use screenforge::template::Template;
use std::path::PathBuf;

fn num(v: f64) -> Double {
    Double::from_bits(v.to_bits())
}

fn rgb(r: f64, g: f64, b: f64) -> Rgba {
    Rgba::new(num(r), num(g), num(b), num(1.0))
}

fn image(name: &str, width: u32, height: u32) -> ImportedImage {
    ImportedImage { path: PathBuf::from(name), width, height }
}

fn editor() -> EditorState {
    EditorState::new(num(24.0), num(48.0), num(90.0))
}

fn with_two() -> EditorState {
    let mut state = editor();
    assert!(state.import_paths(vec![image("a.png", 100, 200), image("b.png", 100, 200)]));
    state
}

fn text_controls() -> TextControls {
    TextControls {
        enabled: true,
        content: "Hello".to_string(),
        position_mode: 1,
        horizontal: 0,
        vertical: 0,
        padding: num(8.0),
        x: num(11.0),
        y: num(12.0),
        background: 1,
        background_color: rgb(0.1, 0.2, 0.3),
        background_color2: rgb(0.4, 0.5, 0.6),
        corner_radius: num(4.0),
        font: FontChoice { family: "Serif".to_string(), size: num(20.0), weight: 400, italic: true },
        alignment: 2,
        letter_spacing: num(1.0),
        line_spacing: num(1.5),
        color: rgb(1.0, 0.0, 0.0),
        opacity: num(50.0),
    }
}

#[test]
fn a_new_editor_follows_the_preferences() {
    let state = EditorState::new(num(7.0), num(9.0), num(79.6));
    assert_eq!((state.document.layout.spacing_px, state.document.layout.margin_px), (num(7.0), num(9.0)));
    assert_eq!(state.document.canvas.export_quality, 80);
    assert_eq!(EditorState::new(num(0.0), num(0.0), num(0.2)).document.canvas.export_quality, 1);
    assert_eq!(EditorState::new(num(0.0), num(0.0), num(500.0)).document.canvas.export_quality, 100);
    assert_eq!(EditorState::new(num(0.0), num(0.0), num(f64::NAN)).document.canvas.export_quality, 0);
}

#[test]
fn imported_images_become_screenshots_in_one_step() {
    let mut state = with_two();
    assert_eq!(state.document.elements.len(), 2);
    assert_eq!(state.document.elements[1].source, ImageSource::Path(PathBuf::from("b.png")));
    assert_eq!(state.document.elements[1].natural_height, num(200.0));
    assert_ne!(state.document.elements[0].id, state.document.elements[1].id);
    assert!(state.undo());
    assert!(state.document.elements.is_empty());
    assert!(!state.undo());
    assert!(state.redo());
    assert_eq!(state.document.elements.len(), 2);
    assert!(!state.import_paths(Vec::new()));
}

#[test]
fn nothing_is_recorded_while_controls_are_synced() {
    let mut state = with_two();
    state.syncing_controls = true;
    let c = BackgroundControls { selected: 0, color1: Rgba::black(), color2: Rgba::black(), angle_deg: num(0.0) };
    assert!(!state.set_layout_mode(2));
    assert!(!state.set_spacing(num(1.0)));
    assert!(!state.set_margin(num(1.0)));
    assert!(!state.apply_background_from_controls(c));
    assert!(!state.set_shadow_preset(3, num(1.0), num(0.0)));
    assert!(!state.apply_shadow_geometry(num(1.0), num(0.0), num(5.0), num(5.0)));
    assert!(!state.set_corner_radius(num(9.0)));
    assert!(!state.apply_title(&text_controls()));
    assert!(!state.set_title_shadow_preset(2, num(1.0), num(0.0)));
    assert!(!state.apply_title_shadow_geometry(num(1.0), num(0.0), num(5.0), num(5.0)));
    let g = sync_generator_controls(&GeneratedBackground::new(1));
    assert!(!state.generate_background(g, Vec::new()));
    assert_eq!(state.document.layout.mode, LayoutMode::Horizontal);
    assert_eq!(state.document.title, TextElement::title_default());
    assert!(state.undo());
    assert!(!state.undo());
}

#[test]
fn an_unchanged_value_is_not_recorded() {
    let mut state = with_two();
    assert!(!state.set_layout_mode(0));
    assert!(!state.set_spacing(num(24.0)));
    assert!(!state.set_margin(num(48.0)));
    assert!(!state.set_corner_radius(num(0.0)));
    assert!(state.set_spacing(num(30.0)));
    assert!(state.undo());
    assert_eq!(state.document.layout.spacing_px, num(24.0));
}

#[test]
fn entering_free_layout_keeps_the_screenshots_in_place() {
    let mut state = with_two();
    assert!(state.set_layout_mode(3));
    assert_eq!(state.document.layout.mode, LayoutMode::Free);
    let t = state.document.elements[1].transform;
    assert_eq!((t.x, t.y, t.width, t.height), (num(172.0), num(48.0), num(100.0), num(200.0)));
    assert!(state.undo());
    assert_eq!(state.document.layout.mode, LayoutMode::Horizontal);
    assert_eq!(state.document.elements[1].transform.x, num(0.0));
    assert!(state.set_layout_mode(1));
    assert_eq!(state.document.layout.mode, LayoutMode::Vertical);
}

#[test]
fn a_plain_background_is_set_once() {
    let mut state = editor();
    let c = BackgroundControls {
        selected: 1,
        color1: rgb(0.1, 0.2, 0.3),
        color2: rgb(0.4, 0.5, 0.6),
        angle_deg: num(45.0),
    };
    assert!(state.apply_background_from_controls(c));
    assert!(!state.apply_background_from_controls(c));
    match &state.document.background {
        Background::Gradient(g) => assert_eq!(g.kind, GradientKind::Linear { angle_deg: num(45.0) }),
        other => panic!("expected a gradient, got {other:?}"),
    }
    assert!(state.undo());
    assert_eq!(state.document.background, Background::default());
}

#[test]
fn an_image_background_can_be_adjusted() {
    let mut state = editor();
    assert!(!state.set_background_image_fit(1));
    assert!(!state.set_background_image_opacity(num(10.0)));
    state.set_background_image(PathBuf::from("bg.png"), 0, num(80.0));
    assert_eq!(background_image_path(&state.document.background), Some(PathBuf::from("bg.png")));
    assert!(!state.set_background_image_fit(0));
    assert!(state.set_background_image_fit(3));
    assert!(!state.set_background_image_opacity(num(80.0)));
    assert!(state.set_background_image_opacity(num(25.0)));
    match &state.document.background {
        Background::Image(spec) => assert_eq!((spec.fit, spec.opacity), (BackgroundImageFit::Tile, num(0.25))),
        other => panic!("expected an image, got {other:?}"),
    }
    assert_eq!(background_image_path(&Background::Solid(Rgba::black())), None);
}

#[test]
fn a_suggested_gradient_keeps_the_selected_kind() {
    let suggestion = || GradientSpec {
        kind: GradientKind::Linear { angle_deg: num(12.0) },
        stops: vec![(num(0.0), rgb(0.1, 0.1, 0.1)), (num(1.0), rgb(0.9, 0.9, 0.9))],
    };
    let mut state = editor();
    assert_eq!((state.next_gradient_seed(), state.next_gradient_seed()), (0, 1));
    state.gradient_auto_seed = u32::MAX;
    assert_eq!((state.next_gradient_seed(), state.next_gradient_seed()), (u32::MAX, 0));
    state.generate_gradient_from_screenshots(suggestion(), 1);
    assert_eq!(state.document.background, Background::Gradient(suggestion()));
    state.generate_gradient_from_screenshots(suggestion(), 2);
    match &state.document.background {
        Background::Gradient(g) => {
            assert_eq!(g.kind, GradientKind::Radial { center_x: num(0.5), center_y: num(0.5) })
        }
        other => panic!("expected a gradient, got {other:?}"),
    }
}

#[test]
fn a_generated_background_is_drawn_from_the_seed_before_it() {
    let mut state = editor();
    let controls = GeneratorControls { strategy: 1, ..sync_generator_controls(&GeneratedBackground::new(0)) };
    assert!(!state.apply_generator_controls(controls));
    assert!(state.generate_background(controls, vec![rgb(0.3, 0.3, 0.3)]));
    let mut source = Rng::new(0x5EED_5EED_5EED_5EED);
    let seed = source.next_u64() % 1_000_000_000;
    let density = source.range(num(0.0), num(1.0));
    let first = match &state.document.background {
        Background::Generated(g) => g.clone(),
        other => panic!("expected a generated background, got {other:?}"),
    };
    assert_eq!((first.seed, first.density), (seed, density));
    assert_eq!(first.color_strategy, ColorStrategy::FromScreenshots);
    assert_eq!(first.palette, vec![rgb(0.3, 0.3, 0.3)]);

    // Another slider leaves what was drawn alone.
    let shown = sync_generator_controls(&first);
    let moved = GeneratorControls { corner_bias: num(10.0), ..shown };
    assert!(state.apply_generator_controls(moved));
    assert!(!state.apply_generator_controls(moved));
    match &state.document.background {
        Background::Generated(g) => {
            assert_eq!((g.seed, g.density, g.corner_bias), (seed, density, num(0.1)));
            assert_eq!(g.palette, first.palette);
        }
        other => panic!("expected a generated background, got {other:?}"),
    }
    let next = state.next_background_drawing();
    assert!(state.generate_background(GeneratorControls { strategy: 0, ..moved }, Vec::new()));
    match &state.document.background {
        Background::Generated(g) => {
            assert_eq!(g.seed, next.seed);
            assert_ne!(g.seed, seed);
            assert_eq!(g.palette.len(), 4);
        }
        other => panic!("expected a generated background, got {other:?}"),
    }
}

#[test]
fn a_palette_follows_the_visible_screenshots_unless_it_is_locked() {
    let mut state = with_two();
    let controls = GeneratorControls { strategy: 1, ..sync_generator_controls(&GeneratedBackground::new(0)) };
    let before = state.visible_ids();
    assert_eq!(before.len(), 2);
    assert!(!state.palette_due(&Vec::new()), "a background that is not generated has no palette");
    assert!(!state.adapt_palette(vec![rgb(0.3, 0.3, 0.3)]));

    assert!(state.generate_background(controls, vec![rgb(0.3, 0.3, 0.3)]));
    assert!(!state.palette_due(&before));
    assert!(!state.palette_due(&vec![before[1], before[0]]), "the order is no matter of visibility");
    assert!(state.run_element_action(ElementAction::Delete, 0));
    assert!(state.palette_due(&before));
    assert!(!state.adapt_palette(vec![rgb(0.3, 0.3, 0.3)]));
    assert!(state.adapt_palette(vec![rgb(0.7, 0.1, 0.2)]));
    let adapted = match &state.document.background {
        Background::Generated(g) => g.clone(),
        other => panic!("expected a generated background, got {other:?}"),
    };
    assert_eq!(adapted.palette, vec![rgb(0.7, 0.1, 0.2)]);
    assert!(adapted.adapt_to_screenshots);
    state.undo();
    match &state.document.background {
        Background::Generated(g) => assert_eq!(g.palette, vec![rgb(0.3, 0.3, 0.3)]),
        other => panic!("expected a generated background, got {other:?}"),
    }

    for (adapt_to_screenshots, color_strategy, due) in [
        (true, ColorStrategy::FromScreenshots, true),
        (true, ColorStrategy::Grayscale, true),
        (true, ColorStrategy::Random, false),
        (true, ColorStrategy::Manual, false),
        (false, ColorStrategy::FromScreenshots, false),
        (false, ColorStrategy::Grayscale, false),
    ] {
        let generated = GeneratedBackground { adapt_to_screenshots, color_strategy, ..adapted.clone() };
        state.document.background = Background::Generated(generated);
        assert_eq!(state.palette_due(&before), due);
    }
}

#[test]
fn effects_apply_to_every_screenshot() {
    let mut state = with_two();
    assert!(state.set_shadow_preset(3, num(0.0), num(1.0)));
    assert!(!state.set_shadow_preset(3, num(0.0), num(1.0)));
    assert!(state.document.elements.iter().all(|e| e.shadow == ShadowParams::strong()));
    assert!(state.apply_shadow_geometry(num(1.0), num(0.0), num(5.0), num(2.0)));
    let cast = state.document.elements[1].shadow;
    assert_eq!((cast.offset_x, cast.offset_y, cast.blur, cast.opacity), (num(5.0), num(0.0), num(2.0), num(0.4)));
    assert!(state.set_corner_radius(num(6.0)));
    assert!(state.document.elements.iter().all(|e| e.corner_radius == CornerRadius::uniform(num(6.0))));
    for _ in 0..3 {
        assert!(state.undo());
    }
    assert!(state.document.elements.iter().all(|e| e.shadow == ShadowParams::none()));
    assert!(!editor().apply_shadow_geometry(num(1.0), num(0.0), num(5.0), num(2.0)));
    assert!(!editor().set_shadow_preset(1, num(1.0), num(0.0)));
}

#[test]
fn a_template_is_applied_and_taken_back() {
    let mut state = with_two();
    let mut styled = Document::new();
    styled.background = Background::Solid(rgb(1.0, 0.0, 0.0));
    styled.layout.mode = LayoutMode::Grid;
    state.apply_template(Template::from_document(&styled));
    assert_eq!(state.document.layout.mode, LayoutMode::Grid);
    assert_eq!(state.document.background, Background::Solid(rgb(1.0, 0.0, 0.0)));
    assert!(state.undo());
    assert_eq!(state.document.layout.mode, LayoutMode::Horizontal);
}

#[test]
fn the_title_is_set_from_its_controls() {
    let mut state = editor();
    assert!(state.apply_title(&text_controls()));
    assert!(!state.apply_title(&text_controls()));
    let title = &state.document.title;
    assert_eq!((title.content.as_str(), title.typography.opacity), ("Hello", num(0.5)));
    assert_eq!(title.position, TextPosition::Absolute { x: num(11.0), y: num(12.0) });
    assert_eq!(title.background_padding, num(16.0));
    assert!(state.set_title_shadow_preset(1, num(0.0), num(1.0)));
    assert_eq!(state.document.title.shadow, ShadowParams::subtle());
    assert!(state.apply_title_shadow_geometry(num(1.0), num(0.0), num(9.0), num(3.0)));
    assert_eq!(state.document.title.shadow.offset_x, num(9.0));
    assert_eq!(state.document.title.content, "Hello");
    for _ in 0..3 {
        assert!(state.undo());
    }
    assert_eq!(state.document.title, TextElement::title_default());
}

#[test]
fn a_label_is_set_by_the_id_of_its_screenshot() {
    let mut state = with_two();
    let id = state.document.elements[1].id;
    assert!(state.label(1).is_none());
    assert!(!state.apply_label(1, &text_controls(), false));
    assert!(!state.apply_label(id, &text_controls(), true));
    assert!(state.apply_label(id, &text_controls(), false));
    assert!(!state.apply_label(id, &text_controls(), false));
    let label = state.label(id).unwrap();
    assert_eq!(label.content, "Hello");
    // The dialog has no control for the alignment.
    assert_eq!(label.typography.alignment, TextElement::label_default().typography.alignment);
    assert!(state.set_label_shadow_preset(id, 2, num(0.0), num(1.0)));
    assert!(!state.apply_label_shadow_geometry(id, num(1.0), num(0.0), num(4.0), num(4.0), true));
    assert!(state.apply_label_shadow_geometry(id, num(1.0), num(0.0), num(4.0), num(4.0), false));
    assert_eq!(state.label(id).unwrap().shadow.offset_x, num(4.0));
    assert_eq!(state.document.elements[0].label, TextElement::label_default());
}

#[test]
fn selected_screenshots_are_removed_and_restored() {
    let mut state = with_two();
    let ids: Vec<u128> = state.document.elements.iter().map(|e| e.id).collect();
    assert!(!state.delete_selected(&Vec::new()));
    assert!(!state.delete_selected(&vec![1]));
    assert!(state.delete_selected(&vec![ids[1], ids[0]]));
    assert!(state.document.elements.is_empty());
    assert!(state.undo());
    assert_eq!(state.document.elements.iter().map(|e| e.id).collect::<Vec<u128>>(), ids);
}

#[test]
fn screenshots_are_moved_and_resized() {
    let mut state = with_two();
    let ids: Vec<u128> = state.document.elements.iter().map(|e| e.id).collect();
    assert!(!state.move_elements(&vec![(1, num(1.0), num(1.0))]));
    assert!(state.move_elements(&vec![(ids[1], num(3.0), num(4.0)), (1, num(0.0), num(0.0))]));
    assert_eq!(state.document.elements[1].transform.x, num(3.0));
    let mut new = state.document.elements[0].transform;
    new.width = num(77.0);
    assert!(state.resize_element(0, new));
    assert!(!state.resize_element(5, new));
    assert_eq!(state.document.elements[0].transform.width, num(77.0));
    state.reorder_element(0, 1);
    assert_eq!(state.document.elements[1].id, ids[0]);
    for _ in 0..3 {
        assert!(state.undo());
    }
    assert_eq!(state.document.elements[1].transform.x, num(0.0));
}

#[test]
fn menu_entries_act_on_one_screenshot() {
    let mut state = with_two();
    let ids: Vec<u128> = state.document.elements.iter().map(|e| e.id).collect();
    assert!(!state.run_element_action(ElementAction::BringForward, 0));
    assert!(!state.run_element_action(ElementAction::BringToFront, 0));
    assert!(!state.run_element_action(ElementAction::SendBackward, 1));
    assert!(!state.run_element_action(ElementAction::SendToBack, 1));
    assert!(!state.run_element_action(ElementAction::Delete, 2));
    assert!(state.run_element_action(ElementAction::BringForward, 1));
    assert_eq!(state.document.elements[0].id, ids[1]);
    assert!(state.run_element_action(ElementAction::SendToBack, 0));
    assert_eq!(state.document.elements[0].id, ids[0]);
    assert!(state.run_element_action(ElementAction::Duplicate, 0));
    assert_eq!(state.document.elements.len(), 3);
    assert_ne!(state.document.elements[1].id, ids[0]);
    assert_eq!(state.document.elements[1].source, state.document.elements[0].source);
    assert!(state.run_element_action(ElementAction::Delete, 1));
    for degrees in [90.0, 180.0, 270.0, 0.0] {
        assert!(state.run_element_action(ElementAction::Rotate, 0));
        assert_eq!(state.document.elements[0].transform.rotation_deg, num(degrees));
    }
    assert!(state.run_element_action(ElementAction::FlipHorizontal, 0));
    assert!(state.run_element_action(ElementAction::FlipVertical, 0));
    assert!(state.document.elements[0].transform.flip_horizontal);
    assert!(state.document.elements[0].transform.flip_vertical);
    while state.undo() {}
    assert!(state.document.elements.is_empty());
}

#[test]
fn a_replaced_image_keeps_its_place() {
    let mut state = with_two();
    let id = state.document.elements[0].id;
    assert!(!state.replace_screenshot(7, image("c.png", 5, 6)));
    assert!(state.replace_screenshot(0, image("c.png", 5, 6)));
    assert_eq!(state.document.elements[0].id, id);
    assert_eq!(state.document.elements[0].source, ImageSource::Path(PathBuf::from("c.png")));
    assert_eq!(state.document.elements[0].natural_width, num(5.0));
    assert!(state.undo());
    assert_eq!(state.document.elements[0].natural_width, num(100.0));
}

#[test]
fn hidden_screenshots_leave_the_document_alone() {
    let mut state = with_two();
    state.document.elements[0].visible = false;
    assert_eq!(state.visible_paths(), vec![PathBuf::from("b.png")]);
    assert_eq!(state.document_for_render().elements.len(), 2);
    state.hide_screenshots = true;
    assert!(state.document_for_render().elements.is_empty());
    assert_eq!(state.document.elements.len(), 2);
}

#[test]
fn export_settings_are_not_recorded() {
    let mut state = editor();
    state.set_export_width(num(2560.7));
    state.set_export_format(2);
    state.set_export_quality(num(55.9));
    assert_eq!(state.document.canvas.export_target_width, 2560);
    assert_eq!(state.document.canvas.export_format, ExportFormat::WebP);
    assert_eq!(state.document.canvas.export_quality, 55);
    assert!(!state.undo());
}

#[test]
fn a_loaded_document_starts_a_new_history() {
    let mut state = with_two();
    let loaded = Document::new();
    let id = loaded.id;
    state.load(loaded, PathBuf::from("p.screenforge"));
    assert_eq!(state.document.id, id);
    assert_eq!(state.project_path, Some(PathBuf::from("p.screenforge")));
    assert!(!state.undo());
    assert!(!state.redo());
}
