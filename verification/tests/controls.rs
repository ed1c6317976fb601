use screenforge::controls::{
    background_from_controls, background_image_fit_for_index, background_rows, color_strategy_for_index,
    export_format_for_index, extension_for_format, font_desc_from_typography, format_supports_quality,
    generated_from_controls, horizontal_anchor_for_index, index_for_background_image_fit, index_for_color_strategy,
    index_for_export_format, index_for_horizontal_anchor, index_for_layout_mode, index_for_text_align,
    index_for_vertical_anchor, label_from_controls, layout_mode_for_index, manual_palette, seed_from,
    shadow_preset_for_index, shadow_preset_index_for, sync_background_controls, sync_generator_controls,
    sync_title_controls, text_align_for_index, text_rows, title_from_controls, typography_from_font_desc,
    update_export_height_display, vertical_anchor_for_index, BackgroundControls, Drawn, FontChoice, TextControls,
};
use screenforge::double::Double;
use screenforge::model::{
    Background, BackgroundImageFit, CanvasSettings, ColorStrategy, ExportFormat, GeneratedBackground, GradientKind,
    GradientSpec, HorizontalAnchor, ImageBackgroundSpec, ImageSource, LayoutMode, Rgba, ShadowParams, TextAlign,
    TextBackground, TextElement, TextPosition, Typography, VerticalAnchor,
};
use std::path::PathBuf;

fn num(v: f64) -> Double {
    Double::from_bits(v.to_bits())
}

fn val(v: Double) -> f64 {
    f64::from_bits(v.bits)
}

fn rgb(r: f64, g: f64, b: f64) -> Rgba {
    Rgba::new(num(r), num(g), num(b), num(1.0))
}

#[test]
fn lists_show_every_choice_where_it_stands() {
    for i in 0..4 {
        assert_eq!(index_for_layout_mode(layout_mode_for_index(i)), i);
        assert_eq!(index_for_color_strategy(color_strategy_for_index(i)), i);
        assert_eq!(index_for_background_image_fit(background_image_fit_for_index(i)), i);
        assert_eq!(index_for_export_format(export_format_for_index(i)), i);
    }
    for i in 0..3 {
        assert_eq!(index_for_horizontal_anchor(horizontal_anchor_for_index(i)), i);
        assert_eq!(index_for_vertical_anchor(vertical_anchor_for_index(i)), i);
        assert_eq!(index_for_text_align(text_align_for_index(i)), i);
    }
    assert_eq!(layout_mode_for_index(9), LayoutMode::Free);
    assert_eq!(color_strategy_for_index(9), ColorStrategy::Random);
    assert_eq!(background_image_fit_for_index(9), BackgroundImageFit::Tile);
    assert_eq!(export_format_for_index(9), ExportFormat::Avif);
    assert_eq!(horizontal_anchor_for_index(9), HorizontalAnchor::Center);
    assert_eq!(vertical_anchor_for_index(9), VerticalAnchor::Center);
    assert_eq!(text_align_for_index(9), TextAlign::Center);
}

#[test]
fn a_preset_is_recognised_at_every_angle() {
    for i in 0..5u32 {
        let preset = shadow_preset_for_index(i);
        for angle in [0.0f64, 33.0, 135.0, 301.0] {
            let (c, s) = (angle.to_radians().cos(), angle.to_radians().sin());
            let shadow = ShadowParams::none().with_preset(preset, num(c), num(s));
            let length = num(val(shadow.offset_x).hypot(val(shadow.offset_y)));
            assert_eq!(shadow_preset_index_for(&shadow, length), i);
        }
    }
    let odd = ShadowParams { blur: num(99.0), ..ShadowParams::standard() };
    assert_eq!(shadow_preset_index_for(&odd, num(6.0)), 0);
}

fn controls_for(text: &TextElement) -> TextControls {
    let shown = sync_title_controls(text, num(0.0), num(0.0));
    TextControls {
        enabled: text.enabled,
        content: text.content.clone(),
        position_mode: shown.position_mode,
        horizontal: shown.horizontal.unwrap_or(0),
        vertical: shown.vertical.unwrap_or(0),
        padding: shown.padding.unwrap_or(num(1.0)),
        x: shown.x.unwrap_or(num(2.0)),
        y: shown.y.unwrap_or(num(3.0)),
        background: shown.background,
        background_color: shown.background_color.unwrap_or(Rgba::white()),
        background_color2: shown.background_color2.unwrap_or(Rgba::white()),
        corner_radius: shown.corner_radius,
        font: FontChoice {
            family: text.typography.font_family.clone(),
            size: text.typography.font_size,
            weight: text.typography.weight,
            italic: text.typography.italic,
        },
        alignment: shown.alignment,
        letter_spacing: shown.letter_spacing,
        line_spacing: shown.line_spacing,
        color: shown.color,
        opacity: shown.opacity,
    }
}

#[test]
fn shown_texts_are_described_again() {
    let title = TextElement::title_default();
    assert_eq!(title_from_controls(&controls_for(&title), &title), title);
    let mut label = TextElement::label_default();
    label.enabled = true;
    label.content = "Label".to_string();
    label.position = TextPosition::Absolute { x: num(5.0), y: num(6.0) };
    label.typography.wrap = true;
    label.typography.alignment = TextAlign::Right;
    label.background = TextBackground::Gradient(GradientSpec {
        kind: GradientKind::Linear { angle_deg: num(135.0) },
        stops: vec![(num(0.0), rgb(0.1, 0.2, 0.3)), (num(1.0), rgb(0.4, 0.5, 0.6))],
    });
    assert_eq!(label_from_controls(&controls_for(&label), &label), label);
    let as_title = title_from_controls(&controls_for(&label), &label);
    assert!(!as_title.typography.wrap);
    assert_eq!(as_title.typography.alignment, TextAlign::Right);
}

#[test]
fn the_rows_of_a_text_follow_what_it_has() {
    let mut text = TextElement::title_default();
    let off = sync_title_controls(&text, num(0.0), num(0.0));
    assert!(!off.sensitive && !off.shadow_sensitive && !off.rows.absolute);
    assert_eq!((off.position_mode, off.horizontal, off.vertical), (0, Some(1), Some(0)));
    assert_eq!((off.background, off.rows.background_color, off.rows.background_color2), (0, false, false));
    text.enabled = true;
    text.background = TextBackground::Solid(rgb(1.0, 0.0, 0.0));
    text.shadow = ShadowParams::subtle();
    text.position = TextPosition::Absolute { x: num(1.0), y: num(2.0) };
    let on = sync_title_controls(&text, num(2.0), num(std::f64::consts::FRAC_PI_2));
    assert!(on.sensitive && on.shadow_sensitive && on.rows.absolute);
    assert_eq!((on.x, on.y, on.horizontal), (Some(num(1.0)), Some(num(2.0)), None));
    assert_eq!((on.background, on.background_color), (1, Some(rgb(1.0, 0.0, 0.0))));
    assert!(on.rows.background_color && !on.rows.background_color2);
    assert_eq!((on.shadow_preset, on.shadow_angle, on.shadow_distance), (1, num(90.0), num(2.0)));
    assert_eq!(on.opacity, num(100.0));
}

#[test]
fn fonts_are_taken_over_in_pixels() {
    let choice = typography_from_font_desc(Some("Serif".to_string()), 24 * 1024, 400, true);
    assert_eq!((choice.family.as_str(), choice.size, choice.weight, choice.italic), ("Serif", num(24.0), 400, true));
    let least = typography_from_font_desc(None, 0, 700, false);
    assert_eq!((least.family.as_str(), least.size), ("Sans", num(1.0)));
    assert_eq!(font_desc_from_typography(&Typography::title_default()), num(32.0 * 1024.0));
}

#[test]
fn shown_backgrounds_are_described_again() {
    let c = BackgroundControls { selected: 0, color1: rgb(0.1, 0.2, 0.3), color2: rgb(0.4, 0.5, 0.6), angle_deg: num(30.0) };
    for selected in 0..3 {
        let background = background_from_controls(BackgroundControls { selected, ..c });
        let shown = sync_background_controls(&background);
        assert_eq!(shown.selected, selected);
        assert_eq!(shown.rows, background_rows(selected, ColorStrategy::Manual));
        let again = BackgroundControls {
            selected: shown.selected,
            color1: shown.color1.unwrap_or(c.color1),
            color2: shown.color2.unwrap_or(c.color2),
            angle_deg: shown.angle_deg.unwrap_or(c.angle_deg),
        };
        assert_eq!(background_from_controls(again), background);
    }
}

#[test]
fn an_image_background_shows_its_fit_and_opacity() {
    let background = Background::Image(ImageBackgroundSpec {
        source: ImageSource::Path(PathBuf::from("a.png")),
        fit: BackgroundImageFit::Fill,
        opacity: num(0.5),
    });
    let shown = sync_background_controls(&background);
    assert_eq!((shown.selected, shown.fit, shown.opacity), (3, Some(2), Some(num(50.0))));
    assert!(shown.rows.image && !shown.rows.color1 && !shown.rows.generator);
}

#[test]
fn a_generated_background_is_described_again() {
    let mut generated = GeneratedBackground::new(12);
    generated.color_strategy = ColorStrategy::Manual;
    generated.palette = vec![rgb(0.1, 0.1, 0.1), rgb(0.2, 0.2, 0.2), rgb(0.3, 0.3, 0.3), rgb(0.4, 0.4, 0.4)];
    let c = sync_generator_controls(&generated);
    assert_eq!((c.seed, c.strategy, c.corner_bias, c.scale), (num(12.0), 0, num(50.0), num(100.0)));
    let kept = Drawn {
        seed: seed_from(c.seed),
        density: generated.density,
        flow: generated.flow,
        variation: generated.variation,
        softness: generated.softness,
    };
    assert_eq!(generated_from_controls(c, kept, manual_palette(c)), generated);
    generated.palette.truncate(1);
    assert_eq!(sync_generator_controls(&generated).color4, rgb(0.5, 0.5, 0.5));
    let rows = sync_background_controls(&Background::Generated(generated)).rows;
    assert!(rows.generator && rows.manual_colors && !rows.inverse_contrast);
}

#[test]
fn a_seed_is_cut_to_a_whole_number() {
    assert_eq!(seed_from(num(41.9)), 41);
    assert_eq!(seed_from(num(-3.0)), 0);
    assert_eq!(seed_from(num(f64::NAN)), 0);
    assert_eq!(seed_from(num(1e30)), u64::MAX);
}

#[test]
fn the_shown_height_follows_the_target_width() {
    let canvas = CanvasSettings {
        export_width: 1000,
        export_height: 333,
        export_target_width: 1920,
        ..CanvasSettings::default()
    };
    assert_eq!(update_export_height_display(canvas), num(639.0));
    assert_eq!(update_export_height_display(CanvasSettings { export_height: 0, ..canvas }), num(1.0));
    assert_eq!(update_export_height_display(CanvasSettings { export_width: 0, ..canvas }), num(639360.0));
}

#[test]
fn formats_know_their_extension_and_quality() {
    assert!(!format_supports_quality(ExportFormat::Png));
    assert!(format_supports_quality(ExportFormat::Jpeg));
    assert!(format_supports_quality(ExportFormat::WebP));
    assert!(format_supports_quality(ExportFormat::Avif));
    let names: Vec<&str> = (0..4).map(|i| extension_for_format(export_format_for_index(i))).collect();
    assert_eq!(names, vec!["png", "jpg", "webp", "avif"]);
}

#[test]
fn the_selected_entries_decide_the_rows_of_a_text() {
    let shown = |position: u32, background: u32| {
        let rows = text_rows(position, background);
        (rows.absolute, rows.background_color, rows.background_color2)
    };
    assert_eq!(shown(0, 0), (false, false, false));
    assert_eq!(shown(1, 1), (true, true, false));
    assert_eq!(shown(0, 2), (false, true, true));
}
