use screenforge::double::Double;
use screenforge::model::{
    Background, Corner, CornerRadius, Document, GeneratedBackground, GradientKind, HorizontalAnchor, ImageSource,
    LayoutMode, Rgba, ScreenshotElement, ShadowParams, ShadowPreset, TextElement, TextPosition, Transform,
    VerticalAnchor,
};
use std::path::PathBuf;

fn num(v: f64) -> Double {
    Double::from_bits(v.to_bits())
}

fn val(v: Double) -> f64 {
    f64::from_bits(v.bits)
}

fn fixture() -> Transform {
    Transform {
        x: num(100.0),
        y: num(100.0),
        width: num(200.0),
        height: num(100.0),
        aspect_locked: false,
        ..Transform::default()
    }
}

fn angle_and_distance(shadow: &ShadowParams) -> (f64, f64) {
    let (x, y) = (val(shadow.offset_x), val(shadow.offset_y));
    let (angle, distance) = shadow.angle_and_distance(num(x.hypot(y)), num(y.atan2(x)));
    (val(angle), val(distance))
}

fn offset_for(angle: f64, distance: f64) -> (Double, Double) {
    let rad = val(num(angle).to_radians());
    ShadowParams::offset_for_angle_and_distance(num(rad.cos()), num(rad.sin()), num(distance))
}

fn with_preset(shadow: &ShadowParams, preset: ShadowPreset) -> ShadowParams {
    let rad = val(num(angle_and_distance(shadow).0).to_radians());
    shadow.with_preset(preset, num(rad.cos()), num(rad.sin()))
}

#[test]
fn bottom_right_grows_size_and_keeps_top_left_anchored() {
    let resized = fixture().resized_from_corner(Corner::BottomRight, num(20.0), num(30.0));
    assert_eq!(resized.x, num(100.0));
    assert_eq!(resized.y, num(100.0));
    assert_eq!(resized.width, num(220.0));
    assert_eq!(resized.height, num(130.0));
}

#[test]
fn top_left_shrinks_size_and_keeps_bottom_right_anchored() {
    let original = fixture();
    let resized = original.resized_from_corner(Corner::TopLeft, num(20.0), num(10.0));
    assert_eq!(resized.width, num(180.0));
    assert_eq!(resized.height, num(90.0));
    assert_eq!(resized.x, num(120.0));
    assert_eq!(resized.y, num(110.0));
    assert_eq!(resized.x.plus(resized.width), original.x.plus(original.width));
    assert_eq!(resized.y.plus(resized.height), original.y.plus(original.height));
}

#[test]
fn top_right_and_bottom_left_anchor_their_own_opposite_corner() {
    let original = fixture();

    let top_right = original.resized_from_corner(Corner::TopRight, num(20.0), num(10.0));
    assert_eq!(top_right.x, num(100.0));
    assert_eq!(top_right.width, num(220.0));
    assert_eq!(top_right.height, num(90.0));
    assert_eq!(top_right.y, num(110.0));
    assert_eq!(top_right.y.plus(top_right.height), original.y.plus(original.height));

    let bottom_left = original.resized_from_corner(Corner::BottomLeft, num(20.0), num(10.0));
    assert_eq!(bottom_left.y, num(100.0));
    assert_eq!(bottom_left.height, num(110.0));
    assert_eq!(bottom_left.width, num(180.0));
    assert_eq!(bottom_left.x, num(120.0));
    assert_eq!(bottom_left.x.plus(bottom_left.width), original.x.plus(original.width));
}

#[test]
fn resize_never_shrinks_below_the_minimum_size() {
    let resized = fixture().resized_from_corner(Corner::BottomRight, num(-9999.0), num(-9999.0));
    assert_eq!(resized.width, Transform::min_size());
    assert_eq!(resized.height, Transform::min_size());
    assert_eq!(Transform::min_size(), num(20.0));
}

#[test]
fn aspect_locked_derives_height_from_width_regardless_of_dy() {
    let mut original = fixture();
    original.aspect_locked = true;
    let resized = original.resized_from_corner(Corner::BottomRight, num(40.0), num(9999.0));
    assert_eq!(resized.width, num(240.0));
    assert_eq!(resized.height, num(120.0));
}

#[test]
fn shadow_angle_and_distance_matches_known_offsets() {
    let mut shadow = ShadowParams::none();
    shadow.offset_x = num(10.0);
    shadow.offset_y = num(0.0);
    assert_eq!(angle_and_distance(&shadow), (0.0, 10.0));

    shadow.offset_x = num(0.0);
    shadow.offset_y = num(10.0);
    assert_eq!(angle_and_distance(&shadow), (90.0, 10.0));

    shadow.offset_x = num(-10.0);
    shadow.offset_y = num(0.0);
    assert_eq!(angle_and_distance(&shadow), (180.0, 10.0));

    shadow.offset_x = num(0.0);
    shadow.offset_y = num(-10.0);
    assert_eq!(angle_and_distance(&shadow), (270.0, 10.0));
}

#[test]
fn shadow_offset_for_angle_and_distance_round_trips() {
    for (angle, distance) in [(0.0, 12.0), (45.0, 20.0), (90.0, 6.0), (200.0, 50.0), (359.0, 8.0)] {
        let (x, y) = offset_for(angle, distance);
        let mut shadow = ShadowParams::none();
        shadow.offset_x = x;
        shadow.offset_y = y;
        let (round_tripped_angle, round_tripped_distance): (f64, f64) = angle_and_distance(&shadow);
        assert!((round_tripped_angle - angle).abs() < 1e-9, "angle: {round_tripped_angle} vs {angle}");
        assert!(
            (round_tripped_distance - distance).abs() < 1e-9,
            "distance: {round_tripped_distance} vs {distance}"
        );
    }
}

#[test]
fn shadow_zero_distance_has_no_particular_angle_but_does_not_panic() {
    let shadow = ShadowParams::none();
    let (_, distance) = angle_and_distance(&shadow);
    assert_eq!(distance, 0.0);
}

#[test]
fn with_preset_preserves_a_custom_angle_across_every_preset() {
    let mut shadow = ShadowParams::none();
    shadow.offset_x = offset_for(135.0, 6.0).0;
    shadow.offset_y = offset_for(135.0, 6.0).1;

    for preset in
        [ShadowPreset::subtle(), ShadowPreset::standard(), ShadowPreset::strong(), ShadowPreset::floating()]
    {
        shadow = with_preset(&shadow, preset);
        let (angle, _) = angle_and_distance(&shadow);
        assert!((angle - 135.0).abs() < 1e-9, "expected angle to stay 135°, got {angle}");
    }
}

#[test]
fn with_preset_applies_the_presets_own_blur_opacity_and_color() {
    let shadow = with_preset(&ShadowParams::none(), ShadowPreset::strong());
    assert_eq!(shadow.blur, ShadowPreset::strong().blur);
    assert_eq!(shadow.opacity, ShadowPreset::strong().opacity);
    assert_eq!(shadow.color, ShadowPreset::strong().color);
    assert!(shadow.enabled);
}

#[test]
fn with_preset_none_disables_the_shadow() {
    let shadow = with_preset(&ShadowParams::strong(), ShadowPreset::none());
    assert!(!shadow.enabled);
}

#[test]
fn presets_have_their_documented_strengths() {
    let all = [
        (ShadowPreset::none(), 0.0, 0.0, 0.0),
        (ShadowPreset::subtle(), 2.0, 8.0, 0.15),
        (ShadowPreset::standard(), 6.0, 16.0, 0.25),
        (ShadowPreset::strong(), 12.0, 28.0, 0.4),
        (ShadowPreset::floating(), 24.0, 40.0, 0.3),
    ];
    for (preset, distance, blur, opacity) in all {
        assert_eq!(preset.distance, num(distance));
        assert_eq!(preset.blur, num(blur));
        assert_eq!(preset.opacity, num(opacity));
        assert_eq!(preset.color, Rgba::black());
    }
    assert!(!ShadowPreset::none().enabled());
    assert!(ShadowPreset::subtle().enabled());
    assert_eq!(ShadowParams::standard().offset_y, num(6.0));
    assert_eq!(ShadowParams::standard().offset_x, num(0.0));
}

#[test]
fn semantic_position_places_the_box_at_each_named_corner() {
    let (ref_w, ref_h, box_w, box_h, padding) = (num(1000.0), num(800.0), num(200.0), num(100.0), num(20.0));

    let top_left =
        TextPosition::Semantic { horizontal: HorizontalAnchor::Left, vertical: VerticalAnchor::Top, padding };
    assert_eq!(top_left.resolve_box_origin(ref_w, ref_h, box_w, box_h), (num(20.0), num(20.0)));

    let bottom_right =
        TextPosition::Semantic { horizontal: HorizontalAnchor::Right, vertical: VerticalAnchor::Bottom, padding };
    assert_eq!(
        bottom_right.resolve_box_origin(ref_w, ref_h, box_w, box_h),
        (num(1000.0 - 200.0 - 20.0), num(800.0 - 100.0 - 20.0))
    );

    let center =
        TextPosition::Semantic { horizontal: HorizontalAnchor::Center, vertical: VerticalAnchor::Center, padding };
    assert_eq!(
        center.resolve_box_origin(ref_w, ref_h, box_w, box_h),
        (num((1000.0 - 200.0) / 2.0), num((800.0 - 100.0) / 2.0))
    );
}

#[test]
fn semantic_position_tracks_a_changing_reference_rect_size() {
    let position = TextPosition::Semantic {
        horizontal: HorizontalAnchor::Center,
        vertical: VerticalAnchor::Top,
        padding: num(32.0),
    };

    let at_1080p = position.resolve_box_origin(num(1920.0), num(1080.0), num(400.0), num(80.0));
    let at_4k = position.resolve_box_origin(num(3840.0), num(2160.0), num(400.0), num(80.0));

    assert_eq!(at_1080p, (num((1920.0 - 400.0) / 2.0), num(32.0)));
    assert_eq!(at_4k, (num((3840.0 - 400.0) / 2.0), num(32.0)));
    assert_ne!(at_1080p.0, at_4k.0, "centering must follow the new width, not stay at the old absolute x");
}

#[test]
fn absolute_position_ignores_the_reference_rect_entirely() {
    let position = TextPosition::Absolute { x: num(42.0), y: num(17.0) };
    let at = (num(42.0), num(17.0));
    assert_eq!(position.resolve_box_origin(num(100.0), num(100.0), num(30.0), num(30.0)), at);
    assert_eq!(position.resolve_box_origin(num(5000.0), num(5000.0), num(30.0), num(30.0)), at);
}

#[test]
fn wrap_width_is_bounded_by_semantic_padding_on_both_sides() {
    let el = TextElement {
        position: TextPosition::Semantic {
            horizontal: HorizontalAnchor::Center,
            vertical: VerticalAnchor::Top,
            padding: num(50.0),
        },
        ..TextElement::title_default()
    };
    assert_eq!(el.wrap_width(num(1000.0)), num(900.0));
}

#[test]
fn wrap_width_for_absolute_position_falls_back_to_the_full_reference_width() {
    let el = TextElement {
        position: TextPosition::Absolute { x: num(10.0), y: num(10.0) },
        ..TextElement::title_default()
    };
    assert_eq!(el.wrap_width(num(1000.0)), num(1000.0));
}

#[test]
fn screenshot_element_gets_a_disabled_default_label() {
    let el = ScreenshotElement::new(ImageSource::Path(PathBuf::from("a.png")), num(100.0), num(200.0));
    assert!(!el.label.enabled);
    assert_eq!(el.label.content, "");
}

#[test]
fn document_gets_a_disabled_default_title() {
    let doc = Document::new();
    assert!(!doc.title.enabled);
}

#[test]
fn fresh_ids_are_random_version_four_ids() {
    let ids: Vec<u128> = (0..50).map(|_| Document::new().id).collect();
    for (i, id) in ids.iter().enumerate() {
        assert_eq!((id >> 76) & 0xF, 4);
        assert_eq!((id >> 62) & 0x3, 2);
        assert!(!ids[..i].contains(id));
    }
}

#[test]
fn a_new_document_has_the_default_look() {
    let doc = Document::new();
    assert!(doc.elements.is_empty());
    assert_eq!(doc.layout.mode, LayoutMode::Horizontal);
    assert_eq!(doc.layout.spacing_px, num(24.0));
    assert_eq!(doc.layout.margin_px, num(48.0));
    assert_eq!((doc.canvas.export_width, doc.canvas.export_height), (1920, 1080));
    assert_eq!((doc.canvas.export_target_width, doc.canvas.export_quality), (1920, 90));
    match &doc.background {
        Background::Gradient(g) => {
            assert_eq!(g.kind, GradientKind::Linear { angle_deg: num(135.0) });
            assert_eq!(g.stops[0], (num(0.0), Rgba::new(num(0.86), num(0.90), num(0.97), num(1.0))));
            assert_eq!(g.stops[1], (num(1.0), Rgba::new(num(0.98), num(0.98), num(0.99), num(1.0))));
        }
        other => panic!("expected a gradient, got {other:?}"),
    }
}

#[test]
fn a_copy_of_a_document_is_equal_in_every_part() {
    let mut doc = Document::new();
    doc.elements.push(ScreenshotElement::new(
        ImageSource::Embedded { filename: "x.png".to_string(), bytes: vec![1, 2, 3] },
        num(5.0),
        num(6.0),
    ));
    doc.background = Background::Generated(GeneratedBackground::new(7));
    doc.elements[0].corner_radius = CornerRadius::uniform(num(3.0));
    let copy = doc.clone();
    assert_eq!(copy.id, doc.id);
    assert_eq!(copy.elements[0].source, doc.elements[0].source);
    assert_eq!(copy.elements[0].corner_radius, CornerRadius::uniform(num(3.0)));
    assert_eq!(copy.background, doc.background);
    assert_eq!(copy.title, doc.title);
}

#[test]
fn a_locked_resize_keeps_the_ratio_of_a_narrow_element() {
    let mut narrow = fixture();
    narrow.aspect_locked = true;
    narrow.width = num(10.0);
    narrow.height = num(100.0);
    let resized = narrow.resized_from_corner(Corner::BottomRight, num(10.0), num(0.0));
    assert_eq!((resized.width, resized.height), (num(20.0), num(200.0)));
    narrow.width = num(0.0);
    let resized = narrow.resized_from_corner(Corner::BottomRight, num(40.0), num(0.0));
    assert_eq!((resized.width, resized.height), (num(40.0), num(200.0)));
}

#[test]
fn a_direction_is_given_below_a_full_turn() {
    let shadow = ShadowParams::none();
    let degrees = |angle: f64| shadow.angle_and_distance(num(1.0), num(angle)).0;
    assert_eq!(degrees(-1e-20), num(0.0));
    assert_eq!(degrees(-std::f64::consts::FRAC_PI_2), num(270.0));
    assert_eq!(degrees(std::f64::consts::PI), num(180.0));
}

#[test]
fn a_preset_keeps_the_proportion_of_the_offset_and_sets_its_length() {
    for angle in [0.0, 12.5, 91.0, 200.0, 359.0] {
        let mut shadow = ShadowParams::none();
        (shadow.offset_x, shadow.offset_y) = offset_for(angle, 7.0);
        let new = with_preset(&shadow, ShadowPreset::floating());
        assert!((val(new.offset_x) * 7.0 - val(shadow.offset_x) * 24.0).abs() < 1e-9);
        assert!((val(new.offset_y) * 7.0 - val(shadow.offset_y) * 24.0).abs() < 1e-9);
        assert!((val(new.offset_x).hypot(val(new.offset_y)) - 24.0).abs() < 1e-9);
        let (cosine, sine) = (num(angle.to_radians().cos()), num(angle.to_radians().sin()));
        let twice = shadow.with_preset(ShadowPreset::subtle(), cosine, sine);
        assert_eq!(
            twice.with_preset(ShadowPreset::strong(), cosine, sine),
            shadow.with_preset(ShadowPreset::strong(), cosine, sine)
        );
    }
}
