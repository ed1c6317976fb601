use screenforge::double::Double;
use screenforge::model::{ColorStrategy, Rgba};
use screenforge::palette::{
    average_color, base_color, color_of_pixel, cone_responses, extract_palette, lab_from_polar, lab_from_roots,
    linear_base, linear_light, linear_to_srgb, resolve_palette, sample_pixels, spread_angle, srgb_to_linear, suggest_gradient,
    Oklab, Oklch, Pixel, PixelSample, Triple,
};

fn num(v: f64) -> Double {
    Double::from_bits(v.to_bits())
}

fn val(v: Double) -> f64 {
    f64::from_bits(v.bits)
}

fn solid_pixels(w: i32, h: i32, r: u8, g: u8, b: u8, a: u8) -> Vec<u8> {
    let af = a as f64 / 255.0;
    let (pr, pg, pb) = ((r as f64 * af) as u8, (g as f64 * af) as u8, (b as f64 * af) as u8);
    [pb, pg, pr, a].repeat((w * h) as usize)
}

fn sample(bytes: &[u8], side: i32) -> PixelSample<'_> {
    PixelSample { bytes, width: side, height: side }
}

fn linear(c: Double) -> Double {
    srgb_to_linear(c, num(val(linear_base(c)).powf(2.4)))
}

fn lab(c: Rgba) -> Oklab {
    let light = Triple { x: linear(c.r), y: linear(c.g), z: linear(c.b) };
    let cones = cone_responses(light);
    lab_from_roots(Triple {
        x: num(val(cones.x).cbrt()),
        y: num(val(cones.y).cbrt()),
        z: num(val(cones.z).cbrt()),
    })
}

fn channel(c: Double) -> Double {
    linear_to_srgb(c, num(val(c).powf(1.0 / 2.4)))
}

fn rgb(c: Oklab) -> Rgba {
    let light = linear_light(c);
    Rgba::new(channel(light.x), channel(light.y), channel(light.z), num(1.0))
}

fn rgb_of_polar(c: Oklch) -> Rgba {
    let hue = val(c.hue);
    rgb(lab_from_polar(c, num(hue.cos()), num(hue.sin())))
}

fn polar(c: Oklab) -> Oklch {
    let (a, b) = (val(c.a), val(c.b));
    Oklch { lightness: c.l, chroma: num(a.hypot(b)), hue: num(b.atan2(a)) }
}

fn suggested(images: &[PixelSample], seed: u32) -> Vec<(Double, Rgba)> {
    let source = polar(lab(average_color(images)));
    let sine = num(val(spread_angle(seed)).sin());
    let plan = suggest_gradient(source.lightness, source.chroma, source.hue, seed, sine);
    vec![(num(0.0), rgb_of_polar(plan.first)), (num(1.0), rgb_of_polar(plan.last))]
}

fn pixel_color(p: &Pixel) -> Rgba {
    let a = p.a as f64;
    let part = |v: u8| num((v as f64 / a).clamp(0.0, 1.0));
    Rgba::new(part(p.r), part(p.g), part(p.b), num(1.0))
}

fn extracted(images: &[PixelSample], count: usize) -> Vec<Rgba> {
    let pixels = sample_pixels(images);
    let labs: Vec<Oklab> = pixels.iter().map(|p| lab(pixel_color(p))).collect();
    extract_palette(&pixels, &labs, count)
}

fn resolved(images: &[PixelSample], strategy: ColorStrategy, inverse_contrast: f64, seed: u64) -> Vec<Rgba> {
    let dominant = extracted(images, 3);
    let base = polar(lab(base_color(&dominant, average_color(images))));
    resolve_palette(strategy, base, num(inverse_contrast), seed).into_iter().map(rgb_of_polar).collect()
}

#[test]
fn average_color_of_a_solid_image_is_that_color() {
    let pixels = solid_pixels(20, 20, 200, 100, 50, 255);
    let avg = average_color(&[sample(&pixels, 20)]);
    assert!((val(avg.r) - 200.0 / 255.0).abs() < 0.02);
    assert!((val(avg.g) - 100.0 / 255.0).abs() < 0.02);
    assert!((val(avg.b) - 50.0 / 255.0).abs() < 0.02);
}

#[test]
fn average_color_of_no_images_is_a_neutral_fallback_not_a_panic() {
    let avg = average_color(&[]);
    assert_eq!(avg, Rgba::new(num(0.5), num(0.5), num(0.5), num(1.0)));
}

#[test]
fn fully_transparent_pixels_are_excluded_rather_than_counted_as_black() {
    let pixels = solid_pixels(20, 20, 10, 10, 10, 0);
    let avg = average_color(&[sample(&pixels, 20)]);
    assert_eq!(avg, Rgba::new(num(0.5), num(0.5), num(0.5), num(1.0)));
}

#[test]
fn a_dark_blue_source_suggests_a_lighter_warmer_background() {
    let pixels = solid_pixels(20, 20, 10, 20, 90, 255);
    for (_, color) in suggested(&[sample(&pixels, 20)], 0) {
        let c = lab(color);
        let l = val(c.l);
        assert!(l > 0.35, "expected a lighter background, got lightness {l}");
        let hue = val(c.b).atan2(val(c.a)).to_degrees().rem_euclid(360.0);
        assert!((0.0..=160.0).contains(&hue), "expected a warm-ish hue, got {hue}°");
    }
}

#[test]
fn a_light_orange_source_suggests_a_darker_cooler_background() {
    let pixels = solid_pixels(20, 20, 230, 150, 60, 255);
    for (_, color) in suggested(&[sample(&pixels, 20)], 0) {
        let l = val(lab(color).l);
        assert!(l < 0.65, "expected a darker background, got lightness {l}");
    }
}

#[test]
fn different_seeds_produce_different_but_still_complementary_palettes() {
    let pixels = solid_pixels(20, 20, 20, 40, 180, 255);
    let a = suggested(&[sample(&pixels, 20)], 0);
    let b = suggested(&[sample(&pixels, 20)], 1);
    assert_ne!(a, b, "a different seed should suggest a different palette");
}

#[test]
fn the_same_seed_reproduces_the_same_palette() {
    let pixels = solid_pixels(20, 20, 20, 40, 180, 255);
    let a = suggested(&[sample(&pixels, 20)], 7);
    let b = suggested(&[sample(&pixels, 20)], 7);
    assert_eq!(a, b);
}

#[test]
fn oklab_round_trips_srgb_within_tolerance() {
    for (r, g, b) in [(1.0, 0.0, 0.0), (0.0, 1.0, 0.0), (0.0, 0.0, 1.0), (0.5, 0.5, 0.5), (0.2, 0.7, 0.9)] {
        let color = Rgba::new(num(r), num(g), num(b), num(1.0));
        let back = rgb(lab(color));
        assert!((val(back.r) - r).abs() < 0.01, "r: {back:?} vs {color:?}");
        assert!((val(back.g) - g).abs() < 0.01, "g: {back:?} vs {color:?}");
        assert!((val(back.b) - b).abs() < 0.01, "b: {back:?} vs {color:?}");
    }
}

#[test]
fn suggested_gradient_never_produces_nan_or_out_of_range_channels() {
    for (r, g, b) in [(0, 0, 0), (255, 255, 255)] {
        let pixels = solid_pixels(10, 10, r, g, b, 255);
        for (_, color) in suggested(&[sample(&pixels, 10)], 3) {
            for channel in [val(color.r), val(color.g), val(color.b)] {
                assert!(channel.is_finite() && (0.0..=1.0).contains(&channel), "bad channel: {channel}");
            }
        }
    }
}

#[test]
fn extract_palette_finds_distinct_dominant_colors_across_images() {
    let red = solid_pixels(20, 20, 220, 30, 30, 255);
    let blue = solid_pixels(20, 20, 30, 30, 220, 255);
    let palette = extracted(&[sample(&red, 20), sample(&blue, 20)], 4);
    assert!(palette.len() >= 2, "expected at least two dominant clusters, got {}", palette.len());
    let has_reddish = palette.iter().any(|c| val(c.r) > val(c.b));
    let has_bluish = palette.iter().any(|c| val(c.b) > val(c.r));
    assert!(has_reddish && has_bluish, "expected both a reddish and a bluish cluster: {palette:?}");
}

#[test]
fn extract_palette_never_returns_more_than_requested() {
    let pixels = solid_pixels(20, 20, 100, 150, 200, 255);
    let palette = extracted(&[sample(&pixels, 20)], 2);
    assert!(palette.len() <= 2);
}

#[test]
fn extract_palette_of_no_images_is_empty_not_a_panic() {
    assert!(extracted(&[], 4).is_empty());
}

#[test]
fn resolve_palette_is_deterministic_for_every_strategy() {
    let pixels = solid_pixels(20, 20, 40, 90, 180, 255);
    for strategy in [ColorStrategy::FromScreenshots, ColorStrategy::Grayscale, ColorStrategy::Random] {
        let images = [sample(&pixels, 20)];
        let a = resolved(&images, strategy, 0.5, 99);
        let b = resolved(&images, strategy, 0.5, 99);
        assert_eq!(a, b, "{strategy:?} should be deterministic for the same inputs");
        assert!(!a.is_empty(), "{strategy:?} produced an empty palette");
        for color in &a {
            for channel in [val(color.r), val(color.g), val(color.b), val(color.a)] {
                assert!(
                    channel.is_finite() && (0.0..=1.0).contains(&channel),
                    "{strategy:?} produced a bad channel: {channel}"
                );
            }
        }
    }
}

#[test]
fn manual_strategy_resolves_to_an_empty_palette() {
    let pixels = solid_pixels(20, 20, 40, 90, 180, 255);
    assert!(resolved(&[sample(&pixels, 20)], ColorStrategy::Manual, 0.5, 1).is_empty());
}

#[test]
fn random_strategy_ignores_the_images_and_only_depends_on_seed() {
    let pixels = solid_pixels(20, 20, 10, 200, 10, 255);
    let with_images = resolved(&[sample(&pixels, 20)], ColorStrategy::Random, 0.5, 7);
    let without_images = resolved(&[], ColorStrategy::Random, 0.5, 7);
    assert_eq!(with_images, without_images);
}

#[test]
fn different_seeds_give_different_random_palettes() {
    let a = resolved(&[], ColorStrategy::Random, 0.5, 1);
    let b = resolved(&[], ColorStrategy::Random, 0.5, 2);
    assert_ne!(a, b);
}

#[test]
fn grayscale_strategy_produces_neutral_colors() {
    let pixels = solid_pixels(20, 20, 220, 30, 30, 255);
    for color in resolved(&[sample(&pixels, 20)], ColorStrategy::Grayscale, 0.5, 1) {
        let (r, g, b) = (val(color.r), val(color.g), val(color.b));
        let max_channel = r.max(g).max(b);
        let min_channel = r.min(g).min(b);
        assert!(max_channel - min_channel < 0.02, "expected a neutral color, got {color:?}");
    }
}

#[test]
fn from_screenshots_strategy_leans_toward_complement_as_inverse_contrast_rises() {
    let pixels = solid_pixels(20, 20, 10, 20, 90, 255);
    let low = resolved(&[sample(&pixels, 20)], ColorStrategy::FromScreenshots, 0.0, 1);
    let high = resolved(&[sample(&pixels, 20)], ColorStrategy::FromScreenshots, 1.0, 1);
    assert_ne!(low, high, "inverse_contrast should change the resolved palette");
}

#[test]
fn resolve_palette_with_no_images_falls_back_gracefully() {
    for strategy in [ColorStrategy::FromScreenshots, ColorStrategy::Grayscale] {
        let palette = resolved(&[], strategy, 0.5, 1);
        assert!(!palette.is_empty());
    }
}

#[test]
fn every_seventh_visible_pixel_is_sampled() {
    let pixels = solid_pixels(20, 20, 1, 2, 3, 255);
    let sampled = sample_pixels(&[sample(&pixels, 20)]);
    assert_eq!(sampled.len(), 9);
    assert_eq!(sampled[0], Pixel { b: 3, g: 2, r: 1, a: 255 });
    // A buffer that is cut short ends the sampling of its image.
    assert_eq!(sample_pixels(&[sample(&pixels[..20 * 4 * 8], 20)]).len(), 6);
    assert_eq!(sample_pixels(&[PixelSample { bytes: &pixels, width: -1, height: 20 }]).len(), 0);
}

#[test]
fn the_gradient_angle_follows_from_the_seed() {
    for seed in [0u32, 1, 2, 5, 1000, u32::MAX] {
        let plan = suggest_gradient(num(0.4), num(0.1), num(1.0), seed, num(0.0));
        let expected = (seed as f64 * 63.398).rem_euclid(360.0);
        assert_eq!(val(plan.angle_deg).to_bits(), expected.to_bits());
        let spread = seed as f64 * 0.6180339887 * 2.0 * std::f64::consts::PI;
        assert_eq!(val(spread_angle(seed)).to_bits(), spread.to_bits());
    }
}

#[test]
fn heavier_clusters_come_first_and_ties_go_by_key() {
    let dark = Pixel { b: 10, g: 10, r: 10, a: 255 };
    let light = Pixel { b: 240, g: 240, r: 240, a: 255 };
    let all = [light, dark, light];
    let labs: Vec<Oklab> = all.iter().map(|p| lab(pixel_color(p))).collect();
    let ranked = extract_palette(&all, &labs, 5);
    assert_eq!(ranked.len(), 2);
    assert_eq!(ranked[0], pixel_color(&light));
    let tied = [light, dark];
    let labs: Vec<Oklab> = tied.iter().map(|p| lab(pixel_color(p))).collect();
    let ranked = extract_palette(&tied, &labs, 1);
    assert_eq!(ranked, vec![pixel_color(&dark)]);
    assert!(extract_palette(&tied, &labs, 0).is_empty());
}

#[test]
fn only_palettes_from_screenshots_turn_with_the_inverse_contrast() {
    let pixels = solid_pixels(20, 20, 0, 0, 0, 255);
    for strategy in [ColorStrategy::Manual, ColorStrategy::Random, ColorStrategy::Grayscale] {
        let low = resolved(&[sample(&pixels, 20)], strategy, 0.0, 3);
        let high = resolved(&[sample(&pixels, 20)], strategy, 1.0, 3);
        assert_eq!(low, high);
    }
    let low = resolved(&[sample(&pixels, 20)], ColorStrategy::FromScreenshots, 0.0, 3);
    let high = resolved(&[sample(&pixels, 20)], ColorStrategy::FromScreenshots, 1.0, 3);
    assert_ne!(low, high);
    let black = Oklch { lightness: num(0.0), chroma: num(0.0), hue: num(0.0) };
    let grays = resolve_palette(ColorStrategy::Grayscale, black, num(1.0), 3);
    assert_eq!(val(grays[0].lightness), 0.05);
}

#[test]
fn every_seed_contrasts_alike() {
    let a = suggest_gradient(num(0.3), num(0.1), num(1.0), 0, num(0.0));
    let b = suggest_gradient(num(0.3), num(0.1), num(1.0), 7, num(0.5));
    assert_eq!((a.first.lightness, a.first.chroma), (b.first.lightness, b.first.chroma));
    assert_eq!((a.last.lightness, a.last.chroma), (b.last.lightness, b.last.chroma));
    assert_eq!((val(a.first.lightness), val(a.last.lightness)), (0.7, 0.7 * 1.15));
    assert_ne!(a.first.hue, b.first.hue);
    assert_ne!(a.angle_deg, b.angle_deg);
}

#[test]
fn a_pixel_shows_its_straight_color() {
    let c = color_of_pixel(Pixel { b: 32, g: 0, r: 64, a: 128 });
    assert_eq!((val(c.r), val(c.g), val(c.b), val(c.a)), (0.5, 0.0, 0.25, 1.0));
}
