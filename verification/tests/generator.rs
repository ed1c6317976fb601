use screenforge::double::Double;
use screenforge::generator::{
    choose_corner, cut_angle, edge_point, gradient_line, occupancy, palette_lerp, render, required_sweep, wave_angle, wrap_to_pi,
    Point, ScenePlan, ScreenshotRegion, SEGMENTS,
};
use screenforge::model::{ColorStrategy, GeneratedBackground, Rgba};
use screenforge::rng::Rng;

fn num(v: f64) -> Double {
    Double::from_bits(v.to_bits())
}

fn val(v: Double) -> f64 {
    f64::from_bits(v.bits)
}

fn rgb(r: f64, g: f64, b: f64) -> Rgba {
    Rgba::new(num(r), num(g), num(b), num(1.0))
}

fn sample_background(seed: u64, corner_bias: f64) -> GeneratedBackground {
    GeneratedBackground {
        palette: vec![rgb(0.2, 0.3, 0.6), rgb(0.8, 0.5, 0.2), rgb(0.9, 0.9, 0.9)],
        color_strategy: ColorStrategy::FromScreenshots,
        corner_bias: num(corner_bias),
        ..GeneratedBackground::new(seed)
    }
}

fn scene(bg: &GeneratedBackground, regions: &[ScreenshotRegion]) -> ScenePlan {
    render(bg, num(300.0), num(200.0), regions).unwrap()
}

#[test]
fn renders_without_error_and_paints_something_at_both_extremes() {
    for corner_bias in [0.0, 0.5, 1.0] {
        let plan = scene(&sample_background(1, corner_bias), &[]);
        assert!(!plan.layers.is_empty(), "corner_bias={corner_bias} painted nothing at all");
        assert_eq!(plan.layers.len(), plan.fan.layer_count);
        assert!(plan.layers.iter().all(|l| val(l.alpha) > 0.0));
    }
}

#[test]
fn the_same_seed_and_parameters_render_identically() {
    let bg = sample_background(12345, 0.5);
    assert_eq!(scene(&bg, &[]), scene(&bg, &[]), "identical inputs must give the identical scene");
}

#[test]
fn a_different_seed_renders_a_visibly_different_scene() {
    let a = scene(&sample_background(1, 0.5), &[]);
    let b = scene(&sample_background(2, 0.5), &[]);
    assert_ne!(a, b, "different seeds should not coincidentally give the same scene");
}

#[test]
fn different_corner_bias_renders_differently_for_the_same_seed() {
    let a = scene(&sample_background(7, 0.0), &[]);
    let b = scene(&sample_background(7, 1.0), &[]);
    assert_ne!(a, b);
}

#[test]
fn offset_changes_the_rendered_scene() {
    let mut bg = sample_background(3, 0.7);
    let unmoved = scene(&bg, &[]);
    bg.offset_x = num(0.4);
    bg.offset_y = num(-0.3);
    let moved = scene(&bg, &[]);
    assert_ne!(unmoved, moved, "a nonzero offset should visibly shift the pattern");
}

#[test]
fn scale_changes_the_rendered_scene() {
    let mut bg = sample_background(3, 0.7);
    let unscaled = scene(&bg, &[]);
    bg.scale = num(1.8);
    let scaled = scene(&bg, &[]);
    assert_ne!(unscaled, scaled, "a nonzero scale change should visibly resize the pattern");
}

#[test]
fn required_sweep_always_clears_every_canvas_corner() {
    let corners: [(f64, f64); 4] = [(0.0, 0.0), (400.0, 0.0), (0.0, 300.0), (400.0, 300.0)];
    let focus_points: [(f64, f64); 5] =
        [(0.0, 0.0), (400.0, 300.0), (-500.0, -400.0), (200.0, 150.0), (900.0, 150.0)];
    for &focus in &focus_points {
        let base_angle = (150.0 - focus.1).atan2(200.0 - focus.0);
        let angles: Vec<Double> = corners.iter().map(|&(x, y)| num((y - focus.1).atan2(x - focus.0))).collect();
        let sweep = val(required_sweep(num(base_angle), &angles));
        for &(x, y) in &corners {
            let offset = val(wrap_to_pi(num((y - focus.1).atan2(x - focus.0) - base_angle))).abs();
            assert!(
                offset <= sweep / 2.0 + 1e-9,
                "corner ({x}, {y}) at offset {offset} not covered by sweep {sweep} from focus {focus:?}"
            );
        }
    }
}

#[test]
fn zero_size_canvas_does_not_panic() {
    let bg = sample_background(1, 0.5);
    assert_eq!(render(&bg, num(0.0), num(0.0), &[]), None);
}

#[test]
fn empty_palette_falls_back_to_a_neutral_color_without_panicking() {
    let mut bg = sample_background(1, 0.5);
    bg.palette.clear();
    let plan = render(&bg, num(100.0), num(100.0), &[]).unwrap();
    for layer in &plan.layers {
        assert_eq!(layer.color.r, layer.color.g);
        assert!((val(layer.color.g) - val(layer.color.b)).abs() < 0.03);
    }
}

#[test]
fn adapt_to_screenshots_changes_output_versus_not_adapting() {
    let mut bg = sample_background(42, 0.8);
    let regions = [ScreenshotRegion { x: num(50.0), y: num(50.0), width: num(200.0), height: num(100.0) }];

    bg.adapt_to_screenshots = false;
    let not_avoiding = scene(&bg, &regions);
    bg.adapt_to_screenshots = true;
    let avoiding = scene(&bg, &regions);

    assert_ne!(not_avoiding, avoiding, "avoiding screenshot regions should change the chosen focus corner");
}

#[test]
fn palette_lerp_of_empty_palette_is_neutral_gray() {
    let c = palette_lerp(&[], num(0.5));
    assert_eq!(c, rgb(0.5, 0.5, 0.5));
}

#[test]
fn palette_lerp_at_the_ends_returns_the_end_colors_exactly() {
    let palette = vec![rgb(0.0, 0.0, 0.0), rgb(1.0, 1.0, 1.0)];
    assert_eq!(palette_lerp(&palette, num(0.0)), palette[0]);
    assert_eq!(palette_lerp(&palette, num(1.0)), palette[1]);
}

#[test]
fn palette_lerp_at_the_midpoint_blends_the_two_nearest_colors() {
    let palette = vec![rgb(0.0, 0.0, 0.0), rgb(1.0, 1.0, 1.0)];
    let mid = palette_lerp(&palette, num(0.5));
    assert!((val(mid.r) - 0.5).abs() < 1e-9);
}

#[test]
fn angles_wrap_into_half_a_turn() {
    let pi = std::f64::consts::PI;
    assert_eq!(wrap_to_pi(num(0.5)), num(0.5));
    assert!((val(wrap_to_pi(num(1.5 * pi))) + 0.5 * pi).abs() < 1e-12);
    assert!((val(wrap_to_pi(num(-1.5 * pi))) - 0.5 * pi).abs() < 1e-12);
    assert!((val(wrap_to_pi(num(2.0 * pi + 0.25))) - 0.25).abs() < 1e-12);
    assert_eq!(wrap_to_pi(num(-pi)), num(pi));
    assert_eq!(wrap_to_pi(num(pi)), num(pi));
    assert_eq!(wrap_to_pi(num(3.0 * pi)), num(pi));
    for angle in [-1e300, -700.0, -6.3, -3.2, -1e-320, 0.0, 3.2, 6.3, 700.0, 1e300] {
        let wrapped = val(wrap_to_pi(num(angle)));
        assert!(-pi < wrapped && wrapped <= pi, "{angle} wraps to {wrapped}");
    }
    assert!(val(wrap_to_pi(num(f64::INFINITY))).is_nan());
}

#[test]
fn a_sweep_reaches_even_the_opposite_direction_and_is_no_full_turn() {
    let pi = std::f64::consts::PI;
    for base in [0.0, 1.0, -2.5] {
        let angles = [num(base + pi), num(base + 0.3)];
        let sweep = val(required_sweep(num(base), &angles));
        for angle in angles {
            assert!(val(wrap_to_pi(num(val(angle) - base))).abs() <= sweep / 2.0 + 1e-9);
        }
        assert!(sweep < 2.0 * pi);
    }
    assert_eq!(val(required_sweep(num(0.0), &[num(pi)])), f64::from_bits((2.0 * pi).to_bits() - 1));
    let margin = 8.0f64.to_radians();
    assert_eq!(val(required_sweep(num(0.0), &[num(0.5)])), 1.0 + margin * 2.0);
}

#[test]
fn remoteness_from_a_region_grows_from_its_middle_to_its_edge() {
    let region = ScreenshotRegion { x: num(0.0), y: num(0.0), width: num(100.0), height: num(50.0) };
    let at = |x: f64, y: f64| val(region.proximity(Point { x: num(x), y: num(y) }));
    assert_eq!(at(50.0, 25.0), 0.0);
    assert_eq!(at(75.0, 25.0), 0.5);
    assert_eq!(at(100.0, 25.0), 1.0);
    assert_eq!(at(500.0, 25.0), 1.0);
}

#[test]
fn the_clearest_corner_is_chosen_and_the_generator_decides_between_equal_ones() {
    let corner = |seed: u64, regions: &[ScreenshotRegion]| {
        let p = choose_corner(&mut Rng::new(seed), num(400.0), num(300.0), regions, true);
        (val(p.x), val(p.y))
    };
    // Three corners are covered, the last one is clear.
    let around = |x: f64, y: f64| ScreenshotRegion {
        x: num(x - 50.0),
        y: num(y - 50.0),
        width: num(100.0),
        height: num(100.0),
    };
    let covered = [around(0.0, 0.0), around(400.0, 0.0), around(0.0, 300.0)];
    for seed in 0..20 {
        assert_eq!(corner(seed, &covered), (400.0, 300.0));
    }
    // With all four clear, every one of them is chosen by some seed.
    let middle = [around(200.0, 150.0)];
    let chosen: Vec<(f64, f64)> = (0..100).map(|seed| corner(seed, &middle)).collect();
    for expected in [(0.0, 0.0), (400.0, 0.0), (0.0, 300.0), (400.0, 300.0)] {
        assert!(chosen.contains(&expected), "no seed chooses {expected:?}");
    }
}

#[test]
fn a_point_in_a_region_is_more_occupied_than_a_far_one() {
    let regions = [ScreenshotRegion { x: num(0.0), y: num(0.0), width: num(100.0), height: num(100.0) }];
    let near = val(occupancy(Point { x: num(50.0), y: num(50.0) }, &regions));
    let far = val(occupancy(Point { x: num(5000.0), y: num(5000.0) }, &regions));
    assert!(near > far);
    assert_eq!(val(occupancy(Point { x: num(1.0), y: num(1.0) }, &[])), 0.0);
}

#[test]
fn a_gradient_line_runs_through_the_middle() {
    let (a, b) = gradient_line(num(300.0), num(200.0), num(1.0), num(0.0));
    assert!(((val(a.x) + val(b.x)) / 2.0 - 150.0).abs() < 1e-9);
    assert_eq!((val(a.y), val(b.y)), (100.0, 100.0));
    assert!(val(a.x) < val(b.x));
}

#[test]
fn the_cuts_of_an_edge_span_the_sweep() {
    let (base, sweep) = (num(1.0), num(2.0));
    assert_eq!(cut_angle(base, sweep, 0), num(0.0));
    assert_eq!(cut_angle(base, sweep, SEGMENTS), num(2.0));
    let plan = scene(&sample_background(5, 0.5), &[]);
    let layer = &plan.layers[0];
    assert_eq!(wave_angle(&plan.fan, layer, 0), layer.phase);
    let p = edge_point(&plan.fan, layer, num(0.0), num(1.0), num(0.0));
    let expected = val(plan.fan.focus.x) + val(layer.radius).max(1.0);
    assert_eq!(val(p.x), expected);
    assert_eq!(val(p.y), val(plan.fan.focus.y));
}
