use screenforge::decoration::DecorationPreset;
use screenforge::double::Double;
use screenforge::model::{Rgba, VectorShape};

fn num(v: f64) -> Double {
    Double::from_bits(v.to_bits())
}

fn val(v: Double) -> f64 {
    f64::from_bits(v.bits)
}

#[test]
fn dot_grid_covers_the_canvas_without_touching_its_edges() {
    let shapes = DecorationPreset::Dots.shapes(num(200.0), num(100.0), Rgba::black());
    assert!(!shapes.is_empty());
    for shape in &shapes {
        let VectorShape::Circle { cx, cy, radius, .. } = shape else { panic!("expected only circles") };
        let (cx, cy, radius) = (val(*cx), val(*cy), val(*radius));
        assert!(cx - radius >= 0.0 && cx + radius <= 200.0);
        assert!(cy - radius >= 0.0 && cy + radius <= 100.0);
    }
}

#[test]
fn dot_grid_uses_the_given_color() {
    let color = Rgba::new(num(0.2), num(0.4), num(0.6), num(0.8));
    let shapes = DecorationPreset::Dots.shapes(num(100.0), num(100.0), color);
    assert!(shapes.iter().all(|s| matches!(s, VectorShape::Circle { color: c, .. } if *c == color)));
}

#[test]
fn diagonal_lines_cover_the_canvas_corners() {
    let shapes = DecorationPreset::DiagonalLines.shapes(num(300.0), num(150.0), Rgba::black());
    assert!(!shapes.is_empty());
    let VectorShape::Line { x1, y2, .. } = shapes.first().unwrap() else { panic!("expected only lines") };
    assert_eq!((*x1, *y2), (num(-150.0), num(150.0)));
    let VectorShape::Line { x2, y1, .. } = shapes.last().unwrap() else { panic!("expected only lines") };
    assert!(val(*x2) >= 300.0);
    assert_eq!(*y1, num(0.0));
}

#[test]
fn empty_canvas_produces_no_shapes() {
    assert!(DecorationPreset::Dots.shapes(num(0.0), num(0.0), Rgba::black()).is_empty());
    assert!(DecorationPreset::DiagonalLines.shapes(num(0.0), num(0.0), Rgba::black()).is_empty());
}
