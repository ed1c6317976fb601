use screenforge::double::Double;
use screenforge::snap::{snap_position, Guide, Rect};

fn num(v: f64) -> Double {
    Double::from_bits(v.to_bits())
}

fn rect(x: f64, y: f64, width: f64, height: f64) -> Rect {
    Rect { x: num(x), y: num(y), width: num(width), height: num(height) }
}

#[test]
fn snaps_left_edge_to_another_elements_left_edge() {
    let moving = rect(103.0, 500.0, 100.0, 100.0);
    let others = [rect(100.0, 0.0, 50.0, 50.0)];
    let result = snap_position(moving, &others, num(2000.0), num(2000.0), num(10.0));
    assert_eq!(result.x, num(100.0));
    assert!(result.guides.contains(&Guide::Vertical(num(100.0))));
}

#[test]
fn snaps_center_to_canvas_center() {
    let moving = rect(448.0, 500.0, 100.0, 100.0);
    let result = snap_position(moving, &[], num(1000.0), num(1000.0), num(10.0));
    assert_eq!(result.x, num(450.0));
    assert!(result.guides.contains(&Guide::Vertical(num(500.0))));
}

#[test]
fn does_not_snap_beyond_threshold() {
    let moving = rect(200.0, 200.0, 100.0, 100.0);
    let others = [rect(0.0, 0.0, 50.0, 50.0)];
    let result = snap_position(moving, &others, num(2000.0), num(2000.0), num(5.0));
    assert_eq!(result.x, num(200.0));
    assert_eq!(result.y, num(200.0));
    assert!(result.guides.is_empty());
}

#[test]
fn snaps_each_axis_independently() {
    let moving = rect(199.0, 301.0, 100.0, 100.0);
    let others = [rect(200.0, 0.0, 10.0, 50.0)];
    let result = snap_position(moving, &others, num(5000.0), num(5000.0), num(10.0));
    assert_eq!(result.x, num(200.0));
    assert_eq!(result.y, num(301.0));
}

#[test]
fn picks_the_closest_candidate_when_several_are_in_range() {
    let moving = rect(104.0, 0.0, 100.0, 100.0);
    let others = [rect(100.0, 0.0, 0.0, 1.0), rect(108.0, 0.0, 0.0, 1.0)];
    let result = snap_position(moving, &others, num(5000.0), num(5000.0), num(10.0));
    assert!(result.x == num(100.0) || result.x == num(108.0));
}

#[test]
fn the_nearer_of_two_candidates_wins() {
    let moving = rect(104.0, 1000.0, 100.0, 100.0);
    let others = [rect(98.0, 0.0, 0.0, 1.0), rect(106.0, 0.0, 0.0, 1.0)];
    let result = snap_position(moving, &others, num(5000.0), num(5000.0), num(10.0));
    assert_eq!(result.x, num(106.0));
    assert_eq!(result.guides, vec![Guide::Vertical(num(106.0))]);
}
