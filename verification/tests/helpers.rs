use polyanya::helpers::{
    distance_between, heuristic, line_intersect_segment, mirror, on_segment, on_side, turning_on,
    EdgeSide, Point,
};

fn fx(v: f32) -> i64 {
    (v as f64 * 1e6).round() as i64
}

fn pt(p: [f32; 2]) -> Point {
    Point::new(fx(p[0]), fx(p[1]))
}

fn seg(i: [[f32; 2]; 2]) -> [Point; 2] {
    [pt(i[0]), pt(i[1])]
}

#[test]
fn test_on_side() {
    assert_eq!(
        on_side(pt([0.0, 0.5]), seg([[0.0, 0.0], [1.0, 0.0]])),
        EdgeSide::Left
    );
    assert_eq!(
        on_side(pt([0.0, -0.5]), seg([[0.0, 0.0], [1.0, 0.0]])),
        EdgeSide::Right
    );
    assert_eq!(
        on_side(pt([1.0, 0.0]), seg([[0.0, 0.0], [1.0, 1.0]])),
        EdgeSide::Right
    );
    assert_eq!(
        on_side(pt([0.0, 1.0]), seg([[0.0, 0.0], [1.0, 1.0]])),
        EdgeSide::Left
    );
    assert_eq!(
        on_side(pt([2.0, 2.0]), seg([[0.0, 0.0], [1.0, 1.0]])),
        EdgeSide::Edge
    );
}

#[test]
fn test_mirror() {
    assert_eq!(
        mirror(pt([1.0, 0.0]), seg([[0.0, 0.0], [0.0, 1.0]])),
        Some(pt([-1.0, 0.0]))
    );
    assert_eq!(
        mirror(pt([-1.0, 0.0]), seg([[0.0, 0.0], [0.0, 1.0]])),
        Some(pt([1.0, 0.0]))
    );
}

#[test]
fn test_heuristic() {
    assert_eq!(
        heuristic(pt([0.0, 0.0]), pt([1.0, 1.0]), seg([[1.0, 0.0], [0.0, 1.0]])),
        Some(fx(2.0_f32.sqrt()))
    );
    assert_eq!(
        heuristic(pt([0.0, 0.0]), pt([2.0, -1.0]), seg([[1.0, 0.0], [0.0, 1.0]])),
        Some(fx(1.0 + 2.0_f32.sqrt()))
    );
    assert_eq!(
        heuristic(pt([0.0, 0.0]), pt([-1.0, 2.0]), seg([[1.0, 0.0], [0.0, 1.0]])),
        Some(fx(1.0 + 2.0_f32.sqrt()))
    );
    assert_eq!(
        heuristic(pt([0.0, 0.0]), pt([1.0, -1.0]), seg([[1.0, 0.0], [0.0, 1.0]])),
        Some(fx(2.0))
    );
}

#[test]
fn test_line_intersect() {
    assert_eq!(
        line_intersect_segment(seg([[0.0, 0.5], [0.5, 0.5]]), seg([[1.0, 0.0], [1.0, 1.0]])),
        Some(pt([1.0, 0.5]))
    );
    assert_eq!(
        line_intersect_segment(seg([[0.0, 0.0], [0.5, 0.8]]), seg([[1.0, 0.0], [1.0, 0.2]])),
        None
    );
    assert_eq!(
        line_intersect_segment(seg([[0.0, 0.8], [0.5, 0.0]]), seg([[1.0, 0.0], [1.0, 0.2]])),
        None
    );
}

#[test]
fn test_line_intersect_colinear() {
    assert_eq!(
        line_intersect_segment(seg([[0.0, 0.5], [0.5, 0.5]]), seg([[-1.0, 0.5], [1.0, 0.5]])),
        None
    );
}

#[test]
fn side_tolerance_is_a_hundredth() {
    // cross product 0.009 and 0.011 of a squared unit against the x axis
    let axis = seg([[0.0, 0.0], [1.0, 0.0]]);
    assert_eq!(on_side(Point::new(500_000, 9_000), axis), EdgeSide::Edge);
    assert_eq!(on_side(Point::new(500_000, -9_000), axis), EdgeSide::Edge);
    assert_eq!(on_side(Point::new(500_000, 10_000), axis), EdgeSide::Left);
    assert_eq!(on_side(Point::new(500_000, -10_000), axis), EdgeSide::Right);
}

#[test]
fn on_segment_needs_the_bounding_box() {
    let s = seg([[0.0, 0.0], [2.0, 0.0]]);
    assert!(on_segment(pt([1.0, 0.0]), s));
    assert!(on_segment(pt([0.0, 0.0]), s));
    assert!(on_segment(pt([2.0, 0.0]), s));
    assert!(!on_segment(pt([3.0, 0.0]), s));
    assert!(!on_segment(pt([1.0, 1.0]), s));
}

#[test]
fn distance_is_rounded_to_the_nearest_step() {
    assert_eq!(distance_between(pt([0.0, 0.0]), pt([3.0, 4.0])), 5_000_000);
    assert_eq!(distance_between(pt([1.0, 1.0]), pt([1.0, 1.0])), 0);
    // sqrt(2) = 1.41421356..., sqrt(3) = 1.7320508...
    assert_eq!(distance_between(pt([0.0, 0.0]), pt([1.0, 1.0])), 1_414_214);
    assert_eq!(distance_between(Point::new(0, 0), Point::new(1, 1)), 1);
    assert_eq!(distance_between(Point::new(0, 0), Point::new(1, 0)), 1);
    assert_eq!(distance_between(Point::new(0, 0), Point::new(2, 1)), 2);
    assert_eq!(distance_between(Point::new(0, 0), Point::new(-3, 3)), 4);
}

#[test]
fn mirror_of_a_degenerate_line_is_none() {
    assert_eq!(mirror(pt([1.0, 2.0]), seg([[3.0, 3.0], [3.0, 3.0]])), None);
    assert_eq!(heuristic(pt([0.0, 0.0]), pt([1.0, 2.0]), seg([[3.0, 3.0], [3.0, 3.0]])), None);
}

#[test]
fn mirror_rounds_to_the_nearest_step() {
    // across the line through (0,0) and (1,2): (1,0) goes to (-3/5, 4/5)
    assert_eq!(
        mirror(pt([1.0, 0.0]), seg([[0.0, 0.0], [1.0, 2.0]])),
        Some(Point::new(-600_000, 800_000))
    );
    // across the line through (0,0) and (1,3): (1,0) goes to (-4/5, 3/5)
    assert_eq!(
        mirror(pt([1.0, 0.0]), seg([[0.0, 0.0], [1.0, 3.0]])),
        Some(Point::new(-800_000, 600_000))
    );
    // across the line through (0,0) and (2,3): (1,0) goes to (-5/13, 12/13)
    assert_eq!(
        mirror(pt([1.0, 0.0]), seg([[0.0, 0.0], [2.0, 3.0]])),
        Some(Point::new(-384_615, 923_077))
    );
}

#[test]
fn intersection_is_rounded_and_stays_on_the_segment() {
    // the line x = 1/3 * y meets the segment from (0,1) to (1,1) at (1/3, 1)
    assert_eq!(
        line_intersect_segment(seg([[0.0, 0.0], [1.0, 3.0]]), seg([[0.0, 1.0], [1.0, 1.0]])),
        Some(Point::new(333_333, 1_000_000))
    );
    // at the very ends of the segment
    assert_eq!(
        line_intersect_segment(seg([[0.0, 0.0], [0.0, 3.0]]), seg([[0.0, 1.0], [1.0, 1.0]])),
        Some(pt([0.0, 1.0]))
    );
    assert_eq!(
        line_intersect_segment(seg([[1.0, 0.0], [1.0, 3.0]]), seg([[0.0, 1.0], [1.0, 1.0]])),
        Some(pt([1.0, 1.0]))
    );
}

#[test]
fn heuristic_from_an_end_of_the_interval_is_the_straight_distance() {
    let i = seg([[1.0, 0.0], [0.0, 1.0]]);
    assert_eq!(
        heuristic(pt([1.0, 0.0]), pt([5.0, 3.0]), i),
        Some(distance_between(pt([1.0, 0.0]), pt([5.0, 3.0])))
    );
    assert_eq!(
        heuristic(pt([0.0, 1.0]), pt([-5.0, -3.0]), i),
        Some(distance_between(pt([0.0, 1.0]), pt([-5.0, -3.0])))
    );
}

#[test]
fn turning_on_picks_the_end_to_go_around() {
    let i = seg([[1.0, 0.0], [1.0, 1.0]]);
    let r = pt([0.0, 0.5]);
    // straight ahead
    assert_eq!(turning_on(r, pt([2.0, 0.5]), i), None);
    // far to the right of the right ray
    assert_eq!(turning_on(r, pt([2.0, -5.0]), i), Some(pt([1.0, 0.0])));
    // far to the left of the left ray
    assert_eq!(turning_on(r, pt([2.0, 5.0]), i), Some(pt([1.0, 1.0])));
    // a goal on the near side is mirrored first
    assert_eq!(turning_on(r, pt([0.0, 6.0]), i), Some(pt([1.0, 1.0])));
    // across a degenerate interval the turn is its left end
    assert_eq!(
        turning_on(r, pt([2.0, 0.5]), seg([[1.0, 1.0], [1.0, 1.0]])),
        Some(pt([1.0, 1.0]))
    );
}
