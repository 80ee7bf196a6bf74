use line_segment_intersections::coord::Coord;
use line_segment_intersections::event_queue::EventQueue;
use line_segment_intersections::point::Point;
use line_segment_intersections::segment::LineSegment;
use num::Float;
use std::cmp::Ordering;

fn coord(v: f64) -> Coord {
    let (mantissa, exponent, sign) = v.integer_decode();
    Coord::from_decoded(mantissa, exponent, sign).unwrap()
}

fn pt(x: f64, y: f64) -> Point {
    Point::new(coord(x), coord(y))
}

#[test]
fn order_by_y_coordinate() {
    let point1 = pt(1., 5.);
    let point2 = pt(6., 0.);

    assert_eq!(point1.cmp(&point2), Ordering::Greater)
}

#[test]
fn order_by_x_coordinate_if_y_equal() {
    let point1 = pt(1., 5.);
    let point2 = pt(3., 5.);

    assert_eq!(point1.cmp(&point2), Ordering::Greater)
}

#[test]
fn event_queue_does_not_duplicate() {
    let p1 = pt(1., 5.);
    let p2 = pt(4., 3.);
    let p3 = pt(3., 5.);

    let mut queue = EventQueue::new();

    queue.push(p1);
    queue.push(p2);
    queue.push(p3);
    queue.push(p2);

    assert_eq!(queue.len(), 3);
}

#[test]
fn higher_point_is_greater_whatever_x() {
    let pairs = [(-100.0, 2.5, 100.0, 2.0), (7.0, 0.0, -7.0, -0.5), (0.0, 1e300, 1e-300, -1e300)];
    for (ax, ay, bx, by) in pairs {
        assert_eq!(pt(ax, ay).cmp(&pt(bx, by)), Ordering::Greater);
        assert_eq!(pt(bx, by).cmp(&pt(ax, ay)), Ordering::Less);
    }
}

#[test]
fn left_most_wins_at_equal_height() {
    assert_eq!(pt(-3.0, 1.0).cmp(&pt(-2.0, 1.0)), Ordering::Greater);
    assert_eq!(pt(2.0, 1.0).cmp(&pt(-2.0, 1.0)), Ordering::Less);
    assert_eq!(pt(2.0, 1.0).cmp(&pt(2.0, 1.0)), Ordering::Equal);
}

#[test]
fn coordinate_values_compare_exactly() {
    let values = [
        -1e300, -3.5, -1.0, -0.75, -5e-324, 0.0, 5e-324, 2.2250738585072014e-308, 0.1, 0.5,
        1.0, 1.0000000000000002, 3.0, 1e10, 1.7976931348623157e308,
    ];
    for (i, a) in values.iter().enumerate() {
        for (j, b) in values.iter().enumerate() {
            assert_eq!(coord(*a).value_cmp(&coord(*b)), i.cmp(&j), "{} vs {}", a, b);
        }
    }
}

#[test]
fn signed_zeros_compare_equal_but_are_distinct_keys() {
    let pos = coord(0.0);
    let neg = coord(-0.0);
    assert_eq!(pos.value_cmp(&neg), Ordering::Equal);
    assert_ne!(pos, neg);
    let mut queue = EventQueue::new();
    queue.push(Point::new(pos, pos));
    queue.push(Point::new(neg, pos));
    assert_eq!(queue.len(), 2);
}

#[test]
fn nan_and_infinities_are_rejected() {
    for v in [f64::NAN, f64::INFINITY, f64::NEG_INFINITY] {
        let (m, e, s) = v.integer_decode();
        assert_eq!(Coord::from_decoded(m, e, s), None);
    }
    assert_eq!(Coord::from_decoded(1 << 52, 0, 0), None);
    assert_eq!(Coord::from_decoded(1, 0, 1), None);
    assert_eq!(Coord::from_decoded(3, -1075, 1), None);
    assert_eq!(
        Coord::from_decoded(1 << 52, 0, -1),
        Some(Coord { mantissa: 1 << 52, exponent: 0, sign: -1 })
    );
}

#[test]
fn partial_cmp_looks_at_height_only() {
    assert_eq!(pt(1.0, 5.0).partial_cmp(&pt(3.0, 5.0)), Some(Ordering::Equal));
    assert_eq!(pt(9.0, 5.0).partial_cmp(&pt(3.0, 4.0)), Some(Ordering::Greater));
    assert_eq!(pt(9.0, 3.0).partial_cmp(&pt(3.0, 4.0)), Some(Ordering::Less));
}

#[test]
fn pushing_twice_keeps_size() {
    let mut queue = EventQueue::new();
    queue.push(pt(2.0, 2.0));
    assert_eq!(queue.len(), 1);
    queue.push(pt(2.0, 2.0));
    assert_eq!(queue.len(), 1);
    assert!(queue.contains(&pt(2.0, 2.0)));
    assert!(!queue.contains(&pt(2.0, 3.0)));
}

#[test]
fn pop_yields_sweep_order_then_none() {
    let mut queue = EventQueue::new();
    assert!(queue.is_empty());
    assert_eq!(queue.pop(), None);
    for (x, y) in [(4.0, 3.0), (1.0, 5.0), (3.0, 5.0), (0.0, 0.0), (-1.0, 3.0), (1.0, 5.0)] {
        queue.push(pt(x, y));
    }
    assert_eq!(queue.len(), 5);
    let expected = [(1.0, 5.0), (3.0, 5.0), (-1.0, 3.0), (4.0, 3.0), (0.0, 0.0)];
    for (x, y) in expected {
        assert_eq!(queue.pop(), Some(pt(x, y)));
    }
    assert_eq!(queue.pop(), None);
    assert!(queue.is_empty());
    assert!(!queue.contains(&pt(1.0, 5.0)));
}

#[test]
fn drain_is_non_increasing_and_empties() {
    let mut queue = EventQueue::new();
    for (x, y) in [(0.0, 0.0), (4.0, 4.0), (0.0, 4.0), (4.0, 0.0), (2.0, 2.0), (0.0, 2.0)] {
        queue.push(pt(x, y));
    }
    let out = queue.drain();
    assert_eq!(out.len(), 6);
    for w in out.windows(2) {
        assert_ne!(w[0].cmp(&w[1]), Ordering::Less);
    }
    assert_eq!(out[0], pt(0.0, 4.0));
    assert_eq!(out[5], pt(4.0, 0.0));
    assert!(queue.is_empty());
    assert_eq!(queue.pop(), None);
}

#[test]
fn iter_lists_queued_points_without_changing_them() {
    let mut queue = EventQueue::new();
    queue.push(pt(1.0, 1.0));
    queue.push(pt(0.0, 2.0));
    queue.push(pt(1.0, 1.0));
    let first = queue.iter();
    let second = queue.iter();
    assert_eq!(first, second);
    assert_eq!(first, vec![pt(1.0, 1.0), pt(0.0, 2.0)]);
    assert_eq!(queue.len(), 2);
}

#[test]
fn segment_puts_upper_endpoint_first() {
    let s = LineSegment::new(pt(0.0, 0.0), pt(4.0, 4.0)).unwrap();
    assert_eq!(s.upper, pt(4.0, 4.0));
    assert_eq!(s.lower, pt(0.0, 0.0));
    let h = LineSegment::new(pt(4.0, 2.0), pt(0.0, 2.0)).unwrap();
    assert_eq!(h.upper, pt(0.0, 2.0));
    assert_eq!(h.lower, pt(4.0, 2.0));
}

#[test]
fn zero_length_segment_is_rejected() {
    assert_eq!(LineSegment::new(pt(1.0, 1.0), pt(1.0, 1.0)), None);
    assert_eq!(LineSegment::new(pt(0.0, 1.0), pt(-0.0, 1.0)), None);
}
