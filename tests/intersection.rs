use planar_graph::intersection::Intersection;
use planar_graph::vector::Vector;

fn v(x: i32, y: i32) -> Vector {
    Vector::new(x, y)
}

#[test]
fn endpoint_touch_crosses_halfway() {
    let r = Intersection::find(&v(0, 0), &v(2, 0), &v(1, -1), &v(1, 1)).unwrap();
    assert_eq!(r.position, v(1, 0));
    assert_eq!(r.offset_num, 2);
    assert_eq!(r.offset_den, 4);
    assert_eq!(r.offset_num as f64 / r.offset_den as f64, 0.5);
}

#[test]
fn parallel_segments_do_not_cross() {
    assert!(Intersection::find(&v(0, 0), &v(1, 0), &v(0, 1), &v(1, 1)).is_none());
}

#[test]
fn collinear_disjoint_segments_do_not_cross() {
    assert!(Intersection::find(&v(0, 0), &v(1, 0), &v(2, 0), &v(3, 0)).is_none());
}

#[test]
fn collinear_overlapping_segments_do_not_cross() {
    assert!(Intersection::find(&v(0, 0), &v(4, 0), &v(1, 0), &v(3, 0)).is_none());
}

#[test]
fn zero_length_segment_does_not_cross() {
    assert!(Intersection::find(&v(1, 1), &v(1, 1), &v(0, 0), &v(2, 2)).is_none());
}

#[test]
fn lines_meeting_outside_a_segment_do_not_cross() {
    assert!(Intersection::find(&v(0, 0), &v(1, 0), &v(2, -1), &v(2, 1)).is_none());
    assert!(Intersection::find(&v(2, -1), &v(2, 1), &v(0, 0), &v(1, 0)).is_none());
}

#[test]
fn swapped_segments_agree_on_crossing_and_point() {
    let (a, b, c, d) = (v(0, 0), v(2, 0), v(1, -1), v(1, 1));
    let first = Intersection::find(&a, &b, &c, &d).unwrap();
    let second = Intersection::find(&c, &d, &a, &b).unwrap();
    assert_eq!(first.position, second.position);

    let (a, b, c, d) = (v(0, 0), v(8, 0), v(2, -1), v(2, 3));
    let first = Intersection::find(&a, &b, &c, &d).unwrap();
    let second = Intersection::find(&c, &d, &a, &b).unwrap();
    assert_eq!(first.position, v(2, 0));
    assert_eq!(second.position, v(2, 0));
    assert_eq!(first.offset_num * 4, first.offset_den);
    assert_eq!(second.offset_num * 4, second.offset_den);

    let (a, b, c, d) = (v(0, 0), v(1, 0), v(2, -1), v(2, 1));
    assert!(Intersection::find(&a, &b, &c, &d).is_none());
    assert!(Intersection::find(&c, &d, &a, &b).is_none());
}

#[test]
fn crossing_at_a_third() {
    let r = Intersection::find(&v(0, 0), &v(-3, -3), &v(-2, 0), &v(0, -2)).unwrap();
    assert_eq!(r.position, v(-1, -1));
    assert_eq!(r.offset_num * 3, r.offset_den);
}

#[test]
fn shared_endpoint_crosses_at_the_end() {
    let r = Intersection::find(&v(0, 0), &v(4, 4), &v(4, 4), &v(8, 0)).unwrap();
    assert_eq!(r.position, v(4, 4));
    assert_eq!(r.offset_num, r.offset_den);
}

#[test]
fn crossing_point_rounds_toward_zero() {
    let r = Intersection::find(&v(0, 0), &v(3, 1), &v(0, 1), &v(3, 0)).unwrap();
    assert_eq!(r.position, v(1, 0));
    assert_eq!(r.offset_num * 2, r.offset_den);

    let r = Intersection::find(&v(0, 0), &v(-3, -1), &v(0, -1), &v(-3, 0)).unwrap();
    assert_eq!(r.position, v(-1, 0));
    assert_eq!(r.offset_num * 2, r.offset_den);
}

#[test]
fn extreme_coordinates_do_not_overflow() {
    let (lo, hi) = (i32::MIN, i32::MAX);
    let r = Intersection::find(&v(lo, lo), &v(hi, hi), &v(lo, hi), &v(hi, lo)).unwrap();
    assert_eq!(r.position, v(0, 0));
    assert_eq!(r.offset_num, 18446744065119617025);
    assert_eq!(r.offset_den, 36893488130239234050);
}
