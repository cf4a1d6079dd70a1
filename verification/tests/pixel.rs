use los_checker::ratio::Ratio;
use los_checker::ray::Ray2;
use los_checker::traversal::pixel::{PixelSegment, PixelTraversal};

fn r(num: i64, den: i64) -> Ratio {
    Ratio { num, den }
}

fn segment(pixel_x: i32, pixel_y: i32, start_t: Ratio, end_t: Ratio) -> PixelSegment {
    PixelSegment { pixel_x, pixel_y, start_t, end_t }
}

/// Compares segments by pixel and by the numbers their times stand for.
fn assert_segment(actual: Option<PixelSegment>, expected: PixelSegment) {
    let actual = actual.expect("a segment");
    assert_eq!((actual.pixel_x, actual.pixel_y), (expected.pixel_x, expected.pixel_y));
    assert!(actual.start_t.eq_value(&expected.start_t), "{actual:?} {expected:?}");
    assert!(actual.end_t.eq_value(&expected.end_t), "{actual:?} {expected:?}");
}

#[test]
fn segments_of_a_ray_across_pixels() {
    let ray = Ray2 { start_x: r(1, 2), start_y: r(1, 2), diff_x: r(2, 1), diff_y: r(1, 1) };
    let mut traversal = PixelTraversal::new(ray);
    // x crosses 1 at t = 1/4 and 2 at t = 3/4, y crosses 1 at t = 1/2
    assert_segment(traversal.next(), segment(0, 0, r(0, 1), r(1, 4)));
    assert_segment(traversal.next(), segment(1, 0, r(1, 4), r(2, 4)));
    assert_segment(traversal.next(), segment(1, 1, r(2, 4), r(3, 4)));
    assert_segment(traversal.next(), segment(2, 1, r(3, 4), r(1, 1)));
    assert_eq!(traversal.next(), None);
    assert_eq!(traversal.next(), None);
}

#[test]
fn ray_inside_one_pixel_is_one_segment() {
    let ray = Ray2 { start_x: r(1, 4), start_y: r(1, 4), diff_x: r(1, 2), diff_y: r(0, 1) };
    let mut traversal = PixelTraversal::new(ray);
    assert_segment(traversal.next(), segment(0, 0, r(0, 1), r(1, 1)));
    assert_eq!(traversal.next(), None);
}

#[test]
fn touching_a_boundary_is_not_crossing_it() {
    // ends exactly on x = 1 and starts exactly on x = 0 moving down in y
    let ray = Ray2 { start_x: r(0, 1), start_y: r(3, 2), diff_x: r(1, 1), diff_y: r(-1, 4) };
    let mut traversal = PixelTraversal::new(ray);
    assert_segment(traversal.next(), segment(0, 1, r(0, 1), r(1, 1)));
    assert_eq!(traversal.next(), None);
}

#[test]
fn find_stops_at_the_first_matching_segment() {
    let ray = Ray2 { start_x: r(1, 2), start_y: r(1, 2), diff_x: r(2, 1), diff_y: r(1, 1) };
    let mut traversal = PixelTraversal::new(ray);
    let found = traversal.find(|s| s.pixel_y == 1);
    assert_segment(found, segment(1, 1, r(2, 4), r(3, 4)));
    // the traversal goes on after the segment found
    assert_segment(traversal.next(), segment(2, 1, r(3, 4), r(1, 1)));
    assert_eq!(traversal.find(|_| true), None);
}

#[test]
fn find_without_match_consumes_every_segment() {
    let ray = Ray2 { start_x: r(1, 2), start_y: r(1, 2), diff_x: r(2, 1), diff_y: r(1, 1) };
    let mut traversal = PixelTraversal::new(ray);
    assert_eq!(traversal.find(|s| s.pixel_x == 5), None);
    assert_eq!(traversal.next(), None);
}
