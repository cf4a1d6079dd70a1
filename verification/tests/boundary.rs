use los_checker::ratio::Ratio;
use los_checker::ray::Ray2;
use los_checker::traversal::boundary::{BoundaryCrossing, BoundaryTraversal, BoundaryType};

/// The exact value of a finite `f64` as a ratio whose denominator is a power of two.
fn exact(x: f64) -> Ratio {
    if x == 0.0 {
        return Ratio { num: 0, den: 1 };
    }
    let bits = x.to_bits();
    let negative = bits >> 63 == 1;
    let exponent = ((bits >> 52) & 0x7ff) as i64;
    let fraction = bits & 0x000f_ffff_ffff_ffff;
    let (mut mantissa, mut shift) = if exponent == 0 {
        (fraction as i128, 1074i64)
    } else {
        ((fraction | 0x0010_0000_0000_0000) as i128, 1075 - exponent)
    };
    while shift > 0 && mantissa % 2 == 0 {
        mantissa /= 2;
        shift -= 1;
    }
    let (num, den) = if shift >= 0 {
        (mantissa, 1i128 << shift)
    } else {
        (mantissa << (-shift), 1i128)
    };
    let num = if negative { -num } else { num };
    Ratio { num: num as i64, den: den as i64 }
}

fn ray(start_x: f64, start_y: f64, diff_x: f64, diff_y: f64) -> Ray2<Ratio> {
    Ray2 {
        start_x: exact(start_x),
        start_y: exact(start_y),
        diff_x: exact(diff_x),
        diff_y: exact(diff_y),
    }
}

fn as_f64(t: Ratio) -> f64 {
    t.num as f64 / t.den as f64
}

fn as_f32(t: Ratio) -> f32 {
    t.num as f32 / t.den as f32
}

fn assert_crossing(actual: Option<BoundaryCrossing>, boundary_type: BoundaryType, t: f64, pixel_x: i32, pixel_y: i32) {
    let crossing = actual.expect("a crossing");
    assert_eq!(crossing.boundary_type, boundary_type);
    assert_eq!(as_f64(crossing.t), t);
    assert_eq!(crossing.pixel_x, pixel_x);
    assert_eq!(crossing.pixel_y, pixel_y);
}

fn assert_crossing_f32(actual: Option<BoundaryCrossing>, boundary_type: BoundaryType, t: f32, pixel_x: i32, pixel_y: i32) {
    let crossing = actual.expect("a crossing");
    assert_eq!(crossing.boundary_type, boundary_type);
    assert_eq!(as_f32(crossing.t), t);
    assert_eq!(crossing.pixel_x, pixel_x);
    assert_eq!(crossing.pixel_y, pixel_y);
}

#[test]
fn edge_case() {
    let ray = ray(0.0, 165.00000000087311, 1835.0000000000364, 1834.9999999991269);
    assert!(BoundaryTraversal::accepts(&ray));
    let mut traversal = BoundaryTraversal::new(ray);
    while let Some(crossing) = traversal.next() {
        assert!(crossing.pixel_x < 2000, "{crossing:#?}");
        assert!(crossing.pixel_y < 2000, "{crossing:#?}");
    }
}

#[test]
fn only_x_increasing() {
    let mut traversal = BoundaryTraversal::new(ray(0.0, 0.0, 4.0, 0.0));
    assert_crossing(traversal.next(), BoundaryType::X, 0.25, 1, 0);
    assert_crossing(traversal.next(), BoundaryType::X, 0.5, 2, 0);
    assert_crossing(traversal.next(), BoundaryType::X, 0.75, 3, 0);
    assert_eq!(traversal.next(), None);
}

#[test]
fn only_x_increasing_starts_out_of_bounds() {
    let mut traversal = BoundaryTraversal::new(ray(-1.0, 0.0, 5.0, 0.0));
    assert_crossing_f32(traversal.next(), BoundaryType::X, 0.2, 0, 0);
    assert_crossing_f32(traversal.next(), BoundaryType::X, 0.4, 1, 0);
    assert_crossing_f32(traversal.next(), BoundaryType::X, 0.6, 2, 0);
    assert_crossing_f32(traversal.next(), BoundaryType::X, 0.8, 3, 0);
    assert_eq!(traversal.next(), None);
}

#[test]
fn only_x_decreasing() {
    let mut traversal = BoundaryTraversal::new(ray(4.0, 0.0, -4.0, 0.0));
    assert_crossing(traversal.next(), BoundaryType::X, 0.25, 2, 0);
    assert_crossing(traversal.next(), BoundaryType::X, 0.5, 1, 0);
    assert_crossing(traversal.next(), BoundaryType::X, 0.75, 0, 0);
    assert_eq!(traversal.next(), None);
}

#[test]
fn only_y_increasing() {
    let mut traversal = BoundaryTraversal::new(ray(0.0, 0.0, 0.0, 4.0));
    assert_crossing(traversal.next(), BoundaryType::Y, 0.25, 0, 1);
    assert_crossing(traversal.next(), BoundaryType::Y, 0.5, 0, 2);
    assert_crossing(traversal.next(), BoundaryType::Y, 0.75, 0, 3);
    assert_eq!(traversal.next(), None);
}

#[test]
fn only_y_decreasing() {
    let mut traversal = BoundaryTraversal::new(ray(0.0, 4.0, 0.0, -4.0));
    assert_crossing(traversal.next(), BoundaryType::Y, 0.25, 0, 2);
    assert_crossing(traversal.next(), BoundaryType::Y, 0.5, 0, 1);
    assert_crossing(traversal.next(), BoundaryType::Y, 0.75, 0, 0);
    assert_eq!(traversal.next(), None);
}

#[test]
fn perfectly_diagonal_increasing() {
    let mut traversal = BoundaryTraversal::new(ray(0.0, 0.0, 4.0, 4.0));
    assert_crossing(traversal.next(), BoundaryType::XY, 0.25, 1, 1);
    assert_crossing(traversal.next(), BoundaryType::XY, 0.5, 2, 2);
    assert_crossing(traversal.next(), BoundaryType::XY, 0.75, 3, 3);
    assert_eq!(traversal.next(), None);
}

#[test]
fn perfectly_diagonal_decreasing() {
    let mut traversal = BoundaryTraversal::new(ray(4.0, 4.0, -4.0, -4.0));
    assert_crossing(traversal.next(), BoundaryType::XY, 0.25, 2, 2);
    assert_crossing(traversal.next(), BoundaryType::XY, 0.5, 1, 1);
    assert_crossing(traversal.next(), BoundaryType::XY, 0.75, 0, 0);
    assert_eq!(traversal.next(), None);
}

#[test]
fn half_diagonal_increasing() {
    let mut traversal = BoundaryTraversal::new(ray(0.0, 0.0, 4.0, 2.0));
    assert_crossing(traversal.next(), BoundaryType::X, 0.25, 1, 0);
    assert_crossing(traversal.next(), BoundaryType::XY, 0.5, 2, 1);
    assert_crossing(traversal.next(), BoundaryType::X, 0.75, 3, 1);
    assert_eq!(traversal.next(), None);
}
