use los_checker::ratio::Ratio;
use los_checker::ray::{Ray2, Ray3};

fn r(num: i64, den: i64) -> Ratio {
    Ratio { num, den }
}

#[test]
fn sub_ray_of_exact_ray_ends_at_end_t() {
    let ray = Ray2 { start_x: r(1, 2), start_y: r(0, 1), diff_x: r(3, 1), diff_y: r(-2, 3) };
    let sub = ray.sub_ray(r(1, 3), r(3, 4));
    assert!(sub.start_x.eq_value(&r(3, 2)));
    assert!(sub.start_y.eq_value(&r(-2, 9)));
    assert!(sub.end_x().eq_value(&r(11, 4)));
    assert!(sub.end_y().eq_value(&r(-1, 2)));
}

#[test]
fn float_rays() {
    let ray = Ray3 { start_x: 1.0, start_y: 2.0, start_z: 3.0, diff_x: 4.0, diff_y: -2.0, diff_z: 8.0 };
    assert_eq!(ray.end_x(), 5.0);
    assert_eq!(ray.end_y(), 0.0);
    assert_eq!(ray.end_z(), 11.0);
    let sub = ray.sub_ray(0.5, 1.0);
    assert_eq!(sub, Ray3 { start_x: 3.0, start_y: 1.0, start_z: 7.0, diff_x: 2.0, diff_y: -1.0, diff_z: 4.0 });
    let flat = ray.as_ray_2();
    assert_eq!(flat, Ray2 { start_x: 1.0, start_y: 2.0, diff_x: 4.0, diff_y: -2.0 });
    assert_eq!(flat.with_z(3.0, 8.0), ray);
    assert_eq!(flat.scale(0.5), Ray2 { start_x: 0.5, start_y: 1.0, diff_x: 2.0, diff_y: -1.0 });
    assert_eq!(
        ray.scale_x_y(2.0),
        Ray3 { start_x: 2.0, start_y: 4.0, start_z: 3.0, diff_x: 8.0, diff_y: -4.0, diff_z: 8.0 }
    );
    let flat_sub = flat.sub_ray(0.25, 0.75);
    assert_eq!(flat_sub, Ray2 { start_x: 2.0, start_y: 1.5, diff_x: 2.0, diff_y: -1.0 });
}

#[test]
fn ratio_arithmetic() {
    let sum = r(1, 2) + r(1, 3);
    assert!(sum.eq_value(&r(5, 6)));
    let difference = r(1, 2) - r(1, 3);
    assert!(difference.eq_value(&r(1, 6)));
    let product = r(2, 3) * r(-3, 4);
    assert!(product.eq_value(&r(-1, 2)));
    assert!(r(1, 3).lt_value(&r(1, 2)));
    assert!(!r(2, 4).lt_value(&r(1, 2)));
}
