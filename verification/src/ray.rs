use vstd::prelude::*;
use vstd::std_specs::ops::{AddSpec, MulSpec, SubSpec};
use std::ops::{Add, Mul, Sub};
use crate::ratio::Ratio;

verus! {

/// A two-dimensional ray from `(start_x, start_y)` to `(start_x + diff_x, start_y + diff_y)`.
#[derive(Debug, Clone, Copy, PartialEq)]
pub struct Ray2<T> {
    pub start_x: T,
    pub start_y: T,
    pub diff_x: T,
    pub diff_y: T,
}

/// A three-dimensional ray from `start` to `start + diff`.
#[derive(Debug, Clone, Copy, PartialEq)]
pub struct Ray3<T> {
    pub start_x: T,
    pub start_y: T,
    pub start_z: T,
    pub diff_x: T,
    pub diff_y: T,
    pub diff_z: T,
}

/// `start + diff * t`, the point at `t` along one coordinate.
pub open spec fn point_at<T: Add<Output = T> + Mul<Output = T>>(start: T, diff: T, t: T) -> T {
    start.add_spec(diff.mul_spec(t))
}

/// The operations that computing the point at `t` along one coordinate performs are allowed.
pub open spec fn point_at_req<T: Add<Output = T> + Mul<Output = T>>(start: T, diff: T, t: T) -> bool {
    diff.mul_req(t) && start.add_req(diff.mul_spec(t))
}

/// `diff * (end_t - start_t)`, the difference of a coordinate over `[start_t, end_t]`.
pub open spec fn span<T: Sub<Output = T> + Mul<Output = T>>(diff: T, start_t: T, end_t: T) -> T {
    diff.mul_spec(end_t.sub_spec(start_t))
}

/// The operations that computing `span` performs are allowed.
pub open spec fn span_req<T: Sub<Output = T> + Mul<Output = T>>(diff: T, start_t: T, end_t: T) -> bool {
    end_t.sub_req(start_t) && diff.mul_req(end_t.sub_spec(start_t))
}

impl<T: Copy + Add<Output = T> + Sub<Output = T> + Mul<Output = T>> Ray2<T> {
    /// The part of the ray between `start_t` and `end_t`.
    pub fn sub_ray(&self, start_t: T, end_t: T) -> (r: Self)
        requires
            T::obeys_add_spec(),
            T::obeys_sub_spec(),
            T::obeys_mul_spec(),
            point_at_req(self.start_x, self.diff_x, start_t),
            point_at_req(self.start_y, self.diff_y, start_t),
            span_req(self.diff_x, start_t, end_t),
            span_req(self.diff_y, start_t, end_t),
        ensures
            r == (Ray2 {
                start_x: point_at(self.start_x, self.diff_x, start_t),
                start_y: point_at(self.start_y, self.diff_y, start_t),
                diff_x: span(self.diff_x, start_t, end_t),
                diff_y: span(self.diff_y, start_t, end_t),
            }),
    {
        Self {
            start_x: self.start_x + self.diff_x * start_t,
            start_y: self.start_y + self.diff_y * start_t,
            diff_x: self.diff_x * (end_t - start_t),
            diff_y: self.diff_y * (end_t - start_t),
        }
    }
}

impl<T: Copy + Add<Output = T>> Ray2<T> {
    /// The x coordinate of the end of the ray.
    pub fn end_x(&self) -> (r: T)
        requires
            T::obeys_add_spec(),
            self.start_x.add_req(self.diff_x),
        ensures
            r == self.start_x.add_spec(self.diff_x),
    {
        self.start_x + self.diff_x
    }

    /// The y coordinate of the end of the ray.
    pub fn end_y(&self) -> (r: T)
        requires
            T::obeys_add_spec(),
            self.start_y.add_req(self.diff_y),
        ensures
            r == self.start_y.add_spec(self.diff_y),
    {
        self.start_y + self.diff_y
    }
}

impl<T> Ray2<T> {
    /// The three-dimensional ray with this ray's x and y and the given z.
    pub fn with_z(self, start_z: T, diff_z: T) -> (r: Ray3<T>)
        ensures
            r == (Ray3 {
                start_x: self.start_x,
                start_y: self.start_y,
                start_z,
                diff_x: self.diff_x,
                diff_y: self.diff_y,
                diff_z,
            }),
    {
        Ray3 {
            start_x: self.start_x,
            start_y: self.start_y,
            start_z,
            diff_x: self.diff_x,
            diff_y: self.diff_y,
            diff_z,
        }
    }

    /// The ray with every coordinate multiplied by `factor`.
    pub fn scale<U>(self, factor: U) -> (r: Ray2<T::Output>) where T: Mul<U>, U: Copy
        requires
            <T as MulSpec<U>>::obeys_mul_spec(),
            self.start_x.mul_req(factor),
            self.start_y.mul_req(factor),
            self.diff_x.mul_req(factor),
            self.diff_y.mul_req(factor),
        ensures
            r == (Ray2 {
                start_x: self.start_x.mul_spec(factor),
                start_y: self.start_y.mul_spec(factor),
                diff_x: self.diff_x.mul_spec(factor),
                diff_y: self.diff_y.mul_spec(factor),
            }),
    {
        Ray2 {
            start_x: self.start_x * factor,
            start_y: self.start_y * factor,
            diff_x: self.diff_x * factor,
            diff_y: self.diff_y * factor,
        }
    }
}

impl<T: Copy + Add<Output = T> + Sub<Output = T> + Mul<Output = T>> Ray3<T> {
    /// The part of the ray between `start_t` and `end_t`.
    pub fn sub_ray(&self, start_t: T, end_t: T) -> (r: Self)
        requires
            T::obeys_add_spec(),
            T::obeys_sub_spec(),
            T::obeys_mul_spec(),
            point_at_req(self.start_x, self.diff_x, start_t),
            point_at_req(self.start_y, self.diff_y, start_t),
            point_at_req(self.start_z, self.diff_z, start_t),
            span_req(self.diff_x, start_t, end_t),
            span_req(self.diff_y, start_t, end_t),
            span_req(self.diff_z, start_t, end_t),
        ensures
            r == (Ray3 {
                start_x: point_at(self.start_x, self.diff_x, start_t),
                start_y: point_at(self.start_y, self.diff_y, start_t),
                start_z: point_at(self.start_z, self.diff_z, start_t),
                diff_x: span(self.diff_x, start_t, end_t),
                diff_y: span(self.diff_y, start_t, end_t),
                diff_z: span(self.diff_z, start_t, end_t),
            }),
    {
        Self {
            start_x: self.start_x + self.diff_x * start_t,
            start_y: self.start_y + self.diff_y * start_t,
            start_z: self.start_z + self.diff_z * start_t,
            diff_x: self.diff_x * (end_t - start_t),
            diff_y: self.diff_y * (end_t - start_t),
            diff_z: self.diff_z * (end_t - start_t),
        }
    }
}

impl<T: Copy + Add<Output = T>> Ray3<T> {
    /// The x coordinate of the end of the ray.
    pub fn end_x(&self) -> (r: T)
        requires
            T::obeys_add_spec(),
            self.start_x.add_req(self.diff_x),
        ensures
            r == self.start_x.add_spec(self.diff_x),
    {
        self.start_x + self.diff_x
    }

    /// The y coordinate of the end of the ray.
    pub fn end_y(&self) -> (r: T)
        requires
            T::obeys_add_spec(),
            self.start_y.add_req(self.diff_y),
        ensures
            r == self.start_y.add_spec(self.diff_y),
    {
        self.start_y + self.diff_y
    }

    /// The z coordinate of the end of the ray.
    pub fn end_z(&self) -> (r: T)
        requires
            T::obeys_add_spec(),
            self.start_z.add_req(self.diff_z),
        ensures
            r == self.start_z.add_spec(self.diff_z),
    {
        self.start_z + self.diff_z
    }

    /// The projection of the ray onto the x-y plane.
    pub fn as_ray_2(&self) -> (r: Ray2<T>)
        ensures
            r == (Ray2 {
                start_x: self.start_x,
                start_y: self.start_y,
                diff_x: self.diff_x,
                diff_y: self.diff_y,
            }),
    {
        Ray2 {
            start_x: self.start_x,
            start_y: self.start_y,
            diff_x: self.diff_x,
            diff_y: self.diff_y,
        }
    }
}

impl<T: Copy + Mul<Output = T>> Ray3<T> {
    /// The ray with its x and y coordinates multiplied by `factor`; z is unchanged.
    pub fn scale_x_y(self, factor: T) -> (r: Ray3<T>)
        requires
            T::obeys_mul_spec(),
            self.start_x.mul_req(factor),
            self.start_y.mul_req(factor),
            self.diff_x.mul_req(factor),
            self.diff_y.mul_req(factor),
        ensures
            r == (Ray3 {
                start_x: self.start_x.mul_spec(factor),
                start_y: self.start_y.mul_spec(factor),
                start_z: self.start_z,
                diff_x: self.diff_x.mul_spec(factor),
                diff_y: self.diff_y.mul_spec(factor),
                diff_z: self.diff_z,
            }),
    {
        Ray3 {
            start_x: self.start_x * factor,
            start_y: self.start_y * factor,
            start_z: self.start_z,
            diff_x: self.diff_x * factor,
            diff_y: self.diff_y * factor,
            diff_z: self.diff_z,
        }
    }
}

} // verus!

verus! {

/// Moving from the point at `s` by `diff * (e - s)` gives the point at `e`:
/// `(start + diff * s) + diff * (e - s) == start + diff * e`, as numbers.
pub proof fn lemma_move_along(start: Ratio, diff: Ratio, s: Ratio, e: Ratio)
    requires
        diff.mul_req(s),
        start.add_req(diff.mul_spec(s)),
        e.sub_req(s),
        diff.mul_req(e.sub_spec(s)),
        start.add_spec(diff.mul_spec(s)).add_req(diff.mul_spec(e.sub_spec(s))),
        diff.mul_req(e),
        start.add_req(diff.mul_spec(e)),
    ensures
        start.add_spec(diff.mul_spec(s)).add_spec(diff.mul_spec(e.sub_spec(s))).same_value(
            start.add_spec(diff.mul_spec(e)),
        ),
{
    let (a, b) = (start.num as int, start.den as int);
    let (c, d) = (diff.num as int, diff.den as int);
    let (p, q) = (s.num as int, s.den as int);
    let (u, v) = (e.num as int, e.den as int);
    // start + diff * s
    let n1 = a * (d * q) + (c * p) * b;
    let d1 = b * (d * q);
    // diff * (e - s)
    let n2 = c * (u * q - p * v);
    let d2 = d * (v * q);
    // their sum
    let n3 = n1 * d2 + n2 * d1;
    let d3 = d1 * d2;
    // start + diff * e
    let n4 = a * (d * v) + (c * u) * b;
    let d4 = b * (d * v);
    let left = start.add_spec(diff.mul_spec(s)).add_spec(diff.mul_spec(e.sub_spec(s)));
    let right = start.add_spec(diff.mul_spec(e));
    assert(left.num == n3 && left.den == d3);
    assert(right.num == n4 && right.den == d4);
    let x = (a * (d * q) + (c * p) * b) * v;
    let y = c * (u * q - p * v) * b;
    assert(n1 * d2 == (d * q) * x) by (nonlinear_arith)
        requires
            n1 == a * (d * q) + (c * p) * b,
            d2 == d * (v * q),
            x == (a * (d * q) + (c * p) * b) * v,
    ;
    assert(n2 * d1 == (d * q) * y) by (nonlinear_arith)
        requires
            n2 == c * (u * q - p * v),
            d1 == b * (d * q),
            y == c * (u * q - p * v) * b,
    ;
    assert(x == a * d * q * v + c * p * b * v) by (nonlinear_arith)
        requires
            x == (a * (d * q) + (c * p) * b) * v,
    ;
    assert(y == c * u * q * b - c * p * v * b) by (nonlinear_arith)
        requires
            y == c * (u * q - p * v) * b,
    ;
    assert(a * d * q * v == q * (a * (d * v))) by (nonlinear_arith);
    assert(c * u * q * b == q * ((c * u) * b)) by (nonlinear_arith);
    assert(c * p * b * v == c * p * v * b) by (nonlinear_arith);
    assert(q * n4 == q * (a * (d * v)) + q * ((c * u) * b)) by (nonlinear_arith)
        requires
            n4 == a * (d * v) + (c * u) * b,
    ;
    assert(x + y == q * n4);
    assert(n3 == (d * q) * (q * n4)) by (nonlinear_arith)
        requires
            n3 == n1 * d2 + n2 * d1,
            n1 * d2 == (d * q) * x,
            n2 * d1 == (d * q) * y,
            x + y == q * n4,
    ;
    assert(n3 == d * q * q * n4) by (nonlinear_arith)
        requires
            n3 == (d * q) * (q * n4),
    ;
    assert(d3 == d * q * q * d4) by (nonlinear_arith)
        requires
            d1 == b * (d * q),
            d2 == d * (v * q),
            d3 == d1 * d2,
            d4 == b * (d * v),
    ;
    assert(n3 * d4 == n4 * d3) by (nonlinear_arith)
        requires
            n3 == d * q * q * n4,
            d3 == d * q * q * d4,
    ;
}

} // verus!

verus! {

/// With exact ratios, the part of a ray between `start_t` and `end_t` ends where the ray is at
/// `end_t`: the end of `ray.sub_ray(start_t, end_t)`, as `end_x` and `end_y` compute it, is the
/// number `start + diff * end_t` along each axis. (It starts at the point at `start_t` by the
/// contract of `sub_ray`.)
pub proof fn lemma_sub_ray_ends(ray: Ray2<Ratio>, start_t: Ratio, end_t: Ratio)
    requires
        point_at_req(ray.start_x, ray.diff_x, start_t),
        point_at_req(ray.start_y, ray.diff_y, start_t),
        span_req(ray.diff_x, start_t, end_t),
        span_req(ray.diff_y, start_t, end_t),
        point_at(ray.start_x, ray.diff_x, start_t).add_req(span(ray.diff_x, start_t, end_t)),
        point_at(ray.start_y, ray.diff_y, start_t).add_req(span(ray.diff_y, start_t, end_t)),
        point_at_req(ray.start_x, ray.diff_x, end_t),
        point_at_req(ray.start_y, ray.diff_y, end_t),
    ensures
        point_at(ray.start_x, ray.diff_x, start_t).add_spec(span(ray.diff_x, start_t, end_t)).same_value(
            point_at(ray.start_x, ray.diff_x, end_t),
        ),
        point_at(ray.start_y, ray.diff_y, start_t).add_spec(span(ray.diff_y, start_t, end_t)).same_value(
            point_at(ray.start_y, ray.diff_y, end_t),
        ),
{
    lemma_move_along(ray.start_x, ray.diff_x, start_t, end_t);
    lemma_move_along(ray.start_y, ray.diff_y, start_t, end_t);
}

} // verus!
