use vstd::prelude::*;
use crate::ratio::Ratio;
use crate::ray::Ray2;
use crate::traversal::axis::{
    abs_of, first_distance, axis_fits, axis_of, axis_terms, ceil_div, crossing_count, crossing_time,
    distance_to_integer_boundary, first_pixel, floor_div, initial_pixel_coordinate,
    integers_between, lemma_axis_boundaries, lemma_axis_of_values, lemma_axis_times,
    lemma_pixel_range, max_of, min_of, pixel_after, step_of, crossing_boundary,
    LIMIT,
};

verus! {

/// Boundary types characterized by which coordinate integer parts change value.
///
/// A ray crossing an x-boundary means that the integer part of its x coordinate changed in
/// value (e.g. from `0.99` to `1.01`). `BoundaryType::XY` signals that the integer parts of both
/// the x and y coordinates changed simultaneously, i.e. a corner was crossed.
#[derive(Debug, Clone, Copy, PartialEq, Eq, Structural)]
pub enum BoundaryType {
    X,
    Y,
    XY,
}

/// The event of a ray crossing a boundary: the [type](BoundaryType) of the crossed boundary,
/// the exact `t` at the crossing, and the coordinates of the pixel that was entered.
#[derive(Debug, Clone, Copy, PartialEq, Eq, Structural)]
pub struct BoundaryCrossing {
    pub boundary_type: BoundaryType,
    pub t: Ratio,
    pub pixel_x: i32,
    pub pixel_y: i32,
}

/// The x axis of a ray as integers `(a, c, d)`: x runs from `a / d` to `(a + c) / d`.
pub open spec fn x_axis(ray: Ray2<Ratio>) -> (int, int, int) {
    axis_of(ray.start_x, ray.diff_x)
}

/// The y axis of a ray as integers `(a, c, d)`: y runs from `a / d` to `(a + c) / d`.
pub open spec fn y_axis(ray: Ray2<Ratio>) -> (int, int, int) {
    axis_of(ray.start_y, ray.diff_y)
}

/// The rays the traversal accepts: well-formed coordinates, small enough for exact arithmetic,
/// whose pixel coordinates fit in `i32`.
pub open spec fn ray_fits(ray: Ray2<Ratio>) -> bool {
    &&& ray.start_x.wf()
    &&& ray.start_y.wf()
    &&& ray.diff_x.wf()
    &&& ray.diff_y.wf()
    &&& axis_fits(x_axis(ray).0, x_axis(ray).1, x_axis(ray).2)
    &&& axis_fits(y_axis(ray).0, y_axis(ray).1, y_axis(ray).2)
}

pub open spec fn count(ax: (int, int, int)) -> int {
    crossing_count(ax.0, ax.1, ax.2)
}

pub open spec fn time(ax: (int, int, int), i: int) -> int {
    crossing_time(ax.0, ax.1, ax.2, i)
}

pub open spec fn pixel(ax: (int, int, int), i: int) -> int {
    pixel_after(ax.0, ax.1, ax.2, i)
}

/// The kind of the next crossing after `i` crossings along x and `j` along y: the axis whose
/// next boundary comes first, or both when they coincide.
pub open spec fn next_boundary(ax: (int, int, int), ay: (int, int, int), i: int, j: int) -> BoundaryType {
    if i >= count(ax) {
        BoundaryType::Y
    } else if j >= count(ay) {
        BoundaryType::X
    } else if time(ax, i) * abs_of(ay.1) < time(ay, j) * abs_of(ax.1) {
        BoundaryType::X
    } else if time(ay, j) * abs_of(ax.1) < time(ax, i) * abs_of(ay.1) {
        BoundaryType::Y
    } else {
        BoundaryType::XY
    }
}

pub open spec fn remaining_measure(ax: (int, int, int), ay: (int, int, int), i: int, j: int) -> nat {
    ((if count(ax) > i { count(ax) - i } else { 0 }) + (if count(ay) > j { count(ay) - j } else { 0 })) as nat
}

/// The crossings that remain after `i` crossings along x and `j` along y, in order.
pub open spec fn crossings_from(ax: (int, int, int), ay: (int, int, int), i: int, j: int) -> Seq<BoundaryCrossing>
    decreases remaining_measure(ax, ay, i, j),
{
    if i >= count(ax) && j >= count(ay) {
        Seq::empty()
    } else {
        let kind = next_boundary(ax, ay, i, j);
        let i2 = if kind is Y { i } else { i + 1 };
        let j2 = if kind is X { j } else { j + 1 };
        let t = if kind is Y {
            Ratio { num: time(ay, j) as i64, den: abs_of(ay.1) as i64 }
        } else {
            Ratio { num: time(ax, i) as i64, den: abs_of(ax.1) as i64 }
        };
        let crossing = BoundaryCrossing {
            boundary_type: kind,
            t,
            pixel_x: pixel(ax, i2) as i32,
            pixel_y: pixel(ay, j2) as i32,
        };
        seq![crossing] + crossings_from(ax, ay, i2, j2)
    }
}

/// All boundary crossings of a ray, in order of `t`.
pub open spec fn all_crossings(ray: Ray2<Ratio>) -> Seq<BoundaryCrossing> {
    crossings_from(x_axis(ray), y_axis(ray), 0, 0)
}

/// Orders two crossing times `tx / dx` and `ty / dy`, where a zero denominator stands for a
/// boundary that is never reached.
pub open spec fn time_order(tx: int, dx: int, ty: int, dy: int) -> BoundaryType {
    if dx == 0 && dy == 0 {
        BoundaryType::XY
    } else if dx == 0 {
        BoundaryType::Y
    } else if dy == 0 {
        BoundaryType::X
    } else if tx * dy < ty * dx {
        BoundaryType::X
    } else if ty * dx < tx * dy {
        BoundaryType::Y
    } else {
        BoundaryType::XY
    }
}

/// Integer variables of the traversal algorithm of Amanatides and Woo, kept exact: `t_max_*`
/// is the numerator of the `t` of the next boundary, over the denominator `den_*`, and
/// `t_delta_*` is the numerator of the `t` between two boundaries.
#[derive(Clone, Copy)]
pub(crate) struct BoundaryTraversalVariables {
    pub(crate) step_x: i32,
    pub(crate) step_y: i32,
    pub(crate) pixel_x: i32,
    pub(crate) pixel_y: i32,
    pub(crate) t_delta_x: i128,
    pub(crate) t_delta_y: i128,
    pub(crate) t_max_x: i128,
    pub(crate) t_max_y: i128,
    pub(crate) den_x: i128,
    pub(crate) den_y: i128,
}

impl BoundaryTraversalVariables {
    pub(crate) fn new(ax: (i128, i128, i128), ay: (i128, i128, i128)) -> (r: Self)
        requires
            axis_fits(ax.0 as int, ax.1 as int, ax.2 as int),
            axis_fits(ay.0 as int, ay.1 as int, ay.2 as int),
        ensures
            r.step_x == step_of(ax.1 as int),
            r.step_y == step_of(ay.1 as int),
            r.pixel_x == first_pixel(ax.0 as int, ax.1 as int, ax.2 as int),
            r.pixel_y == first_pixel(ay.0 as int, ay.1 as int, ay.2 as int),
            r.t_delta_x == ax.2,
            r.t_delta_y == ay.2,
            r.t_max_x == crossing_time(ax.0 as int, ax.1 as int, ax.2 as int, 0),
            r.t_max_y == crossing_time(ay.0 as int, ay.1 as int, ay.2 as int, 0),
            r.den_x == abs_of(ax.1 as int),
            r.den_y == abs_of(ay.1 as int),
    {
        let step_x: i32 = if ax.1 > 0 { 1 } else if ax.1 < 0 { -1 } else { 0 };
        let step_y: i32 = if ay.1 > 0 { 1 } else if ay.1 < 0 { -1 } else { 0 };
        let pixel_x = initial_pixel_coordinate(ax.0, ax.1, ax.2);
        let pixel_y = initial_pixel_coordinate(ay.0, ay.1, ay.2);
        let dist_x = distance_to_integer_boundary(ax.0, ax.1, ax.2);
        let dist_y = distance_to_integer_boundary(ay.0, ay.1, ay.2);
        BoundaryTraversalVariables {
            step_x,
            step_y,
            pixel_x,
            pixel_y,
            t_delta_x: ax.2,
            t_delta_y: ay.2,
            t_max_x: dist_x,
            t_max_y: dist_y,
            den_x: if ax.1 < 0 { -ax.1 } else { ax.1 },
            den_y: if ay.1 < 0 { -ay.1 } else { ay.1 },
        }
    }

    pub(crate) fn step_x(&mut self)
        requires
            i128::MIN <= old(self).t_max_x + old(self).t_delta_x <= i128::MAX,
            i32::MIN <= old(self).pixel_x + old(self).step_x <= i32::MAX,
        ensures
            *final(self) == (BoundaryTraversalVariables {
                t_max_x: (old(self).t_max_x + old(self).t_delta_x) as i128,
                pixel_x: (old(self).pixel_x + old(self).step_x) as i32,
                ..*old(self)
            }),
    {
        self.t_max_x = self.t_max_x + self.t_delta_x;
        self.pixel_x = self.pixel_x + self.step_x;
    }

    pub(crate) fn step_y(&mut self)
        requires
            i128::MIN <= old(self).t_max_y + old(self).t_delta_y <= i128::MAX,
            i32::MIN <= old(self).pixel_y + old(self).step_y <= i32::MAX,
        ensures
            *final(self) == (BoundaryTraversalVariables {
                t_max_y: (old(self).t_max_y + old(self).t_delta_y) as i128,
                pixel_y: (old(self).pixel_y + old(self).step_y) as i32,
                ..*old(self)
            }),
    {
        self.t_max_y = self.t_max_y + self.t_delta_y;
        self.pixel_y = self.pixel_y + self.step_y;
    }

    pub(crate) fn next_boundary_type(&self) -> (r: BoundaryType)
        requires
            0 <= self.t_max_x <= 2 * LIMIT,
            0 <= self.t_max_y <= 2 * LIMIT,
            0 <= self.den_x <= LIMIT,
            0 <= self.den_y <= LIMIT,
        ensures
            r == time_order(
                self.t_max_x as int,
                self.den_x as int,
                self.t_max_y as int,
                self.den_y as int,
            ),
    {
        if self.den_x == 0 && self.den_y == 0 {
            BoundaryType::XY
        } else if self.den_x == 0 {
            BoundaryType::Y
        } else if self.den_y == 0 {
            BoundaryType::X
        } else {
            assert(self.t_max_x * self.den_y <= 2 * LIMIT * LIMIT) by (nonlinear_arith)
                requires
                    0 <= self.t_max_x <= 2 * LIMIT,
                    0 <= self.den_y <= LIMIT,
            ;
            assert(self.t_max_y * self.den_x <= 2 * LIMIT * LIMIT) by (nonlinear_arith)
                requires
                    0 <= self.t_max_y <= 2 * LIMIT,
                    0 <= self.den_x <= LIMIT,
            ;
            assert(0 <= self.t_max_x * self.den_y) by (nonlinear_arith)
                requires
                    0 <= self.t_max_x,
                    0 <= self.den_y,
            ;
            assert(0 <= self.t_max_y * self.den_x) by (nonlinear_arith)
                requires
                    0 <= self.t_max_y,
                    0 <= self.den_x,
            ;
            let lhs = self.t_max_x * self.den_y;
            let rhs = self.t_max_y * self.den_x;
            if lhs < rhs {
                BoundaryType::X
            } else if rhs < lhs {
                BoundaryType::Y
            } else {
                BoundaryType::XY
            }
        }
    }
}

/// Whether one axis, as integers `(a, c, d)`, meets [`axis_fits`].
fn axis_accepts(ax: (i128, i128, i128)) -> (r: bool)
    requires
        ax.2 > 0,
    ensures
        r == axis_fits(ax.0 as int, ax.1 as int, ax.2 as int),
{
    let (a, c, d) = ax;
    if d > LIMIT || a < -LIMIT || a > LIMIT || c < -LIMIT || c > LIMIT {
        return false;
    }
    let e = a + c;
    let lo = if a <= e { a } else { e };
    let hi = if a <= e { e } else { a };
    floor_div(lo, d) >= i32::MIN as i128 && ceil_div(hi, d) <= i32::MAX as i128
}

/// When not every boundary has been crossed, comparing the times of the next x and y
/// boundaries, exhausted or not, picks the same kind of crossing as [`next_boundary`].
pub proof fn lemma_next_boundary_agrees(ax: (int, int, int), ay: (int, int, int), i: int, j: int)
    requires
        axis_fits(ax.0, ax.1, ax.2),
        axis_fits(ay.0, ay.1, ay.2),
        0 <= i <= count(ax),
        0 <= j <= count(ay),
        !(i == count(ax) && j == count(ay)),
    ensures
        time_order(time(ax, i), abs_of(ax.1), time(ay, j), abs_of(ay.1)) == next_boundary(ax, ay, i, j),
{
    lemma_axis_times(ax.0, ax.1, ax.2, i);
    lemma_axis_times(ay.0, ay.1, ay.2, j);
    let tx = time(ax, i);
    let ty = time(ay, j);
    let dx = abs_of(ax.1);
    let dy = abs_of(ay.1);
    if i == count(ax) && dx != 0 {
        assert(tx * dy > ty * dx) by (nonlinear_arith)
            requires
                tx >= dx > 0,
                0 < ty < dy,
        ;
    }
    if j == count(ay) && dy != 0 {
        assert(ty * dx > tx * dy) by (nonlinear_arith)
            requires
                ty >= dy > 0,
                0 < tx < dx,
        ;
    }
}

/// An iterator over the boundaries crossed by a [ray](Ray2). A boundary is crossed if the ray
/// is on both sides of it: merely touching a boundary does not count.
///
/// The iteration stops when `t` reaches `1`. All arithmetic is exact, so the crossings produced
/// are exactly those of the ray, in type, order, number and pixel coordinates.
///
/// The algorithm is the one of Amanatides and Woo, "A Fast Voxel Traversal Algorithm".
pub struct BoundaryTraversal {
    v: BoundaryTraversalVariables,
    remaining_x_crossings: u64,
    remaining_y_crossings: u64,
    ray: Ghost<Ray2<Ratio>>,
}

impl BoundaryTraversal {
    /// The ray being traversed.
    pub closed spec fn ray(self) -> Ray2<Ratio> {
        self.ray@
    }

    /// The number of x boundaries crossed so far.
    pub closed spec fn done_x(self) -> int {
        count(x_axis(self.ray@)) - self.remaining_x_crossings
    }

    /// The number of y boundaries crossed so far.
    pub closed spec fn done_y(self) -> int {
        count(y_axis(self.ray@)) - self.remaining_y_crossings
    }

    #[verifier::type_invariant]
    spec fn inv(self) -> bool {
        let ax = x_axis(self.ray@);
        let ay = y_axis(self.ray@);
        let i = self.done_x();
        let j = self.done_y();
        &&& ray_fits(self.ray@)
        &&& self.remaining_x_crossings <= count(ax)
        &&& self.remaining_y_crossings <= count(ay)
        &&& self.v.step_x == step_of(ax.1)
        &&& self.v.step_y == step_of(ay.1)
        &&& self.v.t_delta_x == ax.2
        &&& self.v.t_delta_y == ay.2
        &&& self.v.den_x == abs_of(ax.1)
        &&& self.v.den_y == abs_of(ay.1)
        &&& self.v.t_max_x == time(ax, i)
        &&& self.v.t_max_y == time(ay, j)
        &&& self.v.pixel_x == pixel(ax, i)
        &&& self.v.pixel_y == pixel(ay, j)
    }

    /// Whether [`BoundaryTraversal::new`] accepts `ray`.
    pub fn accepts(ray: &Ray2<Ratio>) -> (r: bool)
        ensures
            r == ray_fits(*ray),
    {
        if ray.start_x.den <= 0 || ray.start_y.den <= 0 || ray.diff_x.den <= 0 || ray.diff_y.den <= 0 {
            return false;
        }
        let ax = axis_terms(ray.start_x, ray.diff_x);
        let ay = axis_terms(ray.start_y, ray.diff_y);
        axis_accepts(ax) && axis_accepts(ay)
    }

    /// Starts the traversal of `ray`, in the pixel that the ray occupies just after `t = 0`.
    pub fn new(ray: Ray2<Ratio>) -> (r: Self)
        requires
            ray_fits(ray),
        ensures
            r.ray() == ray,
            r@ == all_crossings(ray),
            r.done_x() == 0,
            r.done_y() == 0,
    {
        let ax = axis_terms(ray.start_x, ray.diff_x);
        let ay = axis_terms(ray.start_y, ray.diff_y);
        let x_crossings = integers_between(ax.0, ax.1, ax.2);
        let y_crossings = integers_between(ay.0, ay.1, ay.2);
        proof {
            assert(pixel_after(ax.0 as int, ax.1 as int, ax.2 as int, 0) == first_pixel(
                ax.0 as int,
                ax.1 as int,
                ax.2 as int,
            ));
            assert(pixel_after(ay.0 as int, ay.1 as int, ay.2 as int, 0) == first_pixel(
                ay.0 as int,
                ay.1 as int,
                ay.2 as int,
            ));
        }
        BoundaryTraversal {
            v: BoundaryTraversalVariables::new(ax, ay),
            remaining_x_crossings: x_crossings,
            remaining_y_crossings: y_crossings,
            ray: Ghost(ray),
        }
    }

    /// The x coordinate of the pixel the ray is currently in.
    pub fn pixel_x(&self) -> (r: i32)
        ensures
            r == pixel(x_axis(self.ray()), self.done_x()),
    {
        proof {
            use_type_invariant(self);
        }
        self.v.pixel_x
    }

    /// The y coordinate of the pixel the ray is currently in.
    pub fn pixel_y(&self) -> (r: i32)
        ensures
            r == pixel(y_axis(self.ray()), self.done_y()),
    {
        proof {
            use_type_invariant(self);
        }
        self.v.pixel_y
    }

    /// Produces the next boundary crossing, or `None` once every boundary has been crossed.
    pub fn next(&mut self) -> (r: Option<BoundaryCrossing>)
        ensures
            final(self).ray() == old(self).ray(),
            old(self)@.len() == 0 ==> r is None && final(self)@ == old(self)@
                && final(self).done_x() == old(self).done_x()
                && final(self).done_y() == old(self).done_y(),
            old(self)@.len() > 0 ==> r == Some(old(self)@[0]) && final(self)@ == old(
                self,
            )@.drop_first(),
            r matches Some(c) ==> c.pixel_x == pixel(x_axis(final(self).ray()), final(self).done_x())
                && c.pixel_y == pixel(y_axis(final(self).ray()), final(self).done_y()),
    {
        proof {
            use_type_invariant(&*self);
        }
        let ghost ax = x_axis(self.ray@);
        let ghost ay = y_axis(self.ray@);
        let ghost i = self.done_x();
        let ghost j = self.done_y();
        proof {
            lemma_axis_times(ax.0, ax.1, ax.2, i);
            lemma_axis_times(ay.0, ay.1, ay.2, j);
            lemma_axis_times(ax.0, ax.1, ax.2, i + 1);
            lemma_axis_times(ay.0, ay.1, ay.2, j + 1);
            if i < count(ax) {
                lemma_pixel_range(ax.0, ax.1, ax.2, i + 1);
            }
            if j < count(ay) {
                lemma_pixel_range(ay.0, ay.1, ay.2, j + 1);
            }
            if !(i == count(ax) && j == count(ay)) {
                lemma_next_boundary_agrees(ax, ay, i, j);
            }
            assert(time(ax, i) + ax.2 == time(ax, i + 1)) by (nonlinear_arith)
                requires
                    time(ax, i) == crossing_time(ax.0, ax.1, ax.2, i),
                    time(ax, i + 1) == crossing_time(ax.0, ax.1, ax.2, i + 1),
            ;
            assert(time(ay, j) + ay.2 == time(ay, j + 1)) by (nonlinear_arith)
                requires
                    time(ay, j) == crossing_time(ay.0, ay.1, ay.2, j),
                    time(ay, j + 1) == crossing_time(ay.0, ay.1, ay.2, j + 1),
            ;
            assert(pixel(ax, i) + step_of(ax.1) == pixel(ax, i + 1)) by (nonlinear_arith)
                requires
                    pixel(ax, i) == pixel_after(ax.0, ax.1, ax.2, i),
                    pixel(ax, i + 1) == pixel_after(ax.0, ax.1, ax.2, i + 1),
            ;
            assert(pixel(ay, j) + step_of(ay.1) == pixel(ay, j + 1)) by (nonlinear_arith)
                requires
                    pixel(ay, j) == pixel_after(ay.0, ay.1, ay.2, j),
                    pixel(ay, j + 1) == pixel_after(ay.0, ay.1, ay.2, j + 1),
            ;
        }
        let boundary_type = self.v.next_boundary_type();
        let rx = self.remaining_x_crossings;
        let ry = self.remaining_y_crossings;
        let mut v = self.v;
        let t;
        match boundary_type {
            BoundaryType::X => {
                if rx == 0 {
                    return None;
                }
                t = Ratio { num: v.t_max_x as i64, den: v.den_x as i64 };
                v.step_x();
                *self = BoundaryTraversal {
                    v,
                    remaining_x_crossings: rx - 1,
                    remaining_y_crossings: ry,
                    ray: Ghost(self.ray@),
                };
            },
            BoundaryType::Y => {
                if ry == 0 {
                    return None;
                }
                t = Ratio { num: v.t_max_y as i64, den: v.den_y as i64 };
                v.step_y();
                *self = BoundaryTraversal {
                    v,
                    remaining_x_crossings: rx,
                    remaining_y_crossings: ry - 1,
                    ray: Ghost(self.ray@),
                };
            },
            BoundaryType::XY => {
                if rx == 0 || ry == 0 {
                    return None;
                }
                t = Ratio { num: v.t_max_x as i64, den: v.den_x as i64 };
                v.step_x();
                v.step_y();
                *self = BoundaryTraversal {
                    v,
                    remaining_x_crossings: rx - 1,
                    remaining_y_crossings: ry - 1,
                    ray: Ghost(self.ray@),
                };
            },
        }
        let crossing = BoundaryCrossing {
            boundary_type,
            t,
            pixel_x: v.pixel_x,
            pixel_y: v.pixel_y,
        };
        proof {
            let rest = crossings_from(ax, ay, self.done_x(), self.done_y());
            assert((seq![crossing] + rest).drop_first() =~= rest);
        }
        Some(crossing)
    }
}

impl View for BoundaryTraversal {
    type V = Seq<BoundaryCrossing>;

    /// The crossings that remain to be produced, in order.
    closed spec fn view(&self) -> Seq<BoundaryCrossing> {
        crossings_from(x_axis(self.ray@), y_axis(self.ray@), self.done_x(), self.done_y())
    }
}

} // verus!

verus! {

/// The number of crossings in `s` that cross an x boundary (of type `X` or `XY`).
pub open spec fn x_events(s: Seq<BoundaryCrossing>) -> int
    decreases s.len(),
{
    if s.len() == 0 {
        0
    } else {
        (if s[0].boundary_type is Y {
            0int
        } else {
            1int
        }) + x_events(s.drop_first())
    }
}

/// The number of crossings in `s` that cross a y boundary (of type `Y` or `XY`).
pub open spec fn y_events(s: Seq<BoundaryCrossing>) -> int
    decreases s.len(),
{
    if s.len() == 0 {
        0
    } else {
        (if s[0].boundary_type is X {
            0int
        } else {
            1int
        }) + y_events(s.drop_first())
    }
}

/// `p / q <= r / s` for positive `q` and `s`.
pub open spec fn frac_le(p: int, q: int, r: int, s: int) -> bool {
    p * s <= r * q
}

/// `p / q < r / s` for positive `q` and `s`.
pub open spec fn frac_lt(p: int, q: int, r: int, s: int) -> bool {
    p * s < r * q
}

pub(crate) proof fn lemma_frac_trans(p: int, q: int, r: int, s: int, u: int, v: int)
    requires
        q > 0,
        s > 0,
        v > 0,
    ensures
        frac_le(p, q, r, s) && frac_lt(r, s, u, v) ==> frac_lt(p, q, u, v),
        frac_lt(p, q, r, s) && frac_le(r, s, u, v) ==> frac_lt(p, q, u, v),
        frac_le(p, q, r, s) && frac_le(r, s, u, v) ==> frac_le(p, q, u, v),
{
    if frac_le(p, q, r, s) && frac_lt(r, s, u, v) {
        assert(p * s * v <= r * q * v) by (nonlinear_arith)
            requires
                p * s <= r * q,
                v > 0,
        ;
        assert(r * v * q < u * s * q) by (nonlinear_arith)
            requires
                r * v < u * s,
                q > 0,
        ;
        assert(p * v * s < u * q * s) by (nonlinear_arith)
            requires
                p * s * v <= r * q * v,
                r * v * q < u * s * q,
        ;
        assert(p * v < u * q) by (nonlinear_arith)
            requires
                p * v * s < u * q * s,
                s > 0,
        ;
    }
    if frac_lt(p, q, r, s) && frac_le(r, s, u, v) {
        assert(p * s * v < r * q * v) by (nonlinear_arith)
            requires
                p * s < r * q,
                v > 0,
        ;
        assert(r * v * q <= u * s * q) by (nonlinear_arith)
            requires
                r * v <= u * s,
                q > 0,
        ;
        assert(p * v * s < u * q * s) by (nonlinear_arith)
            requires
                p * s * v < r * q * v,
                r * v * q <= u * s * q,
        ;
        assert(p * v < u * q) by (nonlinear_arith)
            requires
                p * v * s < u * q * s,
                s > 0,
        ;
    }
    if frac_le(p, q, r, s) && frac_le(r, s, u, v) {
        assert(p * s * v <= r * q * v) by (nonlinear_arith)
            requires
                p * s <= r * q,
                v > 0,
        ;
        assert(r * v * q <= u * s * q) by (nonlinear_arith)
            requires
                r * v <= u * s,
                q > 0,
        ;
        assert(p * v * s <= u * q * s) by (nonlinear_arith)
            requires
                p * s * v <= r * q * v,
                r * v * q <= u * s * q,
        ;
        assert(p * v <= u * q) by (nonlinear_arith)
            requires
                p * v * s <= u * q * s,
                s > 0,
        ;
    }
}

/// What the first remaining crossing is: its time is that of the next x boundary or of the
/// next y boundary, no later than either, and strictly earlier than the one of an axis it does
/// not cross.
pub(crate) proof fn lemma_head(ax: (int, int, int), ay: (int, int, int), i: int, j: int)
    requires
        axis_fits(ax.0, ax.1, ax.2),
        axis_fits(ay.0, ay.1, ay.2),
        0 <= i <= count(ax),
        0 <= j <= count(ay),
        !(i == count(ax) && j == count(ay)),
    ensures
        ({
            let c = crossings_from(ax, ay, i, j)[0];
            &&& 0 < c.t.num < c.t.den
            &&& !(c.boundary_type is Y) ==> i < count(ax) && c.t.num == time(ax, i) && c.t.den
                == abs_of(ax.1)
            &&& c.boundary_type is Y ==> j < count(ay) && c.t.num == time(ay, j) && c.t.den == abs_of(
                ay.1,
            )
            &&& c.boundary_type is XY ==> j < count(ay) && time(ay, j) * abs_of(ax.1) == time(ax, i)
                * abs_of(ay.1)
            &&& i < count(ax) ==> frac_le(c.t.num as int, c.t.den as int, time(ax, i), abs_of(ax.1))
            &&& j < count(ay) ==> frac_le(c.t.num as int, c.t.den as int, time(ay, j), abs_of(ay.1))
            &&& (i < count(ax) && c.boundary_type is Y) ==> frac_lt(
                c.t.num as int,
                c.t.den as int,
                time(ax, i),
                abs_of(ax.1),
            )
            &&& (j < count(ay) && c.boundary_type is X) ==> frac_lt(
                c.t.num as int,
                c.t.den as int,
                time(ay, j),
                abs_of(ay.1),
            )
            &&& c.pixel_x == pixel(ax, if c.boundary_type is Y { i } else { i + 1 })
            &&& c.pixel_y == pixel(ay, if c.boundary_type is X { j } else { j + 1 })
        }),
{
    lemma_axis_times(ax.0, ax.1, ax.2, i);
    lemma_axis_times(ay.0, ay.1, ay.2, j);
    if i < count(ax) {
        lemma_pixel_range(ax.0, ax.1, ax.2, i + 1);
    }
    if j < count(ay) {
        lemma_pixel_range(ay.0, ay.1, ay.2, j + 1);
    }
    lemma_pixel_range(ax.0, ax.1, ax.2, i);
    lemma_pixel_range(ay.0, ay.1, ay.2, j);
    let tx = time(ax, i);
    let ty = time(ay, j);
    let dx = abs_of(ax.1);
    let dy = abs_of(ay.1);
    assert(tx * dx == tx * dx);
    assert(ty * dy == ty * dy);
}

} // verus!

verus! {

/// Crossing `c` is the one that leaves the ray `n` boundaries along x and `m` along y past its
/// start: its time is in `(0, 1)`, it is the time of boundary `n - 1` along x when it crosses
/// x and of boundary `m - 1` along y when it crosses y, and its pixel is the one entered.
pub open spec fn crossing_matches(ax: (int, int, int), ay: (int, int, int), c: BoundaryCrossing, n: int, m: int) -> bool {
    &&& 0 < c.t.num < c.t.den
    &&& c.pixel_x == pixel(ax, n)
    &&& c.pixel_y == pixel(ay, m)
    &&& !(c.boundary_type is Y) ==> 0 < n <= count(ax) && time(ax, n - 1) * c.t.den == c.t.num
        * abs_of(ax.1)
    &&& !(c.boundary_type is X) ==> 0 < m <= count(ay) && time(ay, m - 1) * c.t.den == c.t.num
        * abs_of(ay.1)
}

pub(crate) proof fn lemma_time_step(ax: (int, int, int), i: int)
    ensures
        time(ax, i + 1) == time(ax, i) + ax.2,
{
    assert(crossing_time(ax.0, ax.1, ax.2, i + 1) == crossing_time(ax.0, ax.1, ax.2, i) + ax.2)
        by (nonlinear_arith)
        requires
            crossing_time(ax.0, ax.1, ax.2, i + 1) == first_distance(ax.0, ax.1, ax.2) + (i + 1) * ax.2,
            crossing_time(ax.0, ax.1, ax.2, i) == first_distance(ax.0, ax.1, ax.2) + i * ax.2,
    ;
}

proof fn lemma_events_prefix(s: Seq<BoundaryCrossing>, k: int)
    requires
        0 <= k < s.len(),
    ensures
        s.take(k + 1).drop_first() =~= s.drop_first().take(k),
        s.take(k + 1)[0] == s[0],
        x_events(s.take(k + 1)) == (if s[0].boundary_type is Y {
            0int
        } else {
            1int
        }) + x_events(s.drop_first().take(k)),
        y_events(s.take(k + 1)) == (if s[0].boundary_type is X {
            0int
        } else {
            1int
        }) + y_events(s.drop_first().take(k)),
{
    assert(s.take(k + 1).drop_first() =~= s.drop_first().take(k));
}

proof fn lemma_crossings_from_facts(ax: (int, int, int), ay: (int, int, int), i: int, j: int)
    requires
        axis_fits(ax.0, ax.1, ax.2),
        axis_fits(ay.0, ay.1, ay.2),
        0 <= i <= count(ax),
        0 <= j <= count(ay),
    ensures
        ({
            let s = crossings_from(ax, ay, i, j);
            &&& x_events(s) == count(ax) - i
            &&& y_events(s) == count(ay) - j
            &&& forall|k: int|
                0 <= k < s.len() ==> #[trigger] crossing_matches(
                    ax,
                    ay,
                    s[k],
                    i + x_events(s.take(k + 1)),
                    j + y_events(s.take(k + 1)),
                )
            &&& forall|k: int|
                0 <= k < s.len() - 1 ==> frac_lt(
                    #[trigger] s[k].t.num as int,
                    s[k].t.den as int,
                    s[k + 1].t.num as int,
                    s[k + 1].t.den as int,
                )
        }),
    decreases remaining_measure(ax, ay, i, j),
{
    let s = crossings_from(ax, ay, i, j);
    if i == count(ax) && j == count(ay) {
        assert(s.len() == 0);
    } else {
        lemma_head(ax, ay, i, j);
        let c = s[0];
        let kind = next_boundary(ax, ay, i, j);
        let i2 = if kind is Y { i } else { i + 1 };
        let j2 = if kind is X { j } else { j + 1 };
        let rest = crossings_from(ax, ay, i2, j2);
        assert(s.drop_first() =~= rest);
        assert(c.boundary_type == kind);
        lemma_crossings_from_facts(ax, ay, i2, j2);
        assert forall|k: int| 0 <= k < s.len() implies #[trigger] crossing_matches(
            ax,
            ay,
            s[k],
            i + x_events(s.take(k + 1)),
            j + y_events(s.take(k + 1)),
        ) by {
            lemma_events_prefix(s, k);
            if k == 0 {
                assert(s.drop_first().take(0) =~= Seq::<BoundaryCrossing>::empty());
            } else {
                assert(s[k] == rest[k - 1]);
                assert(crossing_matches(
                    ax,
                    ay,
                    rest[k - 1],
                    i2 + x_events(rest.take(k - 1 + 1)),
                    j2 + y_events(rest.take(k - 1 + 1)),
                ));
            }
        }
        assert forall|k: int| 0 <= k < s.len() - 1 implies frac_lt(
            #[trigger] s[k].t.num as int,
            s[k].t.den as int,
            s[k + 1].t.num as int,
            s[k + 1].t.den as int,
        ) by {
            if k == 0 {
                assert(s[1] == rest[0]);
                lemma_head(ax, ay, i2, j2);
                let r = rest[0];
                lemma_axis_times(ax.0, ax.1, ax.2, i);
                lemma_axis_times(ay.0, ay.1, ay.2, j);
                lemma_axis_times(ax.0, ax.1, ax.2, i + 1);
                lemma_axis_times(ay.0, ay.1, ay.2, j + 1);
                lemma_time_step(ax, i);
                lemma_time_step(ay, j);
                let dx = abs_of(ax.1);
                let dy = abs_of(ay.1);
                if !(r.boundary_type is Y) {
                    // the next crossing is at the time of x boundary i2
                    if i2 == i + 1 {
                        assert(frac_lt(time(ax, i), dx, time(ax, i + 1), dx)) by (nonlinear_arith)
                            requires
                                time(ax, i + 1) == time(ax, i) + ax.2,
                                ax.2 > 0,
                                dx > 0,
                        {
                        }
                        lemma_frac_trans(
                            c.t.num as int,
                            c.t.den as int,
                            time(ax, i),
                            dx,
                            time(ax, i + 1),
                            dx,
                        );
                    }
                    assert(frac_lt(c.t.num as int, c.t.den as int, r.t.num as int, r.t.den as int));
                } else {
                    if j2 == j + 1 {
                        assert(frac_lt(time(ay, j), dy, time(ay, j + 1), dy)) by (nonlinear_arith)
                            requires
                                time(ay, j + 1) == time(ay, j) + ay.2,
                                ay.2 > 0,
                                dy > 0,
                        {
                        }
                        lemma_frac_trans(
                            c.t.num as int,
                            c.t.den as int,
                            time(ay, j),
                            dy,
                            time(ay, j + 1),
                            dy,
                        );
                    }
                    assert(frac_lt(c.t.num as int, c.t.den as int, r.t.num as int, r.t.den as int));
                }
            } else {
                assert(s[k] == rest[k - 1]);
                assert(s[k + 1] == rest[k - 1 + 1]);
            }
        }
    }
}

} // verus!

verus! {

/// Adjacent crossings in strictly increasing order of time are in strictly increasing order
/// pairwise.
proof fn lemma_pairwise_order(s: Seq<BoundaryCrossing>, k1: int, k2: int)
    requires
        forall|k: int| 0 <= k < s.len() ==> 0 < #[trigger] s[k].t.den,
        forall|k: int|
            0 <= k < s.len() - 1 ==> frac_lt(
                #[trigger] s[k].t.num as int,
                s[k].t.den as int,
                s[k + 1].t.num as int,
                s[k + 1].t.den as int,
            ),
        0 <= k1 < k2 < s.len(),
    ensures
        frac_lt(s[k1].t.num as int, s[k1].t.den as int, s[k2].t.num as int, s[k2].t.den as int),
    decreases k2 - k1,
{
    if k2 > k1 + 1 {
        lemma_pairwise_order(s, k1, k2 - 1);
        assert(frac_lt(
            s[k2 - 1].t.num as int,
            s[k2 - 1].t.den as int,
            s[k2 - 1 + 1].t.num as int,
            s[k2 - 1 + 1].t.den as int,
        ));
        lemma_frac_trans(
            s[k1].t.num as int,
            s[k1].t.den as int,
            s[k2 - 1].t.num as int,
            s[k2 - 1].t.den as int,
            s[k2].t.num as int,
            s[k2].t.den as int,
        );
    }
}

/// Every x boundary still ahead is crossed by some remaining crossing of type `X` or `XY`.
proof fn lemma_every_x_boundary(ax: (int, int, int), ay: (int, int, int), i: int, j: int, n: int)
    requires
        axis_fits(ax.0, ax.1, ax.2),
        axis_fits(ay.0, ay.1, ay.2),
        0 <= i <= n < count(ax),
        0 <= j <= count(ay),
    ensures
        ({
            let s = crossings_from(ax, ay, i, j);
            exists|k: int|
                0 <= k < s.len() && !(s[k].boundary_type is Y) && i + x_events(#[trigger] s.take(k + 1))
                    == n + 1
        }),
    decreases remaining_measure(ax, ay, i, j),
{
    let s = crossings_from(ax, ay, i, j);
    let kind = next_boundary(ax, ay, i, j);
    let i2 = if kind is Y { i } else { i + 1 };
    let j2 = if kind is X { j } else { j + 1 };
    let rest = crossings_from(ax, ay, i2, j2);
    assert(s.drop_first() =~= rest);
    assert(s[0].boundary_type == kind);
    if !(kind is Y) && n == i {
        lemma_events_prefix(s, 0);
        assert(s.drop_first().take(0) =~= Seq::<BoundaryCrossing>::empty());
        assert(!(s[0].boundary_type is Y) && i + x_events(s.take(0int + 1)) == n + 1);
    } else {
        lemma_every_x_boundary(ax, ay, i2, j2, n);
        let k = choose|k: int|
            0 <= k < rest.len() && !(rest[k].boundary_type is Y) && i2 + x_events(
                #[trigger] rest.take(k + 1),
            ) == n + 1;
        lemma_events_prefix(s, k + 1);
        assert(s[k + 1] == rest[k]);
        assert(!(s[k + 1].boundary_type is Y) && i + x_events(s.take(k + 1 + 1)) == n + 1);
    }
}

/// Every y boundary still ahead is crossed by some remaining crossing of type `Y` or `XY`.
proof fn lemma_every_y_boundary(ax: (int, int, int), ay: (int, int, int), i: int, j: int, n: int)
    requires
        axis_fits(ax.0, ax.1, ax.2),
        axis_fits(ay.0, ay.1, ay.2),
        0 <= i <= count(ax),
        0 <= j <= n < count(ay),
    ensures
        ({
            let s = crossings_from(ax, ay, i, j);
            exists|k: int|
                0 <= k < s.len() && !(s[k].boundary_type is X) && j + y_events(#[trigger] s.take(k + 1))
                    == n + 1
        }),
    decreases remaining_measure(ax, ay, i, j),
{
    let s = crossings_from(ax, ay, i, j);
    let kind = next_boundary(ax, ay, i, j);
    let i2 = if kind is Y { i } else { i + 1 };
    let j2 = if kind is X { j } else { j + 1 };
    let rest = crossings_from(ax, ay, i2, j2);
    assert(s.drop_first() =~= rest);
    assert(s[0].boundary_type == kind);
    if !(kind is X) && n == j {
        lemma_events_prefix(s, 0);
        assert(s.drop_first().take(0) =~= Seq::<BoundaryCrossing>::empty());
        assert(!(s[0].boundary_type is X) && j + y_events(s.take(0int + 1)) == n + 1);
    } else {
        lemma_every_y_boundary(ax, ay, i2, j2, n);
        let k = choose|k: int|
            0 <= k < rest.len() && !(rest[k].boundary_type is X) && j2 + y_events(
                #[trigger] rest.take(k + 1),
            ) == n + 1;
        lemma_events_prefix(s, k + 1);
        assert(s[k + 1] == rest[k]);
        assert(!(s[k + 1].boundary_type is X) && j + y_events(s.take(k + 1 + 1)) == n + 1);
    }
}

} // verus!

verus! {

/// Along the axis `(a, c, d)`, the ray is on the integer `b` at time `t`:
/// `(a + t * c) / d == b`.
pub open spec fn lands_on(ax: (int, int, int), t: Ratio, b: int) -> bool {
    b * ax.2 * t.den == ax.0 * t.den + t.num * ax.1
}

/// The integer `b` lies strictly between the start and the end of the axis `(a, c, d)`.
pub open spec fn strictly_inside(ax: (int, int, int), b: int) -> bool {
    min_of(ax.0, ax.0 + ax.1) < b * ax.2 < max_of(ax.0, ax.0 + ax.1)
}

/// The boundary along the axis crossed by the `n`-th crossing of that axis (counting from 1).
pub open spec fn boundary(ax: (int, int, int), n: int) -> int {
    crossing_boundary(ax.0, ax.1, ax.2, n - 1)
}

proof fn lemma_lands(ax: (int, int, int), t: Ratio, n: int)
    requires
        axis_fits(ax.0, ax.1, ax.2),
        0 < n <= count(ax),
        t.den > 0,
        time(ax, n - 1) * t.den == t.num * abs_of(ax.1),
    ensures
        lands_on(ax, t, boundary(ax, n)),
        strictly_inside(ax, boundary(ax, n)),
{
    lemma_axis_times(ax.0, ax.1, ax.2, n - 1);
    lemma_axis_boundaries(ax.0, ax.1, ax.2, n - 1, 0);
    let b = boundary(ax, n);
    let s = step_of(ax.1);
    let tm = time(ax, n - 1);
    assert(s * abs_of(ax.1) == ax.1);
    assert(b * ax.2 * t.den == ax.0 * t.den + t.num * ax.1) by (nonlinear_arith)
        requires
            b * ax.2 == ax.0 + s * tm,
            tm * t.den == t.num * abs_of(ax.1),
            s * abs_of(ax.1) == ax.1,
    ;
}

proof fn lemma_lands_once(ax: (int, int, int), t1: Ratio, t2: Ratio, b: int)
    requires
        axis_fits(ax.0, ax.1, ax.2),
        strictly_inside(ax, b),
        lands_on(ax, t1, b),
        lands_on(ax, t2, b),
        t1.den > 0,
        t2.den > 0,
    ensures
        t1.num * t2.den == t2.num * t1.den,
{
    let (a, c, d) = ax;
    assert(c != 0);
    assert(t1.num * t2.den * c == t2.num * t1.den * c) by (nonlinear_arith)
        requires
            b * d * t1.den == a * t1.den + t1.num * c,
            b * d * t2.den == a * t2.den + t2.num * c,
    ;
    assert(t1.num * t2.den == t2.num * t1.den) by (nonlinear_arith)
        requires
            t1.num * t2.den * c == t2.num * t1.den * c,
            c != 0,
    ;
}

/// The crossings of a ray are exact.
///
/// - Each happens at a time `t` with `0 < t < 1`, and the times strictly increase.
/// - A crossing of type `X` or `XY` lands on an integer x strictly between the start and the
///   end of the ray, and the pixel it reports is the one on the far side of that boundary;
///   likewise for `Y` or `XY` and y.
/// - Every integer x strictly between the start and the end is landed on by exactly one
///   crossing, of type `X` or `XY`; likewise for y. So the number of crossings of x
///   boundaries is the number of such integers.
/// - The pixel reported by each crossing is the pixel the ray is in after all the crossings so
///   far.
pub proof fn lemma_crossings_exact(ray: Ray2<Ratio>)
    requires
        ray_fits(ray),
    ensures
        ({
            let s = all_crossings(ray);
            let ax = x_axis(ray);
            let ay = y_axis(ray);
            &&& forall|k: int| 0 <= k < s.len() ==> 0 < #[trigger] s[k].t.num < s[k].t.den
            &&& forall|k1: int, k2: int|
                0 <= k1 < k2 < s.len() ==> frac_lt(
                    #[trigger] s[k1].t.num as int,
                    s[k1].t.den as int,
                    #[trigger] s[k2].t.num as int,
                    s[k2].t.den as int,
                )
            &&& x_events(s) == count(ax)
            &&& y_events(s) == count(ay)
            &&& forall|k: int|
                0 <= k < s.len() ==> #[trigger] s[k].pixel_x == pixel(ax, x_events(s.take(k + 1)))
                    && s[k].pixel_y == pixel(ay, y_events(s.take(k + 1)))
            &&& forall|k: int|
                0 <= k < s.len() && !(#[trigger] s[k].boundary_type is Y) ==> {
                    let b = boundary(ax, x_events(s.take(k + 1)));
                    &&& lands_on(ax, s[k].t, b)
                    &&& strictly_inside(ax, b)
                    &&& s[k].pixel_x == if ax.1 > 0 { b } else { b - 1 }
                }
            &&& forall|k: int|
                0 <= k < s.len() && !(#[trigger] s[k].boundary_type is X) ==> {
                    let b = boundary(ay, y_events(s.take(k + 1)));
                    &&& lands_on(ay, s[k].t, b)
                    &&& strictly_inside(ay, b)
                    &&& s[k].pixel_y == if ay.1 > 0 { b } else { b - 1 }
                }
            &&& forall|b: int|
                #[trigger] strictly_inside(ax, b) ==> exists|k: int|
                    0 <= k < s.len() && !(s[k].boundary_type is Y) && lands_on(ax, #[trigger] s[k].t, b)
            &&& forall|b: int|
                #[trigger] strictly_inside(ay, b) ==> exists|k: int|
                    0 <= k < s.len() && !(s[k].boundary_type is X) && lands_on(ay, #[trigger] s[k].t, b)
            &&& forall|k1: int, k2: int, b: int|
                #![trigger lands_on(ax, s[k1].t, b), lands_on(ax, s[k2].t, b)]
                0 <= k1 < s.len() && 0 <= k2 < s.len() && strictly_inside(ax, b) && lands_on(
                    ax,
                    s[k1].t,
                    b,
                ) && lands_on(ax, s[k2].t, b) ==> k1 == k2
            &&& forall|k1: int, k2: int, b: int|
                #![trigger lands_on(ay, s[k1].t, b), lands_on(ay, s[k2].t, b)]
                0 <= k1 < s.len() && 0 <= k2 < s.len() && strictly_inside(ay, b) && lands_on(
                    ay,
                    s[k1].t,
                    b,
                ) && lands_on(ay, s[k2].t, b) ==> k1 == k2
        }),
{
    let s = all_crossings(ray);
    let ax = x_axis(ray);
    let ay = y_axis(ray);
    lemma_crossings_from_facts(ax, ay, 0, 0);
    assert forall|k: int| 0 <= k < s.len() implies 0 < #[trigger] s[k].t.num < s[k].t.den by {
        assert(crossing_matches(ax, ay, s[k], 0 + x_events(s.take(k + 1)), 0 + y_events(s.take(k + 1))));
    }
    assert forall|k1: int, k2: int| 0 <= k1 < k2 < s.len() implies frac_lt(
        #[trigger] s[k1].t.num as int,
        s[k1].t.den as int,
        #[trigger] s[k2].t.num as int,
        s[k2].t.den as int,
    ) by {
        assert forall|k: int| 0 <= k < s.len() implies 0 < #[trigger] s[k].t.den by {
            assert(crossing_matches(ax, ay, s[k], 0 + x_events(s.take(k + 1)), 0 + y_events(s.take(k + 1))));
        }
        lemma_pairwise_order(s, k1, k2);
    }
    assert forall|k: int|
        0 <= k < s.len() implies #[trigger] s[k].pixel_x == pixel(ax, x_events(s.take(k + 1)))
        && s[k].pixel_y == pixel(ay, y_events(s.take(k + 1))) by {
        assert(crossing_matches(ax, ay, s[k], 0 + x_events(s.take(k + 1)), 0 + y_events(s.take(k + 1))));
    }
    assert forall|k: int| 0 <= k < s.len() && !(#[trigger] s[k].boundary_type is Y) implies {
        let b = boundary(ax, x_events(s.take(k + 1)));
        &&& lands_on(ax, s[k].t, b)
        &&& strictly_inside(ax, b)
        &&& s[k].pixel_x == if ax.1 > 0 { b } else { b - 1 }
    } by {
        let n = x_events(s.take(k + 1));
        assert(crossing_matches(ax, ay, s[k], 0 + n, 0 + y_events(s.take(k + 1))));
        lemma_lands(ax, s[k].t, n);
        lemma_axis_boundaries(ax.0, ax.1, ax.2, n - 1, 0);
    }
    assert forall|k: int| 0 <= k < s.len() && !(#[trigger] s[k].boundary_type is X) implies {
        let b = boundary(ay, y_events(s.take(k + 1)));
        &&& lands_on(ay, s[k].t, b)
        &&& strictly_inside(ay, b)
        &&& s[k].pixel_y == if ay.1 > 0 { b } else { b - 1 }
    } by {
        let m = y_events(s.take(k + 1));
        assert(crossing_matches(ax, ay, s[k], 0 + x_events(s.take(k + 1)), 0 + m));
        lemma_lands(ay, s[k].t, m);
        lemma_axis_boundaries(ay.0, ay.1, ay.2, m - 1, 0);
    }
    assert forall|b: int| #[trigger] strictly_inside(ax, b) implies exists|k: int|
        0 <= k < s.len() && !(s[k].boundary_type is Y) && lands_on(ax, #[trigger] s[k].t, b) by {
        lemma_axis_boundaries(ax.0, ax.1, ax.2, 0, b);
        let j = if ax.1 >= 0 {
            b - first_pixel(ax.0, ax.1, ax.2) - 1
        } else {
            first_pixel(ax.0, ax.1, ax.2) - b
        };
        lemma_every_x_boundary(ax, ay, 0, 0, j);
        let k = choose|k: int|
            0 <= k < s.len() && !(s[k].boundary_type is Y) && 0 + x_events(#[trigger] s.take(k + 1))
                == j + 1;
        assert(crossing_matches(ax, ay, s[k], 0 + x_events(s.take(k + 1)), 0 + y_events(s.take(k + 1))));
        lemma_lands(ax, s[k].t, j + 1);
    }
    assert forall|b: int| #[trigger] strictly_inside(ay, b) implies exists|k: int|
        0 <= k < s.len() && !(s[k].boundary_type is X) && lands_on(ay, #[trigger] s[k].t, b) by {
        lemma_axis_boundaries(ay.0, ay.1, ay.2, 0, b);
        let j = if ay.1 >= 0 {
            b - first_pixel(ay.0, ay.1, ay.2) - 1
        } else {
            first_pixel(ay.0, ay.1, ay.2) - b
        };
        lemma_every_y_boundary(ax, ay, 0, 0, j);
        let k = choose|k: int|
            0 <= k < s.len() && !(s[k].boundary_type is X) && 0 + y_events(#[trigger] s.take(k + 1))
                == j + 1;
        assert(crossing_matches(ax, ay, s[k], 0 + x_events(s.take(k + 1)), 0 + y_events(s.take(k + 1))));
        lemma_lands(ay, s[k].t, j + 1);
    }
    assert forall|k1: int, k2: int, b: int|
        #![trigger lands_on(ax, s[k1].t, b), lands_on(ax, s[k2].t, b)]
        0 <= k1 < s.len() && 0 <= k2 < s.len() && strictly_inside(ax, b) && lands_on(
            ax,
            s[k1].t,
            b,
        ) && lands_on(ax, s[k2].t, b) implies k1 == k2 by {
        assert(crossing_matches(ax, ay, s[k1], 0 + x_events(s.take(k1 + 1)), 0 + y_events(s.take(k1 + 1))));
        assert(crossing_matches(ax, ay, s[k2], 0 + x_events(s.take(k2 + 1)), 0 + y_events(s.take(k2 + 1))));
        lemma_lands_once(ax, s[k1].t, s[k2].t, b);
        if k1 < k2 {
            assert(frac_lt(s[k1].t.num as int, s[k1].t.den as int, s[k2].t.num as int, s[k2].t.den as int));
        } else if k2 < k1 {
            assert(frac_lt(s[k2].t.num as int, s[k2].t.den as int, s[k1].t.num as int, s[k1].t.den as int));
        }
    }
    assert forall|k1: int, k2: int, b: int|
        #![trigger lands_on(ay, s[k1].t, b), lands_on(ay, s[k2].t, b)]
        0 <= k1 < s.len() && 0 <= k2 < s.len() && strictly_inside(ay, b) && lands_on(
            ay,
            s[k1].t,
            b,
        ) && lands_on(ay, s[k2].t, b) implies k1 == k2 by {
        assert(crossing_matches(ax, ay, s[k1], 0 + x_events(s.take(k1 + 1)), 0 + y_events(s.take(k1 + 1))));
        assert(crossing_matches(ax, ay, s[k2], 0 + x_events(s.take(k2 + 1)), 0 + y_events(s.take(k2 + 1))));
        lemma_lands_once(ay, s[k1].t, s[k2].t, b);
        if k1 < k2 {
            assert(frac_lt(s[k1].t.num as int, s[k1].t.den as int, s[k2].t.num as int, s[k2].t.den as int));
        } else if k2 < k1 {
            assert(frac_lt(s[k2].t.num as int, s[k2].t.den as int, s[k1].t.num as int, s[k1].t.den as int));
        }
    }
}

} // verus!
