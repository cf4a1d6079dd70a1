use vstd::prelude::*;
use crate::ratio::Ratio;
use crate::ray::Ray2;
use crate::traversal::axis::{abs_of, axis_fits, axis_of, lemma_axis_cell, lemma_axis_of_values, lemma_axis_times, lemma_pixel_range};
use crate::traversal::boundary::{
    all_crossings, count, crossings_from, frac_le, frac_lt, lemma_crossings_exact, lemma_frac_trans,
    lemma_head, lemma_time_step, next_boundary, pixel, ray_fits, remaining_measure, time, x_axis,
    y_axis, BoundaryCrossing, BoundaryTraversal,
};

verus! {

/// The part of a ray that lies in one pixel: from `start_t` to `end_t`.
#[derive(Debug, Clone, Copy, PartialEq, Eq, Structural)]
pub struct PixelSegment {
    pub pixel_x: i32,
    pub pixel_y: i32,
    pub start_t: Ratio,
    pub end_t: Ratio,
}

/// `t = 0`.
pub open spec fn t_zero() -> Ratio {
    Ratio { num: 0, den: 1 }
}

/// `t = 1`.
pub open spec fn t_one() -> Ratio {
    Ratio { num: 1, den: 1 }
}

/// The segments of a ray that is in pixel `(px, py)` since `last_t`, and that will still cross
/// the boundaries `crossings`: one segment up to each crossing, and a last one up to `t = 1`.
pub open spec fn segments_from(crossings: Seq<BoundaryCrossing>, px: i32, py: i32, last_t: Ratio) -> Seq<PixelSegment>
    decreases crossings.len(),
{
    if crossings.len() == 0 {
        seq![PixelSegment { pixel_x: px, pixel_y: py, start_t: last_t, end_t: t_one() }]
    } else {
        let c = crossings[0];
        seq![PixelSegment { pixel_x: px, pixel_y: py, start_t: last_t, end_t: c.t }]
            + segments_from(crossings.drop_first(), c.pixel_x, c.pixel_y, c.t)
    }
}

/// All the segments of a ray, delimited by the pixel boundaries it crosses.
pub open spec fn all_segments(ray: Ray2<Ratio>) -> Seq<PixelSegment> {
    segments_from(
        all_crossings(ray),
        pixel(x_axis(ray), 0) as i32,
        pixel(y_axis(ray), 0) as i32,
        t_zero(),
    )
}

/// An iterator over the segments of a ray delimited by pixel boundaries, including the first
/// and last segments, which are delimited by the start and the end of the ray.
///
/// A [`PixelSegment`] is only produced if the ray actually spends some time in the pixel:
/// touching a pixel is not enough.
///
/// Based on [`BoundaryTraversal`].
pub struct PixelTraversal {
    boundary_traversal: BoundaryTraversal,
    last_t: Ratio,
    current_pixel: Option<(i32, i32)>,
}

impl View for PixelTraversal {
    type V = Seq<PixelSegment>;

    /// The segments that remain to be produced, in order.
    closed spec fn view(&self) -> Seq<PixelSegment> {
        match self.current_pixel {
            Some(p) => segments_from(self.boundary_traversal@, p.0, p.1, self.last_t),
            None => Seq::empty(),
        }
    }
}

impl PixelTraversal {
    /// Starts the traversal of `ray`.
    pub fn new(ray: Ray2<Ratio>) -> (r: Self)
        requires
            ray_fits(ray),
        ensures
            r@ == all_segments(ray),
    {
        let boundary_traversal = BoundaryTraversal::new(ray);
        let px = boundary_traversal.pixel_x();
        let py = boundary_traversal.pixel_y();
        PixelTraversal {
            last_t: Ratio { num: 0, den: 1 },
            current_pixel: Some((px, py)),
            boundary_traversal,
        }
    }

    /// Produces the next segment, or `None` after the segment that ends at `t = 1`.
    pub fn next(&mut self) -> (r: Option<PixelSegment>)
        ensures
            old(self)@.len() == 0 ==> r is None && final(self)@ == old(self)@,
            old(self)@.len() > 0 ==> r == Some(old(self)@[0]) && final(self)@ == old(
                self,
            )@.drop_first(),
    {
        let (pixel_x, pixel_y) = match self.current_pixel {
            Some(p) => p,
            None => {
                return None;
            },
        };
        let ghost old_crossings = self.boundary_traversal@;
        match self.boundary_traversal.next() {
            Some(crossing) => {
                self.current_pixel = Some((crossing.pixel_x, crossing.pixel_y));
                let start_t = self.last_t;
                self.last_t = crossing.t;
                let segment = PixelSegment { pixel_x, pixel_y, start_t, end_t: crossing.t };
                proof {
                    let rest = segments_from(
                        old_crossings.drop_first(),
                        crossing.pixel_x,
                        crossing.pixel_y,
                        crossing.t,
                    );
                    assert((seq![segment] + rest).drop_first() =~= rest);
                }
                Some(segment)
            },
            None => {
                self.current_pixel = None;
                let segment = PixelSegment {
                    pixel_x,
                    pixel_y,
                    start_t: self.last_t,
                    end_t: Ratio { num: 1, den: 1 },
                };
                assert(seq![segment].drop_first() =~= Seq::<PixelSegment>::empty());
                Some(segment)
            },
        }
    }

    /// Produces segments until one satisfies `predicate` and returns it, or `None` when no
    /// remaining segment does. The segments up to and including the one returned are consumed.
    pub fn find<F: Fn(&PixelSegment) -> bool>(&mut self, predicate: F) -> (r: Option<PixelSegment>)
        requires
            forall|s: &PixelSegment| #[trigger] predicate.requires((s,)),
        ensures
            r is None ==> final(self)@.len() == 0 && forall|j: int|
                0 <= j < old(self)@.len() ==> predicate.ensures((&#[trigger] old(self)@[j],), false),
            r is Some ==> exists|k: int|
                0 <= k < old(self)@.len() && #[trigger] old(self)@[k] == r->0 && predicate.ensures(
                    (&r->0,),
                    true,
                ) && final(self)@ == old(self)@.skip(k + 1) && forall|j: int|
                    0 <= j < k ==> predicate.ensures((&#[trigger] old(self)@[j],), false),
    {
        let ghost start = self@;
        let ghost mut k: int = 0;
        loop
            invariant
                forall|s: &PixelSegment| #[trigger] predicate.requires((s,)),
                start == old(self)@,
                0 <= k <= start.len(),
                self@ == start.skip(k),
                forall|j: int| 0 <= j < k ==> predicate.ensures((&#[trigger] start[j],), false),
            decreases self@.len(),
        {
            match self.next() {
                None => {
                    return None;
                },
                Some(segment) => {
                    proof {
                        assert(start.skip(k).drop_first() =~= start.skip(k + 1));
                    }
                    if predicate(&segment) {
                        assert(start[k] == segment);
                        return Some(segment);
                    }
                    proof {
                        k = k + 1;
                    }
                },
            }
        }
    }
}

} // verus!

verus! {

proof fn lemma_segments_from(crossings: Seq<BoundaryCrossing>, px: i32, py: i32, last_t: Ratio)
    ensures
        ({
            let g = segments_from(crossings, px, py, last_t);
            &&& g.len() == crossings.len() + 1
            &&& g[0].start_t == last_t
            &&& g[0].pixel_x == px
            &&& g[0].pixel_y == py
            &&& g[g.len() - 1].end_t == t_one()
            &&& forall|k: int|
                0 <= k < crossings.len() ==> #[trigger] g[k].end_t == crossings[k].t && g[k
                    + 1].start_t == crossings[k].t && g[k + 1].pixel_x == crossings[k].pixel_x
                    && g[k + 1].pixel_y == crossings[k].pixel_y
        }),
    decreases crossings.len(),
{
    if crossings.len() > 0 {
        let c = crossings[0];
        let rest = crossings.drop_first();
        lemma_segments_from(rest, c.pixel_x, c.pixel_y, c.t);
        let g = segments_from(crossings, px, py, last_t);
        let h = segments_from(rest, c.pixel_x, c.pixel_y, c.t);
        assert forall|k: int| 0 <= k < crossings.len() implies #[trigger] g[k].end_t
            == crossings[k].t && g[k + 1].start_t == crossings[k].t && g[k + 1].pixel_x
            == crossings[k].pixel_x && g[k + 1].pixel_y == crossings[k].pixel_y by {
            if k > 0 {
                assert(g[k] == h[k - 1]);
                assert(g[k + 1] == h[k - 1 + 1]);
                assert(crossings[k] == rest[k - 1]);
            }
        }
    }
}

/// The segments of a ray cover `[0, 1]` without gaps or overlaps.
///
/// There is one more segment than there are boundary crossings. The first starts at `t = 0`
/// in the first pixel of the ray, the last ends at `t = 1`, each ends where the next starts,
/// at a boundary crossing, and the next is in the pixel that crossing entered. Every segment
/// has `start_t < end_t`: the ray spends some time in each pixel reported.
pub proof fn lemma_segments_cover(ray: Ray2<Ratio>)
    requires
        ray_fits(ray),
    ensures
        ({
            let g = all_segments(ray);
            let s = all_crossings(ray);
            &&& g.len() == s.len() + 1
            &&& g[0].start_t == t_zero()
            &&& g[0].pixel_x == pixel(x_axis(ray), 0)
            &&& g[0].pixel_y == pixel(y_axis(ray), 0)
            &&& g[g.len() - 1].end_t == t_one()
            &&& forall|k: int|
                0 <= k < s.len() ==> #[trigger] g[k].end_t == s[k].t && g[k + 1].start_t == s[k].t
                    && g[k + 1].pixel_x == s[k].pixel_x && g[k + 1].pixel_y == s[k].pixel_y
            &&& forall|k: int|
                0 <= k < g.len() ==> frac_lt(
                    #[trigger] g[k].start_t.num as int,
                    g[k].start_t.den as int,
                    g[k].end_t.num as int,
                    g[k].end_t.den as int,
                )
        }),
{
    let g = all_segments(ray);
    let s = all_crossings(ray);
    lemma_crossings_exact(ray);
    crate::traversal::axis::lemma_pixel_range(x_axis(ray).0, x_axis(ray).1, x_axis(ray).2, 0);
    crate::traversal::axis::lemma_pixel_range(y_axis(ray).0, y_axis(ray).1, y_axis(ray).2, 0);
    lemma_segments_from(s, pixel(x_axis(ray), 0) as i32, pixel(y_axis(ray), 0) as i32, t_zero());
    assert forall|k: int| 0 <= k < g.len() implies frac_lt(
        #[trigger] g[k].start_t.num as int,
        g[k].start_t.den as int,
        g[k].end_t.num as int,
        g[k].end_t.den as int,
    ) by {
        if s.len() == 0 {
            assert(g[0].start_t == t_zero());
            assert(g[g.len() - 1].end_t == t_one());
            assert(frac_lt(0, 1, 1, 1));
        } else if k == 0 {
            assert(g[0].start_t == t_zero());
            assert(g[0].end_t == s[0].t);
            assert(0 < s[0].t.num);
            assert(frac_lt(0, 1, s[0].t.num as int, s[0].t.den as int));
        } else if k == s.len() {
            assert(g[k - 1].end_t == s[k - 1].t);
            assert(g[k].start_t == s[k - 1].t);
            assert(s[k - 1].t.num < s[k - 1].t.den);
            assert(g[g.len() - 1].end_t == t_one());
            assert(frac_lt(s[k - 1].t.num as int, s[k - 1].t.den as int, 1, 1));
        } else {
            assert(g[k - 1].end_t == s[k - 1].t);
            assert(g[k].start_t == s[k - 1].t);
            assert(g[k].end_t == s[k].t);
            assert(frac_lt(s[k - 1].t.num as int, s[k - 1].t.den as int, s[k].t.num as int, s[k].t.den as int));
        }
    }
}

} // verus!

verus! {

/// Along the axis `(a, c, d)`, the ray at time `t` lies in the cell `[p, p + 1)`:
/// `p <= (a + c * t) / d < p + 1`.
pub open spec fn in_cell(ax: (int, int, int), t: Ratio, p: int) -> bool {
    &&& p * ax.2 * t.den <= ax.0 * t.den + ax.1 * t.num
    &&& ax.0 * t.den + ax.1 * t.num < (p + 1) * ax.2 * t.den
}

/// The point `start + diff * t` of one coordinate lies in the cell `[p, p + 1)`, that is
/// `p == floor(start + diff * t)`; written over the numerators and denominators of the
/// three ratios.
pub open spec fn lies_in_cell(start: Ratio, diff: Ratio, t: Ratio, p: int) -> bool {
    let den = start.den * diff.den * t.den;
    let num = start.num * diff.den * t.den + diff.num * start.den * t.num;
    p * den <= num && num < (p + 1) * den
}

#[verifier::rlimit(60)]
proof fn lemma_cells_from(
    ax: (int, int, int),
    ay: (int, int, int),
    i: int,
    j: int,
    last: Ratio,
    k: int,
    t: Ratio,
)
    requires
        axis_fits(ax.0, ax.1, ax.2),
        axis_fits(ay.0, ay.1, ay.2),
        0 <= i <= count(ax),
        0 <= j <= count(ay),
        last.den > 0,
        last.num >= 0,
        i > 0 ==> frac_le(time(ax, i - 1), abs_of(ax.1), last.num as int, last.den as int),
        j > 0 ==> frac_le(time(ay, j - 1), abs_of(ay.1), last.num as int, last.den as int),
        i < count(ax) ==> frac_le(last.num as int, last.den as int, time(ax, i), abs_of(ax.1)),
        j < count(ay) ==> frac_le(last.num as int, last.den as int, time(ay, j), abs_of(ay.1)),
        0 <= k < segments_from(crossings_from(ax, ay, i, j), pixel(ax, i) as i32, pixel(ay, j) as i32, last).len(),
        t.den > 0,
        ({
            let g = segments_from(crossings_from(ax, ay, i, j), pixel(ax, i) as i32, pixel(ay, j) as i32, last);
            &&& frac_lt(g[k].start_t.num as int, g[k].start_t.den as int, t.num as int, t.den as int)
            &&& frac_lt(t.num as int, t.den as int, g[k].end_t.num as int, g[k].end_t.den as int)
        }),
    ensures
        ({
            let g = segments_from(crossings_from(ax, ay, i, j), pixel(ax, i) as i32, pixel(ay, j) as i32, last);
            in_cell(ax, t, g[k].pixel_x as int) && in_cell(ay, t, g[k].pixel_y as int)
        }),
    decreases remaining_measure(ax, ay, i, j),
{
    let s = crossings_from(ax, ay, i, j);
    let px = pixel(ax, i) as i32;
    let py = pixel(ay, j) as i32;
    lemma_pixel_range(ax.0, ax.1, ax.2, i);
    lemma_pixel_range(ay.0, ay.1, ay.2, j);
    assert(px as int == pixel(ax, i));
    assert(py as int == pixel(ay, j));
    let g = segments_from(s, px, py, last);
    lemma_segments_from(s, px, py, last);
    lemma_axis_times(ax.0, ax.1, ax.2, i);
    lemma_axis_times(ay.0, ay.1, ay.2, j);
    let dx = abs_of(ax.1);
    let dy = abs_of(ay.1);
    if k == 0 {
        let seg = g[0];
        assert(seg.start_t == last);
        assert(t.num > 0) by (nonlinear_arith)
            requires
                last.num * t.den < t.num * last.den,
                last.num >= 0,
                t.den > 0,
                last.den > 0,
        ;
        if s.len() == 0 {
            assert(seg.end_t == t_one());
            assert(frac_lt(t.num as int, t.den as int, seg.end_t.num as int, seg.end_t.den as int));
            assert(t.num < t.den) by (nonlinear_arith)
                requires
                    t.num * 1 < 1 * t.den,
            ;
        } else {
            lemma_head(ax, ay, i, j);
            let c = s[0];
            assert(seg.end_t == c.t);
            lemma_frac_trans(t.num as int, t.den as int, c.t.num as int, c.t.den as int, 1, 1);
            assert(t.num < t.den);
            if i < count(ax) {
                lemma_frac_trans(t.num as int, t.den as int, c.t.num as int, c.t.den as int, time(ax, i), dx);
            }
            if j < count(ay) {
                lemma_frac_trans(t.num as int, t.den as int, c.t.num as int, c.t.den as int, time(ay, j), dy);
            }
        }
        if i > 0 {
            lemma_frac_trans(time(ax, i - 1), dx, last.num as int, last.den as int, t.num as int, t.den as int);
        }
        if j > 0 {
            lemma_frac_trans(time(ay, j - 1), dy, last.num as int, last.den as int, t.num as int, t.den as int);
        }
        lemma_axis_cell(ax.0, ax.1, ax.2, i, t.num as int, t.den as int);
        lemma_axis_cell(ay.0, ay.1, ay.2, j, t.num as int, t.den as int);
    } else {
        assert(s.len() > 0);
        lemma_head(ax, ay, i, j);
        let c = s[0];
        let kind = next_boundary(ax, ay, i, j);
        let i2 = if kind is Y { i } else { i + 1 };
        let j2 = if kind is X { j } else { j + 1 };
        let rest = crossings_from(ax, ay, i2, j2);
        assert(s.drop_first() =~= rest);
        assert(c.boundary_type == kind);
        lemma_pixel_range(ax.0, ax.1, ax.2, i2);
        lemma_pixel_range(ay.0, ay.1, ay.2, j2);
        assert(pixel(ax, i2) as i32 == c.pixel_x);
        assert(pixel(ay, j2) as i32 == c.pixel_y);
        let g2 = segments_from(rest, c.pixel_x, c.pixel_y, c.t);
        assert(g[k] == g2[k - 1]);
        // the crossing time `c.t` is the new starting time
        if !(kind is Y) {
            if i2 < count(ax) {
                lemma_time_step(ax, i);
                assert(time(ax, i) * dx <= time(ax, i + 1) * dx) by (nonlinear_arith)
                    requires
                        time(ax, i + 1) == time(ax, i) + ax.2,
                        ax.2 > 0,
                        dx > 0,
                ;
            }
        } else if i > 0 {
            lemma_frac_trans(time(ax, i - 1), dx, last.num as int, last.den as int, c.t.num as int, c.t.den as int);
        }
        if kind is XY {
            assert(time(ay, j) * dx == time(ax, i) * dy);
            assert(frac_le(time(ay, j), dy, c.t.num as int, c.t.den as int));
        }
        if !(kind is X) {
            if j2 < count(ay) {
                lemma_time_step(ay, j);
                assert(time(ay, j) * dy <= time(ay, j + 1) * dy) by (nonlinear_arith)
                    requires
                        time(ay, j + 1) == time(ay, j) + ay.2,
                        ay.2 > 0,
                        dy > 0,
                ;
                lemma_frac_trans(
                    c.t.num as int,
                    c.t.den as int,
                    time(ay, j),
                    dy,
                    time(ay, j + 1),
                    dy,
                );
            }
        } else if j > 0 {
            lemma_frac_trans(time(ay, j - 1), dy, last.num as int, last.den as int, c.t.num as int, c.t.den as int);
        }
        lemma_cells_from(ax, ay, i2, j2, c.t, k - 1, t);
    }
}

proof fn lemma_cell_values(start: Ratio, diff: Ratio, t: Ratio, p: int)
    requires
        start.wf(),
        diff.wf(),
        t.den > 0,
        in_cell(axis_of(start, diff), t, p),
    ensures
        lies_in_cell(start, diff, t, p),
{
    let ax = axis_of(start, diff);
    lemma_axis_of_values(start, diff);
    let (a, c, d) = ax;
    let (sn, sd) = (start.num as int, start.den as int);
    let (fnum, fd) = (diff.num as int, diff.den as int);
    let (tn, td) = (t.num as int, t.den as int);
    let x = a * td + c * tn;
    let y = sn * fd * td + fnum * sd * tn;
    let kk = sd * fd;
    assert(sd * fd > 0) by (nonlinear_arith)
        requires
            sd > 0,
            fd > 0,
    ;
    assert(a * sd * fd * td == d * (sn * fd * td)) by (nonlinear_arith)
        requires
            a * sd == sn * d,
    ;
    assert(c * fd * sd * tn == d * (fnum * sd * tn)) by (nonlinear_arith)
        requires
            c * fd == fnum * d,
    ;
    assert(x * kk == (a * td) * kk + (c * tn) * kk) by (nonlinear_arith)
        requires
            x == a * td + c * tn,
    ;
    assert((a * td) * kk == a * sd * fd * td) by (nonlinear_arith)
        requires
            kk == sd * fd,
    ;
    assert((c * tn) * kk == c * fd * sd * tn) by (nonlinear_arith)
        requires
            kk == sd * fd,
    ;
    assert(d * (sn * fd * td) + d * (fnum * sd * tn) == d * y) by (nonlinear_arith)
        requires
            y == sn * fd * td + fnum * sd * tn,
    ;
    assert(x * kk == d * y);
    assert(p * d * td * kk == d * (p * (sd * fd * td))) by (nonlinear_arith)
        requires
            kk == sd * fd,
    ;
    assert((p + 1) * d * td * kk == d * ((p + 1) * (sd * fd * td))) by (nonlinear_arith)
        requires
            kk == sd * fd,
    ;
    assert(p * d * td * kk <= x * kk) by (nonlinear_arith)
        requires
            p * d * td <= x,
            kk > 0,
    ;
    assert(x * kk < (p + 1) * d * td * kk) by (nonlinear_arith)
        requires
            x < (p + 1) * d * td,
            kk > 0,
    ;
    assert(p * (sd * fd * td) <= y) by (nonlinear_arith)
        requires
            d * (p * (sd * fd * td)) <= d * y,
            d > 0,
    ;
    assert(y < (p + 1) * (sd * fd * td)) by (nonlinear_arith)
        requires
            d * y < d * ((p + 1) * (sd * fd * td)),
            d > 0,
    ;
}

/// Every segment of a ray is in the pixel it reports: at every time `t` strictly between the
/// segment's `start_t` and `end_t`, the ray's point `(start_x + diff_x * t, start_y + diff_y * t)`
/// lies in `[pixel_x, pixel_x + 1) x [pixel_y, pixel_y + 1)`, so `pixel_x` and `pixel_y` are
/// the floors of its coordinates. In particular, along an axis in which the ray does not move,
/// the pixel coordinate is the floor of the start.
pub proof fn lemma_segment_pixels(ray: Ray2<Ratio>, k: int, t: Ratio)
    requires
        ray_fits(ray),
        0 <= k < all_segments(ray).len(),
        t.den > 0,
        frac_lt(
            all_segments(ray)[k].start_t.num as int,
            all_segments(ray)[k].start_t.den as int,
            t.num as int,
            t.den as int,
        ),
        frac_lt(
            t.num as int,
            t.den as int,
            all_segments(ray)[k].end_t.num as int,
            all_segments(ray)[k].end_t.den as int,
        ),
    ensures
        lies_in_cell(ray.start_x, ray.diff_x, t, all_segments(ray)[k].pixel_x as int),
        lies_in_cell(ray.start_y, ray.diff_y, t, all_segments(ray)[k].pixel_y as int),
{
    let ax = x_axis(ray);
    let ay = y_axis(ray);
    lemma_axis_times(ax.0, ax.1, ax.2, 0);
    lemma_axis_times(ay.0, ay.1, ay.2, 0);
    lemma_cells_from(ax, ay, 0, 0, t_zero(), k, t);
    let g = all_segments(ray);
    lemma_cell_values(ray.start_x, ray.diff_x, t, g[k].pixel_x as int);
    lemma_cell_values(ray.start_y, ray.diff_y, t, g[k].pixel_y as int);
}

} // verus!
