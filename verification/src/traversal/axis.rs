use vstd::prelude::*;
use crate::ratio::Ratio;

verus! {

/// `floor(a / d)` for a positive `d`.
pub(crate) fn floor_div(a: i128, d: i128) -> (q: i128)
    requires
        d > 0,
    ensures
        q == a / d,
{
    if a >= 0 {
        let q = a / d;
        assert(q == a / d);
        q
    } else {
        let n: i128 = -(a + 1);
        let q = n / d;
        proof {
            assert(q == n / d);
            vstd::arithmetic::div_mod::lemma_fundamental_div_mod(n as int, d as int);
            vstd::arithmetic::div_mod::lemma_fundamental_div_mod(a as int, d as int);
            assert(0 <= n % d < d);
            let r = n % d;
            assert(n == d * q + r);
            assert(a == d * (-q - 1) + (d - 1 - r)) by (nonlinear_arith)
                requires
                    n == d * q + r,
                    a == -(n + 1),
            ;
            vstd::arithmetic::div_mod::lemma_fundamental_div_mod_converse(
                a as int, d as int, -q - 1, d - 1 - n % d);
        }
        -q - 1
    }
}

} // verus!

verus! {

/// Bound on the magnitude of the scaled coordinates that the traversal accepts.
pub const LIMIT: i128 = 0x4000_0000_0000_0000;

/// `ceil(a / d)` for a positive `d`.
pub open spec fn ceil_of(a: int, d: int) -> int {
    -((-a) / d)
}

/// The direction of travel along an axis: `1`, `-1` or `0`.
pub open spec fn step_of(c: int) -> int {
    if c > 0 {
        1
    } else if c < 0 {
        -1
    } else {
        0
    }
}

pub open spec fn abs_of(c: int) -> int {
    if c < 0 {
        -c
    } else {
        c
    }
}

pub open spec fn min_of(a: int, b: int) -> int {
    if a <= b {
        a
    } else {
        b
    }
}

pub open spec fn max_of(a: int, b: int) -> int {
    if a <= b {
        b
    } else {
        a
    }
}

// Along one axis the ray is `x(t) = (a + t * c) / d` for `t` in `[0, 1]`, with `d > 0`.
/// The pixel the ray starts in: the cell it occupies just after `t = 0`.
pub open spec fn first_pixel(a: int, c: int, d: int) -> int {
    if c >= 0 {
        a / d
    } else {
        ceil_of(a, d) - 1
    }
}

/// Distance (in units of `1 / d`) from the start to the first boundary in the direction of travel.
pub open spec fn first_distance(a: int, c: int, d: int) -> int {
    if c >= 0 {
        (first_pixel(a, c, d) + 1) * d - a
    } else {
        a - first_pixel(a, c, d) * d
    }
}

/// The number of integers strictly between `lo / d` and `hi / d`, for `lo <= hi`.
pub open spec fn integers_strictly_between(lo: int, hi: int, d: int) -> int {
    let n = ceil_of(hi, d) - lo / d - 1;
    if n < 0 {
        0
    } else {
        n
    }
}

/// The number of integer boundaries the ray crosses along this axis.
pub open spec fn crossing_count(a: int, c: int, d: int) -> int {
    if c >= 0 {
        integers_strictly_between(a, a + c, d)
    } else {
        integers_strictly_between(a + c, a, d)
    }
}

/// The numerator of the `t` at which boundary number `i` is crossed; the denominator is `|c|`.
pub open spec fn crossing_time(a: int, c: int, d: int, i: int) -> int {
    first_distance(a, c, d) + i * d
}

/// The integer boundary crossed as crossing number `i`.
pub open spec fn crossing_boundary(a: int, c: int, d: int, i: int) -> int {
    if c >= 0 {
        first_pixel(a, c, d) + 1 + i
    } else {
        first_pixel(a, c, d) - i
    }
}

/// The pixel the ray is in after `i` crossings along this axis.
pub open spec fn pixel_after(a: int, c: int, d: int, i: int) -> int {
    first_pixel(a, c, d) + i * step_of(c)
}

/// The axis is small enough for exact arithmetic in `i128` and its pixels fit in `i32`.
pub open spec fn axis_fits(a: int, c: int, d: int) -> bool {
    &&& 0 < d <= LIMIT
    &&& -LIMIT <= a <= LIMIT
    &&& -LIMIT <= c <= LIMIT
    &&& i32::MIN <= min_of(a, a + c) / d
    &&& ceil_of(max_of(a, a + c), d) <= i32::MAX
}

proof fn lemma_floor_facts(e: int, d: int, k: int)
    requires
        d > 0,
    ensures
        e / d * d <= e < e / d * d + d,
        k <= e / d <==> k * d <= e,
        k < ceil_of(e, d) <==> k * d < e,
        ceil_of(e, d) * d >= e,
        ceil_of(e, d) * d < e + d,
{
    vstd::arithmetic::div_mod::lemma_fundamental_div_mod(e, d);
    vstd::arithmetic::div_mod::lemma_fundamental_div_mod(-e, d);
    let q = e / d;
    let r = e % d;
    let q2 = (-e) / d;
    let r2 = (-e) % d;
    assert(e == d * q + r);
    assert(-e == d * q2 + r2);
    assert(0 <= r < d);
    assert(0 <= r2 < d);
    assert(q * d == d * q) by (nonlinear_arith);
    assert(q2 * d == d * q2) by (nonlinear_arith);
    assert(k <= q ==> k * d <= q * d) by (nonlinear_arith)
        requires
            d > 0,
    ;
    assert(k > q ==> k * d >= q * d + d) by (nonlinear_arith)
        requires
            d > 0,
    ;
    assert(k < -q2 ==> k * d <= -q2 * d - d) by (nonlinear_arith)
        requires
            d > 0,
    ;
    assert(k >= -q2 ==> k * d >= -q2 * d) by (nonlinear_arith)
        requires
            d > 0,
    ;
    assert(ceil_of(e, d) == -q2);
    assert(-q2 * d == -(q2 * d)) by (nonlinear_arith);
}

/// Along one axis: the start lies in `first_pixel`, at a positive distance of at most one
/// pixel from the first boundary; exactly `crossing_count` boundaries lie before the end, and
/// the next one after them lies at or beyond the end.
pub proof fn lemma_axis_times(a: int, c: int, d: int, i: int)
    requires
        d > 0,
    ensures
        0 < first_distance(a, c, d) <= d,
        crossing_count(a, c, d) >= 0,
        c == 0 ==> crossing_count(a, c, d) == 0,
        0 <= i < crossing_count(a, c, d) ==> crossing_time(a, c, d, i) < abs_of(c),
        c != 0 ==> crossing_time(a, c, d, crossing_count(a, c, d)) >= abs_of(c),
        0 <= i <= crossing_count(a, c, d) ==> 0 < crossing_time(a, c, d, i) <= abs_of(c) + d,
    decreases i,
{
    let fp = first_pixel(a, c, d);
    let e = a + c;
    let n = crossing_count(a, c, d);
    lemma_floor_facts(a, d, fp);
    lemma_floor_facts(a, d, fp + 1);
    lemma_floor_facts(e, d, fp + 1 + i);
    lemma_floor_facts(e, d, fp - i);
    lemma_floor_facts(e, d, fp + 1 + n);
    lemma_floor_facts(e, d, fp - n);
    assert((fp + 1 + i) * d == (fp + 1) * d + i * d) by (nonlinear_arith);
    assert((fp - i) * d == fp * d - i * d) by (nonlinear_arith);
    assert((fp + 1 + n) * d == (fp + 1) * d + n * d) by (nonlinear_arith);
    assert((fp - n) * d == fp * d - n * d) by (nonlinear_arith);
    assert((fp + 1) * d == fp * d + d) by (nonlinear_arith);
    if c > 0 {
        assert(ceil_of(e, d) >= fp + 1);
    } else if c < 0 {
        lemma_floor_facts(a, d, ceil_of(a, d) - 1);
        assert(e / d <= fp);
    } else {
        assert(ceil_of(a, d) - a / d <= 1);
    }
    if i >= 0 {
        assert(i * d >= 0) by (nonlinear_arith)
            requires
                i >= 0,
                d > 0,
        ;
    }
    if 0 < i && i <= n {
        lemma_axis_times(a, c, d, i - 1);
        assert(crossing_time(a, c, d, i) == crossing_time(a, c, d, i - 1) + d) by (nonlinear_arith)
            requires
                crossing_time(a, c, d, i) == first_distance(a, c, d) + i * d,
                crossing_time(a, c, d, i - 1) == first_distance(a, c, d) + (i - 1) * d,
        ;
    }
}

/// Crossing number `i` lands exactly on the integer `crossing_boundary(i)`: there
/// `x(t) * d == a + step * crossing_time(i)`, and that boundary lies strictly between the start
/// and the end; every integer strictly between the start and the end is crossed by exactly one
/// crossing, and after crossing `i` the ray is in the pixel on the far side of the boundary.
pub proof fn lemma_axis_boundaries(a: int, c: int, d: int, i: int, k: int)
    requires
        d > 0,
    ensures
        c != 0 ==> crossing_boundary(a, c, d, i) * d == a + step_of(c) * crossing_time(a, c, d, i),
        0 <= i < crossing_count(a, c, d) ==> min_of(a, a + c) < crossing_boundary(a, c, d, i) * d
            < max_of(a, a + c),
        min_of(a, a + c) < k * d < max_of(a, a + c) ==> {
            let j = if c >= 0 {
                k - first_pixel(a, c, d) - 1
            } else {
                first_pixel(a, c, d) - k
            };
            0 <= j < crossing_count(a, c, d) && crossing_boundary(a, c, d, j) == k
        },
        pixel_after(a, c, d, i + 1) == if c >= 0 {
            crossing_boundary(a, c, d, i)
        } else {
            crossing_boundary(a, c, d, i) - 1
        } || c == 0,
{
    let fp = first_pixel(a, c, d);
    let e = a + c;
    lemma_axis_times(a, c, d, i);
    lemma_floor_facts(a, d, fp);
    lemma_floor_facts(a, d, fp + 1);
    lemma_floor_facts(a, d, k);
    lemma_floor_facts(e, d, k);
    lemma_floor_facts(a, d, k + 1);
    assert((fp + 1 + i) * d == (fp + 1) * d + i * d) by (nonlinear_arith);
    assert((fp - i) * d == fp * d - i * d) by (nonlinear_arith);
    assert((fp + 1) * d == fp * d + d) by (nonlinear_arith);
    assert((k + 1) * d == k * d + d) by (nonlinear_arith);
    assert(fp + i * step_of(c) + step_of(c) == fp + (i + 1) * step_of(c)) by (nonlinear_arith);
    if c > 0 {
        assert(step_of(c) * crossing_time(a, c, d, i) == crossing_time(a, c, d, i));
    } else if c < 0 {
        assert(step_of(c) * crossing_time(a, c, d, i) == -crossing_time(a, c, d, i));
        lemma_floor_facts(a, d, ceil_of(a, d) - 1);
    } else {
        assert(step_of(c) * crossing_time(a, c, d, i) == 0);
    }
}

} // verus!

verus! {

/// Every pixel the ray visits along this axis lies between the pixels of its two ends.
pub proof fn lemma_pixel_range(a: int, c: int, d: int, i: int)
    requires
        d > 0,
        0 <= i <= crossing_count(a, c, d),
    ensures
        min_of(a, a + c) / d <= pixel_after(a, c, d, i) <= ceil_of(max_of(a, a + c), d),
{
    let fp = first_pixel(a, c, d);
    let e = a + c;
    let n = crossing_count(a, c, d);
    lemma_floor_facts(a, d, fp);
    lemma_floor_facts(e, d, fp);
    lemma_floor_facts(a, d, fp + 1);
    lemma_floor_facts(e, d, fp + i);
    lemma_floor_facts(e, d, fp - i);
    lemma_floor_facts(a, d, fp - i);
    lemma_floor_facts(a, d, e / d);
    lemma_floor_facts(e, d, a / d);
    lemma_div_bound(a, d);
    lemma_div_bound(e, d);
    if c > 0 {
        assert(pixel_after(a, c, d, i) == fp + i) by (nonlinear_arith)
            requires
                pixel_after(a, c, d, i) == fp + i * 1,
        ;
    } else if c < 0 {
        assert(pixel_after(a, c, d, i) == fp - i) by (nonlinear_arith)
            requires
                pixel_after(a, c, d, i) == fp + i * -1,
        ;
        lemma_floor_facts(a, d, ceil_of(a, d) - 1);
    } else {
        assert(pixel_after(a, c, d, i) == fp) by (nonlinear_arith)
            requires
                pixel_after(a, c, d, i) == fp + i * 0,
        ;
    }
}

proof fn lemma_div_bound(a: int, d: int)
    requires
        d > 0,
    ensures
        -abs_of(a) <= a / d <= abs_of(a),
        a / d <= ceil_of(a, d) <= a / d + 1,
{
    let q = a / d;
    lemma_floor_facts(a, d, 0);
    lemma_floor_facts(a, d, q + 1);
    lemma_floor_facts(a, d, q - 1);
    lemma_floor_facts(a, d, ceil_of(a, d));
    assert((q + 1) * d == q * d + d) by (nonlinear_arith);
    assert((q - 1) * d == q * d - d) by (nonlinear_arith);
    if q >= 0 {
        assert(q <= q * d) by (nonlinear_arith)
            requires
                q >= 0,
                d > 0,
        ;
    } else {
        assert((q + 1) * d <= q + 1) by (nonlinear_arith)
            requires
                q < 0,
                d > 0,
        ;
    }
}

/// `ceil(a / d)` for a positive `d`.
pub(crate) fn ceil_div(a: i128, d: i128) -> (q: i128)
    requires
        d > 0,
        -4 * LIMIT <= a <= 4 * LIMIT,
    ensures
        q == ceil_of(a as int, d as int),
{
    let f = floor_div(-a, d);
    proof {
        lemma_floor_facts(-a, d as int, 0);
        lemma_div_bound(-a as int, d as int);
    }
    -f
}

/// The coordinate of the first pixel entered by the ray: `floor(start)` when moving up (or not
/// at all), and `ceil(start) - 1` when moving down.
pub(crate) fn initial_pixel_coordinate(start: i128, diff: i128, den: i128) -> (p: i32)
    requires
        axis_fits(start as int, diff as int, den as int),
    ensures
        p == first_pixel(start as int, diff as int, den as int),
{
    proof {
        lemma_pixel_range(start as int, diff as int, den as int, 0);
        assert(pixel_after(start as int, diff as int, den as int, 0) == first_pixel(
            start as int,
            diff as int,
            den as int,
        ));
    }
    if diff >= 0 {
        floor_div(start, den) as i32
    } else {
        (ceil_div(start, den) - 1) as i32
    }
}

/// The distance, in units of `1 / den`, between `start` and the next integer in the direction
/// of travel. It is always positive and at most one pixel.
pub(crate) fn distance_to_integer_boundary(start: i128, diff: i128, den: i128) -> (r: i128)
    requires
        axis_fits(start as int, diff as int, den as int),
    ensures
        r == first_distance(start as int, diff as int, den as int),
        0 < r <= den,
{
    proof {
        lemma_axis_times(start as int, diff as int, den as int, 0);
        lemma_floor_facts(start as int, den as int, 0);
        lemma_floor_facts(-start as int, den as int, 0);
    }
    let p = initial_pixel_coordinate(start, diff, den) as i128;
    if diff >= 0 {
        (p + 1) * den - start
    } else {
        start - p * den
    }
}

/// The number of integers greater than `lo / den` and less than `hi / den`.
pub(crate) fn integers_between_ordered(lo: i128, hi: i128, den: i128) -> (n: u64)
    requires
        0 < den <= LIMIT,
        -2 * LIMIT <= lo <= hi <= 2 * LIMIT,
    ensures
        n == integers_strictly_between(lo as int, hi as int, den as int),
{
    proof {
        lemma_floor_facts(lo as int, den as int, 0);
        lemma_floor_facts(hi as int, den as int, 0);
        lemma_floor_facts(-hi as int, den as int, 0);
        lemma_div_bound(lo as int, den as int);
        lemma_div_bound(-hi as int, den as int);
    }
    let n = ceil_div(hi, den) - floor_div(lo, den) - 1;
    if n < 0 {
        0
    } else {
        n as u64
    }
}

/// The number of integer boundaries crossed between `start / den` and `end / den`, in either
/// order.
pub(crate) fn integers_between(start: i128, diff: i128, den: i128) -> (n: u64)
    requires
        axis_fits(start as int, diff as int, den as int),
    ensures
        n == crossing_count(start as int, diff as int, den as int),
{
    let end = start + diff;
    if diff >= 0 {
        integers_between_ordered(start, end, den)
    } else {
        integers_between_ordered(end, start, den)
    }
}

} // verus!

verus! {

/// The common denominator used for an axis whose start has denominator `b` and whose
/// difference has denominator `e`: the larger one when it is a multiple of the other, else
/// their product.
pub open spec fn common_den(b: int, e: int) -> int {
    if b % e == 0 {
        b
    } else if e % b == 0 {
        e
    } else {
        b * e
    }
}

/// One axis of a ray as integers `(a, c, d)`: the ray runs from `a / d` to `(a + c) / d`.
pub open spec fn axis_of(start: Ratio, diff: Ratio) -> (int, int, int) {
    let d = common_den(start.den as int, diff.den as int);
    (start.num * (d / start.den as int), diff.num * (d / diff.den as int), d)
}

/// Brings the start and the difference of one axis to a common denominator.
pub(crate) fn axis_terms(start: Ratio, diff: Ratio) -> (r: (i128, i128, i128))
    requires
        start.wf(),
        diff.wf(),
    ensures
        r.0 as int == axis_of(start, diff).0,
        r.1 as int == axis_of(start, diff).1,
        r.2 as int == axis_of(start, diff).2,
        r.2 > 0,
{
    let b = start.den as i128;
    let e = diff.den as i128;
    let d: i128 = if b % e == 0 {
        b
    } else if e % b == 0 {
        e
    } else {
        assert(b * e <= 0x7fff_ffff_ffff_ffff * 0x7fff_ffff_ffff_ffff) by (nonlinear_arith)
            requires
                0 < b <= 0x7fff_ffff_ffff_ffff,
                0 < e <= 0x7fff_ffff_ffff_ffff,
        ;
        assert(b * e > 0) by (nonlinear_arith)
            requires
                0 < b,
                0 < e,
        ;
        b * e
    };
    proof {
        lemma_div_bound(d as int, b as int);
        lemma_div_bound(d as int, e as int);
        if b % e != 0 && e % b != 0 {
            vstd::arithmetic::div_mod::lemma_div_multiples_vanish(e as int, b as int);
            vstd::arithmetic::div_mod::lemma_div_multiples_vanish(b as int, e as int);
            assert(e * b == b * e) by (nonlinear_arith);
        } else if b % e == 0 {
            vstd::arithmetic::div_mod::lemma_div_basics(b as int);
            lemma_div_bound(b as int, e as int);
        } else {
            vstd::arithmetic::div_mod::lemma_div_basics(e as int);
            lemma_div_bound(e as int, b as int);
        }
    }
    let qb = d / b;
    let qe = d / e;
    assert(-0x8000_0000_0000_0000 * 0x8000_0000_0000_0000 <= start.num * qb
        <= 0x8000_0000_0000_0000 * 0x8000_0000_0000_0000) by (nonlinear_arith)
        requires
            -0x8000_0000_0000_0000 <= start.num <= 0x8000_0000_0000_0000,
            0 <= qb <= 0x8000_0000_0000_0000,
    ;
    assert(-0x8000_0000_0000_0000 * 0x8000_0000_0000_0000 <= diff.num * qe
        <= 0x8000_0000_0000_0000 * 0x8000_0000_0000_0000) by (nonlinear_arith)
        requires
            -0x8000_0000_0000_0000 <= diff.num <= 0x8000_0000_0000_0000,
            0 <= qe <= 0x8000_0000_0000_0000,
    ;
    (start.num as i128 * qb, diff.num as i128 * qe, d)
}

} // verus!

verus! {

/// `axis_of(start, diff)` is `(a, c, d)` with `d > 0`, `a / d == start` and `c / d == diff`.
pub proof fn lemma_axis_of_values(start: Ratio, diff: Ratio)
    requires
        start.wf(),
        diff.wf(),
    ensures
        axis_of(start, diff).2 > 0,
        axis_of(start, diff).0 * start.den == start.num * axis_of(start, diff).2,
        axis_of(start, diff).1 * diff.den == diff.num * axis_of(start, diff).2,
{
    let b = start.den as int;
    let e = diff.den as int;
    let d = common_den(b, e);
    if b % e != 0 && e % b != 0 {
        vstd::arithmetic::div_mod::lemma_div_multiples_vanish(e, b);
        vstd::arithmetic::div_mod::lemma_div_multiples_vanish(b, e);
        assert(e * b == b * e) by (nonlinear_arith);
        assert(b * e > 0) by (nonlinear_arith)
            requires
                b > 0,
                e > 0,
        ;
        assert(d / b == e);
        assert(d / e == b);
        assert(d == (d / b) * b) by (nonlinear_arith)
            requires
                d == b * e,
                d / b == e,
        ;
        assert(d == (d / e) * e) by (nonlinear_arith)
            requires
                d == b * e,
                d / e == b,
        ;
    } else if b % e == 0 {
        vstd::arithmetic::div_mod::lemma_div_basics(b);
        vstd::arithmetic::div_mod::lemma_fundamental_div_mod(b, e);
        assert(d / b == 1);
        assert(d == (d / b) * b) by (nonlinear_arith)
            requires
                d / b == 1,
                d == b,
        ;
        assert(d == (d / e) * e) by (nonlinear_arith)
            requires
                d == b,
                b == e * (b / e) + b % e,
                b % e == 0,
        ;
    } else {
        vstd::arithmetic::div_mod::lemma_div_basics(e);
        vstd::arithmetic::div_mod::lemma_fundamental_div_mod(e, b);
        assert(d / e == 1);
        assert(d == (d / e) * e) by (nonlinear_arith)
            requires
                d / e == 1,
                d == e,
        ;
        assert(d == (d / b) * b) by (nonlinear_arith)
            requires
                d == e,
                e == b * (e / b) + e % b,
                e % b == 0,
        ;
    }
    assert(d == (d / b) * b);
    assert(d == (d / e) * e);
    assert(start.num * (d / b) * b == start.num * d) by (nonlinear_arith)
        requires
            d == (d / b) * b,
    ;
    assert(diff.num * (d / e) * e == diff.num * d) by (nonlinear_arith)
        requires
            d == (d / e) * e,
    ;
}

} // verus!

verus! {

/// Between its crossings `i - 1` and `i` (from `t = 0` and up to `t = 1` at the ends), the ray
/// lies in the pixel `pixel_after(i)`: at every time `t = tn / td` strictly inside that
/// interval, `pixel_after(i) <= (a + c * t) / d < pixel_after(i) + 1`.
pub proof fn lemma_axis_cell(a: int, c: int, d: int, i: int, tn: int, td: int)
    requires
        d > 0,
        td > 0,
        0 < tn < td,
        0 <= i <= crossing_count(a, c, d),
        i > 0 ==> crossing_time(a, c, d, i - 1) * td < tn * abs_of(c),
        i < crossing_count(a, c, d) ==> tn * abs_of(c) < crossing_time(a, c, d, i) * td,
    ensures
        pixel_after(a, c, d, i) * d * td <= a * td + c * tn,
        a * td + c * tn < (pixel_after(a, c, d, i) + 1) * d * td,
{
    let n = crossing_count(a, c, d);
    let fp = first_pixel(a, c, d);
    let p = pixel_after(a, c, d, i);
    lemma_axis_times(a, c, d, i);
    lemma_floor_facts(a, d, fp);
    assert(c * tn == tn * c) by (nonlinear_arith);
    assert(-c * tn == tn * -c) by (nonlinear_arith);
    assert(-c * tn == -(c * tn)) by (nonlinear_arith);
    if c > 0 {
        assert(p == fp + i) by (nonlinear_arith)
            requires
                p == fp + i * 1,
        ;
        // upper side: the ray has not yet reached boundary p + 1
        lemma_axis_boundaries(a, c, d, i, 0);
        assert(crossing_boundary(a, c, d, i) == p + 1);
        let ti = crossing_time(a, c, d, i);
        assert((p + 1) * d == a + ti);
        if i < n {
            assert(c * tn < ti * td);
        } else {
            assert(c * tn < c * td) by (nonlinear_arith)
                requires
                    c > 0,
                    tn < td,
            ;
            assert(c * td <= ti * td) by (nonlinear_arith)
                requires
                    c <= ti,
                    td > 0,
            ;
        }
        assert((p + 1) * d * td == a * td + ti * td) by (nonlinear_arith)
            requires
                (p + 1) * d == a + ti,
        ;
        // lower side: the ray is past boundary p
        if i > 0 {
            lemma_axis_boundaries(a, c, d, i - 1, 0);
            let tj = crossing_time(a, c, d, i - 1);
            assert(crossing_boundary(a, c, d, i - 1) == p);
            assert(p * d == a + tj);
            assert(p * d * td == a * td + tj * td) by (nonlinear_arith)
                requires
                    p * d == a + tj,
            ;
        } else {
            assert(p * d <= a);
            assert(p * d * td <= a * td) by (nonlinear_arith)
                requires
                    p * d <= a,
                    td > 0,
            ;
            assert(c * tn > 0) by (nonlinear_arith)
                requires
                    c > 0,
                    tn > 0,
            ;
        }
    } else if c < 0 {
        assert(p == fp - i) by (nonlinear_arith)
            requires
                p == fp + i * -1,
        ;
        assert(abs_of(c) == -c);
        // lower side: the ray has not yet reached boundary p
        lemma_axis_boundaries(a, c, d, i, 0);
        assert(crossing_boundary(a, c, d, i) == p);
        let ti = crossing_time(a, c, d, i);
        assert(p * d == a - ti);
        if i < n {
            assert(-c * tn < ti * td);
        } else {
            assert(-c * tn < -c * td) by (nonlinear_arith)
                requires
                    c < 0,
                    tn < td,
            ;
            assert(-c * td <= ti * td) by (nonlinear_arith)
                requires
                    -c <= ti,
                    td > 0,
            ;
        }
        assert(p * d * td == a * td - ti * td) by (nonlinear_arith)
            requires
                p * d == a - ti,
        ;
        // upper side: the ray is past boundary p + 1
        if i > 0 {
            lemma_axis_boundaries(a, c, d, i - 1, 0);
            let tj = crossing_time(a, c, d, i - 1);
            assert(crossing_boundary(a, c, d, i - 1) == p + 1);
            assert((p + 1) * d == a - tj);
            assert((p + 1) * d * td == a * td - tj * td) by (nonlinear_arith)
                requires
                    (p + 1) * d == a - tj,
            ;
        } else {
            lemma_floor_facts(a, d, ceil_of(a, d));
            assert((p + 1) * d >= a);
            assert((p + 1) * d * td >= a * td) by (nonlinear_arith)
                requires
                    (p + 1) * d >= a,
                    td > 0,
            ;
            assert(c * tn < 0) by (nonlinear_arith)
                requires
                    c < 0,
                    tn > 0,
            ;
        }
    } else {
        assert(p == fp) by (nonlinear_arith)
            requires
                p == fp + i * 0,
        ;
        assert(c * tn == 0);
        assert(p * d * td <= a * td) by (nonlinear_arith)
            requires
                p * d <= a,
                td > 0,
        ;
        assert(a * td < (p + 1) * d * td) by (nonlinear_arith)
            requires
                a < p * d + d,
                td > 0,
        ;
    }
}

} // verus!
