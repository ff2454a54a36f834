use vstd::prelude::*;

use vstd::arithmetic::div_mod::{lemma_div_is_ordered, lemma_div_multiples_vanish};

use crate::vector::Vector;

verus! {

/// Numerator of the parameter `t` of the crossing point along `a`–`b`.
pub open spec fn t_numerator(a: Vector, b: Vector, c: Vector, d: Vector) -> int {
    (d.x - c.x) * (a.y - c.y) - (d.y - c.y) * (a.x - c.x)
}

/// Numerator of the parameter `u` of the crossing point along `c`–`d`.
pub open spec fn u_numerator(a: Vector, b: Vector, c: Vector, d: Vector) -> int {
    (c.y - a.y) * (a.x - b.x) - (c.x - a.x) * (a.y - b.y)
}

/// Common denominator of `t` and `u`; zero when the segments are parallel
/// or collinear, or one of them has length zero.
pub open spec fn denominator(a: Vector, b: Vector, c: Vector, d: Vector) -> int {
    (d.y - c.y) * (b.x - a.x) - (d.x - c.x) * (b.y - a.y)
}

/// `num / den` is a number of the closed interval [0, 1].
pub open spec fn in_unit_interval(num: int, den: int) -> bool {
    if den > 0 {
        0 <= num <= den
    } else if den < 0 {
        den <= num <= 0
    } else {
        false
    }
}

/// Segment `a`–`b` meets segment `c`–`d`, endpoints included, and the two
/// are not parallel.
pub open spec fn segments_cross(a: Vector, b: Vector, c: Vector, d: Vector) -> bool {
    let den = denominator(a, b, c, d);
    &&& den != 0
    &&& in_unit_interval(t_numerator(a, b, c, d), den)
    &&& in_unit_interval(u_numerator(a, b, c, d), den)
}

/// Numerator of `t` over the positive denominator `offset_denominator`.
pub open spec fn offset_numerator(a: Vector, b: Vector, c: Vector, d: Vector) -> int {
    if denominator(a, b, c, d) < 0 {
        -t_numerator(a, b, c, d)
    } else {
        t_numerator(a, b, c, d)
    }
}

/// The absolute value of `denominator`.
pub open spec fn offset_denominator(a: Vector, b: Vector, c: Vector, d: Vector) -> int {
    if denominator(a, b, c, d) < 0 {
        -denominator(a, b, c, d)
    } else {
        denominator(a, b, c, d)
    }
}

/// `n / den` rounded toward zero, for `den > 0`.
pub open spec fn div_toward_zero(n: int, den: int) -> int {
    if n >= 0 {
        n / den
    } else {
        -((-n) / den)
    }
}

/// `p + (num / den) * (q - p)`, rounded toward zero.
pub open spec fn lerp_toward_zero(p: int, q: int, num: int, den: int) -> int {
    div_toward_zero(p * den + (q - p) * num, den)
}

/// Where two segments cross: the grid point reached from the first segment's
/// start, and the fraction `offset_num / offset_den` of the way along it.
#[derive(Clone, Copy, PartialEq, Eq, Structural, Hash, Debug)]
pub struct Intersection {
    pub position: Vector,
    pub offset_num: i128,
    pub offset_den: i128,
}

/// Products of two coordinate differences fit comfortably in `i128`.
proof fn lemma_product_bound(p: int, q: int)
    requires
        -0x1_0000_0000 <= p <= 0x1_0000_0000,
        -0x1_0000_0000 <= q <= 0x1_0000_0000,
    ensures
        -0x1_0000_0000_0000_0000 <= p * q <= 0x1_0000_0000_0000_0000,
{
    assert(-0x1_0000_0000_0000_0000 <= p * q <= 0x1_0000_0000_0000_0000) by (nonlinear_arith)
        requires
            -0x1_0000_0000 <= p <= 0x1_0000_0000,
            -0x1_0000_0000 <= q <= 0x1_0000_0000,
    ;
}

/// With `0 <= num <= den`, `p * den + (q - p) * num` lies between
/// `min(p, q) * den` and `max(p, q) * den`, and is small enough for `i128`.
proof fn lemma_lerp_numerator(p: int, q: int, num: int, den: int)
    requires
        -0x8000_0000 <= p < 0x8000_0000,
        -0x8000_0000 <= q < 0x8000_0000,
        0 < den <= 0x2_0000_0000_0000_0000,
        0 <= num <= den,
    ensures
        p <= q ==> p * den <= p * den + (q - p) * num <= q * den,
        q <= p ==> q * den <= p * den + (q - p) * num <= p * den,
        -0x10_0000_0000_0000_0000_0000_0000 <= p * den <= 0x10_0000_0000_0000_0000_0000_0000,
        -0x10_0000_0000_0000_0000_0000_0000 <= (q - p) * num
            <= 0x10_0000_0000_0000_0000_0000_0000,
{
    assert(p <= q ==> 0 <= (q - p) * num <= (q - p) * den) by (nonlinear_arith)
        requires
            0 <= num <= den,
    ;
    assert(q <= p ==> (q - p) * den <= (q - p) * num <= 0) by (nonlinear_arith)
        requires
            0 <= num <= den,
    ;
    assert(p * den + (q - p) * den == q * den) by (nonlinear_arith);
    assert(-0x10_0000_0000_0000_0000_0000_0000 <= p * den <= 0x10_0000_0000_0000_0000_0000_0000)
        by (nonlinear_arith)
        requires
            -0x8000_0000 <= p < 0x8000_0000,
            0 < den <= 0x2_0000_0000_0000_0000,
    ;
    assert(-0x10_0000_0000_0000_0000_0000_0000 <= (q - p) * num
        <= 0x10_0000_0000_0000_0000_0000_0000) by (nonlinear_arith)
        requires
            -0x1_0000_0000 <= q - p <= 0x1_0000_0000,
            0 <= num <= 0x2_0000_0000_0000_0000,
    ;
}

/// A value between `lo * den` and `hi * den` rounds toward zero to a value
/// between `lo` and `hi`.
proof fn lemma_div_toward_zero_between(v: int, lo: int, hi: int, den: int)
    requires
        den > 0,
        lo * den <= v <= hi * den,
    ensures
        lo <= div_toward_zero(v, den) <= hi,
{
    lemma_div_multiples_vanish(lo, den);
    lemma_div_multiples_vanish(hi, den);
    lemma_div_multiples_vanish(-lo, den);
    lemma_div_multiples_vanish(-hi, den);
    assert(den * lo == lo * den && den * hi == hi * den) by (nonlinear_arith);
    assert(den * (-lo) == -(lo * den) && den * (-hi) == -(hi * den)) by (nonlinear_arith);
    if v >= 0 {
        lemma_div_is_ordered(lo * den, v, den);
        lemma_div_is_ordered(v, hi * den, den);
    } else {
        lemma_div_is_ordered(-(hi * den), -v, den);
        lemma_div_is_ordered(-v, -(lo * den), den);
    }
}

/// Exact `p + (num / den) * (q - p)` rounded toward zero, for a fraction
/// `num / den` of [0, 1].
fn lerp(p: i32, q: i32, num: i128, den: i128) -> (r: i32)
    requires
        0 < den <= 0x2_0000_0000_0000_0000,
        0 <= num <= den,
    ensures
        r == lerp_toward_zero(p as int, q as int, num as int, den as int),
{
    proof {
        lemma_lerp_numerator(p as int, q as int, num as int, den as int);
        if p <= q {
            lemma_div_toward_zero_between(
                p * den + (q - p) * num,
                p as int,
                q as int,
                den as int,
            );
        } else {
            lemma_div_toward_zero_between(
                p * den + (q - p) * num,
                q as int,
                p as int,
                den as int,
            );
        }
    }
    let v: i128 = (p as i128) * den + ((q as i128) - (p as i128)) * num;
    let r: i128 = if v >= 0 {
        v / den
    } else {
        -((-v) / den)
    };
    r as i32
}

/// The denominators and numerators of `find(c, d, a, b)` are those of
/// `find(a, b, c, d)` with their signs flipped and `t` and `u` exchanged.
proof fn lemma_swap_terms(a: Vector, b: Vector, c: Vector, d: Vector)
    ensures
        denominator(c, d, a, b) == -denominator(a, b, c, d),
        t_numerator(c, d, a, b) == -u_numerator(a, b, c, d),
        u_numerator(c, d, a, b) == -t_numerator(a, b, c, d),
        a.x * denominator(a, b, c, d) + (b.x - a.x) * t_numerator(a, b, c, d) == c.x
            * denominator(a, b, c, d) + (d.x - c.x) * u_numerator(a, b, c, d),
        a.y * denominator(a, b, c, d) + (b.y - a.y) * t_numerator(a, b, c, d) == c.y
            * denominator(a, b, c, d) + (d.y - c.y) * u_numerator(a, b, c, d),
{
    let (p, q) = (b.x - a.x, b.y - a.y);
    let (r, s) = (c.x - a.x, c.y - a.y);
    let (m, n) = (d.x - c.x, d.y - c.y);
    assert(t_numerator(a, b, c, d) == n * r - m * s) by (nonlinear_arith)
        requires
            r == c.x - a.x,
            s == c.y - a.y,
            m == d.x - c.x,
            n == d.y - c.y,
    ;
    assert(u_numerator(a, b, c, d) == r * q - s * p) by (nonlinear_arith)
        requires
            p == b.x - a.x,
            q == b.y - a.y,
            r == c.x - a.x,
            s == c.y - a.y,
    ;
    assert(t_numerator(c, d, a, b) == p * s - q * r) by (nonlinear_arith)
        requires
            p == b.x - a.x,
            q == b.y - a.y,
            r == c.x - a.x,
            s == c.y - a.y,
    ;
    assert(u_numerator(c, d, a, b) == m * s - n * r) by (nonlinear_arith)
        requires
            r == c.x - a.x,
            s == c.y - a.y,
            m == d.x - c.x,
            n == d.y - c.y,
    ;
    assert(denominator(a, b, c, d) == n * p - m * q);
    assert(denominator(c, d, a, b) == q * m - p * n);
    lemma_crossing_identity(a.x as int, a.y as int, p, q, r, s, m, n);
}

/// The point `(ax, ay) + (t / den) * (p, q)` equals
/// `(ax, ay) + (r, s) + (u / den) * (m, n)`: with `(p, q)` the direction of
/// the first segment, `(r, s)` the step from its start to the start of the
/// second one, and `(m, n)` the direction of the second one.
proof fn lemma_crossing_identity(ax: int, ay: int, p: int, q: int, r: int, s: int, m: int, n: int)
    ensures
        ax * (n * p - m * q) + p * (n * r - m * s) == (ax + r) * (n * p - m * q) + m * (r * q
            - s * p),
        ay * (n * p - m * q) + q * (n * r - m * s) == (ay + s) * (n * p - m * q) + n * (r * q
            - s * p),
{
    assert(p * (n * r - m * s) == r * (n * p - m * q) + m * (r * q - s * p))
        by (nonlinear_arith);
    assert(q * (n * r - m * s) == s * (n * p - m * q) + n * (r * q - s * p))
        by (nonlinear_arith);
    assert(ax * (n * p - m * q) + r * (n * p - m * q) == (ax + r) * (n * p - m * q))
        by (nonlinear_arith);
    assert(ay * (n * p - m * q) + s * (n * p - m * q) == (ay + s) * (n * p - m * q))
        by (nonlinear_arith);
}

/// `p * (-den) + (q - p) * (-num)` is the negation of `p * den + (q - p) * num`.
proof fn lemma_negate_lerp_numerator(p: int, q: int, num: int, den: int)
    ensures
        p * (-den) + (q - p) * (-num) == -(p * den + (q - p) * num),
{
    assert(p * (-den) + (q - p) * (-num) == -(p * den + (q - p) * num)) by (nonlinear_arith);
}

/// Swapping the two segments does not change whether they cross, nor where:
/// the crossing point reached along `c`–`d` is the one reached along `a`–`b`.
/// Only the offset differs, as it is measured along the first segment given.
pub proof fn law_crossing_ignores_segment_order(a: Vector, b: Vector, c: Vector, d: Vector)
    ensures
        segments_cross(a, b, c, d) == segments_cross(c, d, a, b),
        segments_cross(a, b, c, d) ==> {
            &&& lerp_toward_zero(
                a.x as int,
                b.x as int,
                offset_numerator(a, b, c, d),
                offset_denominator(a, b, c, d),
            ) == lerp_toward_zero(
                c.x as int,
                d.x as int,
                offset_numerator(c, d, a, b),
                offset_denominator(c, d, a, b),
            )
            &&& lerp_toward_zero(
                a.y as int,
                b.y as int,
                offset_numerator(a, b, c, d),
                offset_denominator(a, b, c, d),
            ) == lerp_toward_zero(
                c.y as int,
                d.y as int,
                offset_numerator(c, d, a, b),
                offset_denominator(c, d, a, b),
            )
        },
{
    lemma_swap_terms(a, b, c, d);
    let den = denominator(a, b, c, d);
    let t = t_numerator(a, b, c, d);
    let u = u_numerator(a, b, c, d);
    lemma_negate_lerp_numerator(a.x as int, b.x as int, t, den);
    lemma_negate_lerp_numerator(a.y as int, b.y as int, t, den);
    lemma_negate_lerp_numerator(c.x as int, d.x as int, u, den);
    lemma_negate_lerp_numerator(c.y as int, d.y as int, u, den);
}

/// Segments with parallel directions never cross, collinear ones included,
/// whether or not they overlap.
pub proof fn law_parallel_segments_never_cross(a: Vector, b: Vector, c: Vector, d: Vector)
    requires
        (b.x - a.x) * (d.y - c.y) == (b.y - a.y) * (d.x - c.x),
    ensures
        !segments_cross(a, b, c, d),
{
    assert(denominator(a, b, c, d) == 0) by (nonlinear_arith)
        requires
            (b.x - a.x) * (d.y - c.y) == (b.y - a.y) * (d.x - c.x),
    ;
}

impl Intersection {
    /// Where segment `a`–`b` crosses segment `c`–`d`, endpoints included.
    /// Parallel or collinear segments, and segments of length zero, never
    /// cross; nor do segments whose lines meet outside either of them.
    pub fn find(a: &Vector, b: &Vector, c: &Vector, d: &Vector) -> (r: Option<Intersection>)
        ensures
            r.is_some() == segments_cross(*a, *b, *c, *d),
            r matches Some(i) ==> {
                &&& i.offset_num == offset_numerator(*a, *b, *c, *d)
                &&& i.offset_den == offset_denominator(*a, *b, *c, *d)
                &&& 0 <= i.offset_num <= i.offset_den
                &&& 0 < i.offset_den
                &&& i.position.x == lerp_toward_zero(
                    a.x as int,
                    b.x as int,
                    i.offset_num as int,
                    i.offset_den as int,
                )
                &&& i.position.y == lerp_toward_zero(
                    a.y as int,
                    b.y as int,
                    i.offset_num as int,
                    i.offset_den as int,
                )
            },
    {
        let (ax, ay) = (a.x as i128, a.y as i128);
        let (bx, by) = (b.x as i128, b.y as i128);
        let (cx, cy) = (c.x as i128, c.y as i128);
        let (dx, dy) = (d.x as i128, d.y as i128);
        proof {
            lemma_product_bound(dx - cx, ay - cy);
            lemma_product_bound(dy - cy, ax - cx);
            lemma_product_bound(cy - ay, ax - bx);
            lemma_product_bound(cx - ax, ay - by);
            lemma_product_bound(dy - cy, bx - ax);
            lemma_product_bound(dx - cx, by - ay);
        }
        let t_top: i128 = (dx - cx) * (ay - cy) - (dy - cy) * (ax - cx);
        let u_top: i128 = (cy - ay) * (ax - bx) - (cx - ax) * (ay - by);
        let bottom: i128 = (dy - cy) * (bx - ax) - (dx - cx) * (by - ay);
        if bottom == 0 {
            return None;
        }
        let (t_num, u_num, den) = if bottom < 0 {
            (-t_top, -u_top, -bottom)
        } else {
            (t_top, u_top, bottom)
        };
        if 0 <= t_num && t_num <= den && 0 <= u_num && u_num <= den {
            let position = Vector::new(lerp(a.x, b.x, t_num, den), lerp(a.y, b.y, t_num, den));
            Some(Intersection { position, offset_num: t_num, offset_den: den })
        } else {
            None
        }
    }
}

} // verus!
