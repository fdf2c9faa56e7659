//! Axis-aligned bounding boxes over `i64` coordinates, and the arithmetic the
//! spatial backends need: clamped intersection, component-wise union, widened
//! area, and an exact integer midpoint.

use vstd::prelude::*;

verus! {

/// Axis-aligned bounding box in 2D.
///
/// A box is *empty* iff `max_x < min_x` or `max_y < min_y`; a degenerate box
/// with `min == max` on an axis is not empty (it is a point or a segment).
#[derive(Copy, Clone, Debug, PartialEq, Eq, Structural, Hash)]
pub struct Aabb2D {
    /// Minimum x (left)
    pub min_x: i64,
    /// Minimum y (top)
    pub min_y: i64,
    /// Maximum x (right)
    pub max_x: i64,
    /// Maximum y (bottom)
    pub max_y: i64,
}

/// Whether `a` is empty (inverted on some axis).
pub open spec fn s_empty(a: Aabb2D) -> bool {
    a.max_x < a.min_x || a.max_y < a.min_y
}

/// Whether `a` contains the point `(x, y)` (boundary included).
pub open spec fn s_contains_point(a: Aabb2D, x: int, y: int) -> bool {
    a.min_x <= x && x <= a.max_x && a.min_y <= y && y <= a.max_y
}

/// The clamped intersection of two boxes (component-wise max of mins, min of
/// maxes); empty when the boxes do not overlap.
pub open spec fn s_intersect(a: Aabb2D, b: Aabb2D) -> Aabb2D {
    Aabb2D {
        min_x: if a.min_x >= b.min_x { a.min_x } else { b.min_x },
        min_y: if a.min_y >= b.min_y { a.min_y } else { b.min_y },
        max_x: if a.max_x <= b.max_x { a.max_x } else { b.max_x },
        max_y: if a.max_y <= b.max_y { a.max_y } else { b.max_y },
    }
}

/// Whether two boxes overlap (their clamped intersection is non-empty).
pub open spec fn s_overlaps(a: Aabb2D, b: Aabb2D) -> bool {
    !s_empty(s_intersect(a, b))
}

/// The component-wise union (bounding box of `a` and `b`).
pub open spec fn s_union(a: Aabb2D, b: Aabb2D) -> Aabb2D {
    Aabb2D {
        min_x: if a.min_x <= b.min_x { a.min_x } else { b.min_x },
        min_y: if a.min_y <= b.min_y { a.min_y } else { b.min_y },
        max_x: if a.max_x >= b.max_x { a.max_x } else { b.max_x },
        max_y: if a.max_y >= b.max_y { a.max_y } else { b.max_y },
    }
}

/// Component-wise containment: `inner` lies within `outer`.
///
/// This is the invariant a spatial tree keeps between a node's box and the
/// boxes below it; it holds vacuously strong statements even for empty boxes.
pub open spec fn s_covers(outer: Aabb2D, inner: Aabb2D) -> bool {
    outer.min_x <= inner.min_x && outer.min_y <= inner.min_y
        && inner.max_x <= outer.max_x && inner.max_y <= outer.max_y
}

/// Width or height clamped to `[0, i64::MAX]`, saturating like the executable
/// arithmetic does.
pub open spec fn s_extent(lo: int, hi: int) -> int {
    if hi <= lo {
        0
    } else if hi - lo > i64::MAX {
        i64::MAX as int
    } else {
        hi - lo
    }
}

/// Area of a box with saturated extents, as the widened accumulator value.
pub open spec fn s_area(a: Aabb2D) -> int {
    s_extent(a.min_x as int, a.max_x as int) * s_extent(a.min_y as int, a.max_y as int)
}

impl Aabb2D {
    /// Create a new AABB from min/max corners.
    pub fn new(min_x: i64, min_y: i64, max_x: i64, max_y: i64) -> (r: Self)
        ensures
            r == (Aabb2D { min_x, min_y, max_x, max_y }),
    {
        Self { min_x, min_y, max_x, max_y }
    }

    /// Create an AABB from origin and size.
    pub fn from_xywh(x: i64, y: i64, w: i64, h: i64) -> (r: Self)
        requires
            i64::MIN <= x + w <= i64::MAX,
            i64::MIN <= y + h <= i64::MAX,
        ensures
            r == (Aabb2D { min_x: x, min_y: y, max_x: (x + w) as i64, max_y: (y + h) as i64 }),
    {
        Self { min_x: x, min_y: y, max_x: x + w, max_y: y + h }
    }

    /// Whether this AABB contains the point.
    pub fn contains_point(&self, x: i64, y: i64) -> (r: bool)
        ensures
            r == s_contains_point(*self, x as int, y as int),
    {
        self.min_x <= x && self.min_y <= y && x <= self.max_x && y <= self.max_y
    }

    /// The clamped intersection of two AABBs.
    pub fn intersect(&self, other: &Self) -> (r: Self)
        ensures
            r == s_intersect(*self, *other),
    {
        Self {
            min_x: max_i64(self.min_x, other.min_x),
            min_y: max_i64(self.min_y, other.min_y),
            max_x: min_i64(self.max_x, other.max_x),
            max_y: min_i64(self.max_y, other.max_y),
        }
    }

    /// Return true if the AABB is empty (inverted on some axis).
    pub fn is_empty(&self) -> (r: bool)
        ensures
            r == s_empty(*self),
    {
        self.max_x < self.min_x || self.max_y < self.min_y
    }
}

/// The smaller of two values.
pub fn min_i64(a: i64, b: i64) -> (r: i64)
    ensures
        r == if a <= b { a } else { b },
{
    if a <= b { a } else { b }
}

/// The larger of two values.
pub fn max_i64(a: i64, b: i64) -> (r: i64)
    ensures
        r == if a >= b { a } else { b },
{
    if a >= b { a } else { b }
}

/// The bounding box of two AABBs.
pub fn union_aabb(a: Aabb2D, b: Aabb2D) -> (r: Aabb2D)
    ensures
        r == s_union(a, b),
{
    Aabb2D {
        min_x: min_i64(a.min_x, b.min_x),
        min_y: min_i64(a.min_y, b.min_y),
        max_x: max_i64(a.max_x, b.max_x),
        max_y: max_i64(a.max_y, b.max_y),
    }
}

/// Saturating extent `hi - lo`, clamped to `[0, i64::MAX]`.
fn extent(lo: i64, hi: i64) -> (r: i64)
    ensures
        r as int == s_extent(lo as int, hi as int),
{
    if hi <= lo {
        0
    } else {
        let d: i128 = hi as i128 - lo as i128;
        if d > i64::MAX as i128 {
            i64::MAX
        } else {
            d as i64
        }
    }
}

/// Area of an AABB in the widened accumulator type; extents saturate at
/// `i64::MAX`, so the product always fits in an `i128`.
pub fn area(a: &Aabb2D) -> (r: i128)
    ensures
        r as int == s_area(*a),
{
    let w = extent(a.min_x, a.max_x);
    let h = extent(a.min_y, a.max_y);
    proof {
        assert(0 <= w as int <= i64::MAX);
        assert(0 <= h as int <= i64::MAX);
        assert((w as int) * (h as int) <= (i64::MAX as int) * (i64::MAX as int)) by (nonlinear_arith)
            requires 0 <= w as int <= i64::MAX && 0 <= h as int <= i64::MAX;
        assert((w as int) * (h as int) >= 0) by (nonlinear_arith)
            requires 0 <= w as int && 0 <= h as int;
    }
    (w as i128) * (h as i128)
}

/// The area value is bounded by the square of the largest extent.
pub proof fn lemma_area_bounds(a: Aabb2D)
    ensures
        0 <= s_area(a) <= (i64::MAX as int) * (i64::MAX as int),
{
    let w = s_extent(a.min_x as int, a.max_x as int);
    let h = s_extent(a.min_y as int, a.max_y as int);
    assert(0 <= w * h <= (i64::MAX as int) * (i64::MAX as int)) by (nonlinear_arith)
        requires
            0 <= w <= i64::MAX as int,
            0 <= h <= i64::MAX as int;
}

/// `a * b` for nonnegative values, saturating at `i128::MAX`.
pub open spec fn s_sat_mul(a: int, b: int) -> int {
    if a * b > i128::MAX as int {
        i128::MAX as int
    } else {
        a * b
    }
}

/// `a + b` for nonnegative values, saturating at `i128::MAX`.
pub open spec fn s_sat_add(a: int, b: int) -> int {
    if a + b > i128::MAX as int {
        i128::MAX as int
    } else {
        a + b
    }
}

/// Saturating product of nonnegative accumulator values.
pub fn sat_mul(a: i128, b: i128) -> (r: i128)
    requires
        a >= 0,
        b >= 0,
    ensures
        r as int == s_sat_mul(a as int, b as int),
{
    if b == 0 {
        proof {
            assert(a as int * 0 == 0) by (nonlinear_arith);
        }
        0
    } else {
        let au = a as u128;
        let bu = b as u128;
        let lim = (i128::MAX as u128) / bu;
        if au <= lim {
            proof {
                assert(lim == (i128::MAX as u128) as int / (bu as int));
                assert(au as int * bu as int <= ((i128::MAX as u128) as int / (bu as int)) * (
                bu as int)) by (nonlinear_arith)
                    requires
                        au as int <= (i128::MAX as u128) as int / (bu as int),
                        bu as int > 0;
                assert(((i128::MAX as u128) as int / (bu as int)) * (bu as int) <= (i128::MAX
                    as u128) as int) by (nonlinear_arith)
                    requires
                        bu as int > 0;
                assert(au as int * bu as int >= 0) by (nonlinear_arith)
                    requires
                        au as int >= 0,
                        bu as int >= 0;
            }
            (au * bu) as i128
        } else {
            proof {
                let m = (i128::MAX as u128) as int;
                let bi = bu as int;
                let li = lim as int;
                vstd::arithmetic::div_mod::lemma_fundamental_div_mod(m, bi);
                assert(m == bi * (m / bi) + m % bi);
                assert(bi * (m / bi) == (m / bi) * bi) by (nonlinear_arith);
                assert(0 <= m % bi < bi);
                assert(au as int * bi >= (li + 1) * bi) by (nonlinear_arith)
                    requires
                        au as int >= li + 1,
                        bi > 0;
                assert((li + 1) * bi == li * bi + bi) by (nonlinear_arith);
                assert(li * bi == m - m % bi);
                assert(au as int * bi > m);
            }
            i128::MAX
        }
    }
}

/// Saturating sum of nonnegative accumulator values.
pub fn sat_add(a: i128, b: i128) -> (r: i128)
    requires
        a >= 0,
        b >= 0,
    ensures
        r as int == s_sat_add(a as int, b as int),
{
    if a <= i128::MAX - b {
        a + b
    } else {
        i128::MAX
    }
}

/// Floor midpoint of two values, exact even at the ends of the range.
pub fn mid_i64(a: i64, b: i64) -> (r: i64)
    ensures
        r as int == ((a as int) + (b as int)) / 2,
{
    let ua: u64 = ((a as i128) + 0x8000_0000_0000_0000_i128) as u64;
    let ub: u64 = ((b as i128) + 0x8000_0000_0000_0000_i128) as u64;
    let qa: u64 = ua / 2;
    let qb: u64 = ub / 2;
    let pr: u64 = if ua % 2 == 1 && ub % 2 == 1 { 1 } else { 0 };
    proof {
        assert(ua == 2 * (ua as int / 2) + ua as int % 2);
        assert(ub == 2 * (ub as int / 2) + ub as int % 2);
    }
    let um: u64 = qa + qb + pr;
    proof {
        let ai = a as int;
        let bi = b as int;
        let h = 0x8000_0000_0000_0000int;
        assert(ua as int == ai + h);
        assert(ub as int == bi + h);
        lemma_floor_avg(ua as int, ub as int);
        assert(pr as int == (ua as int % 2) * (ub as int % 2));
        assert(um as int == (ai + h + bi + h) / 2);
        lemma_div_shift_even(ai + bi, h);
    }
    ((um as i128) - 0x8000_0000_0000_0000_i128) as i64
}

/// `(x + y) / 2 == x / 2 + y / 2 + (x % 2) * (y % 2)` for nonnegative values.
proof fn lemma_floor_avg(x: int, y: int)
    requires
        0 <= x,
        0 <= y,
    ensures
        (x + y) / 2 == x / 2 + y / 2 + (x % 2) * (y % 2),
{
    assert(x == 2 * (x / 2) + x % 2);
    assert(y == 2 * (y / 2) + y % 2);
    assert(0 <= x % 2 < 2);
    assert(0 <= y % 2 < 2);
    if x % 2 == 1 && y % 2 == 1 {
        assert((x + y) / 2 == x / 2 + y / 2 + 1) by (nonlinear_arith)
            requires x == 2 * (x / 2) + 1 && y == 2 * (y / 2) + 1;
    } else {
        assert((x + y) % 2 == x % 2 + y % 2);
        assert((x + y) / 2 == x / 2 + y / 2) by (nonlinear_arith)
            requires
                x == 2 * (x / 2) + x % 2,
                y == 2 * (y / 2) + y % 2,
                x % 2 + y % 2 < 2,
                0 <= x % 2,
                0 <= y % 2;
    }
}

/// Shifting both operands of a floor division by the even amount `2 * h`
/// shifts the quotient by `h`.
proof fn lemma_div_shift_even(s: int, h: int)
    ensures
        (s + 2 * h) / 2 == s / 2 + h,
{
    assert((s + 2 * h) / 2 == s / 2 + h) by (nonlinear_arith);
}

} // verus!
