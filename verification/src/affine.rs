//! Integer 2D affine maps for world-space geometry: composition, point
//! application, and the conservative bounding box of a transformed
//! rectangle. All arithmetic is carried out exactly in 128 bits and clamped
//! into the coordinate range, so every operation is total.

use vstd::prelude::*;

use crate::geom::{max_i64, min_i64, Aabb2D};

verus! {

/// A 2D affine map `(x, y) -> (xx*x + xy*y + tx, yx*x + yy*y + ty)` with
/// integer coefficients.
#[derive(Copy, Clone, Debug, PartialEq, Eq, Structural)]
pub struct Affine2 {
    /// Coefficient of `x` in the output `x`.
    pub xx: i64,
    /// Coefficient of `y` in the output `x`.
    pub xy: i64,
    /// Coefficient of `x` in the output `y`.
    pub yx: i64,
    /// Coefficient of `y` in the output `y`.
    pub yy: i64,
    /// Translation in `x`.
    pub tx: i64,
    /// Translation in `y`.
    pub ty: i64,
}

/// Clamp an exact value into the `i64` range.
pub open spec fn s_clamp(v: int) -> i64 {
    if v > i64::MAX as int {
        i64::MAX
    } else if v < i64::MIN as int {
        i64::MIN
    } else {
        v as i64
    }
}

/// The exact product of two coordinates plus another product and an offset,
/// clamped: `a*b + c*d + e`.
pub open spec fn s_muladd(a: int, b: int, c: int, d: int, e: int) -> i64 {
    s_clamp(a * b + c * d + e)
}

/// Where an affine map sends a point, exactly and then clamped.
pub open spec fn s_apply_x(t: Affine2, x: int, y: int) -> i64 {
    s_muladd(t.xx as int, x, t.xy as int, y, t.tx as int)
}

/// Where an affine map sends a point, exactly and then clamped.
pub open spec fn s_apply_y(t: Affine2, x: int, y: int) -> i64 {
    s_muladd(t.yx as int, x, t.yy as int, y, t.ty as int)
}

/// The composition `a` after `b`, coefficient-wise exact and clamped.
pub open spec fn s_compose(a: Affine2, b: Affine2) -> Affine2 {
    Affine2 {
        xx: s_clamp(a.xx as int * b.xx as int + a.xy as int * b.yx as int),
        xy: s_clamp(a.xx as int * b.xy as int + a.xy as int * b.yy as int),
        yx: s_clamp(a.yx as int * b.xx as int + a.yy as int * b.yx as int),
        yy: s_clamp(a.yx as int * b.xy as int + a.yy as int * b.yy as int),
        tx: s_clamp(a.xx as int * b.tx as int + a.xy as int * b.ty as int + a.tx as int),
        ty: s_clamp(a.yx as int * b.tx as int + a.yy as int * b.ty as int + a.ty as int),
    }
}

/// The bounding box of the four transformed corners of a rectangle.
pub open spec fn s_transform_bbox(t: Affine2, r: Aabb2D) -> Aabb2D {
    let x0 = s_apply_x(t, r.min_x as int, r.min_y as int) as int;
    let x1 = s_apply_x(t, r.max_x as int, r.min_y as int) as int;
    let x2 = s_apply_x(t, r.min_x as int, r.max_y as int) as int;
    let x3 = s_apply_x(t, r.max_x as int, r.max_y as int) as int;
    let y0 = s_apply_y(t, r.min_x as int, r.min_y as int) as int;
    let y1 = s_apply_y(t, r.max_x as int, r.min_y as int) as int;
    let y2 = s_apply_y(t, r.min_x as int, r.max_y as int) as int;
    let y3 = s_apply_y(t, r.max_x as int, r.max_y as int) as int;
    Aabb2D {
        min_x: s_min4(x0, x1, x2, x3),
        min_y: s_min4(y0, y1, y2, y3),
        max_x: s_max4(x0, x1, x2, x3),
        max_y: s_max4(y0, y1, y2, y3),
    }
}

/// The least of four values.
pub open spec fn s_min4(a: int, b: int, c: int, d: int) -> i64 {
    let ab = if a <= b { a } else { b };
    let cd = if c <= d { c } else { d };
    (if ab <= cd { ab } else { cd }) as i64
}

/// The greatest of four values.
pub open spec fn s_max4(a: int, b: int, c: int, d: int) -> i64 {
    let ab = if a >= b { a } else { b };
    let cd = if c >= d { c } else { d };
    (if ab >= cd { ab } else { cd }) as i64
}

/// Clamp an exact 128-bit value into the coordinate range.
fn clamp128(v: i128) -> (r: i64)
    ensures
        r == s_clamp(v as int),
{
    if v > i64::MAX as i128 {
        i64::MAX
    } else if v < i64::MIN as i128 {
        i64::MIN
    } else {
        v as i64
    }
}

/// `a*b + c*d + e` exactly, then clamped. The products of two coordinates
/// and their sum always fit in 128 bits.
fn muladd(a: i64, b: i64, c: i64, d: i64, e: i64) -> (r: i64)
    ensures
        r == s_muladd(a as int, b as int, c as int, d as int, e as int),
{
    proof {
        lemma_mul_bounds(a as int, b as int);
        lemma_mul_bounds(c as int, d as int);
    }
    let p1 = (a as i128) * (b as i128);
    let p2 = (c as i128) * (d as i128);
    // the exact value can exceed 128 bits only far outside the clamp range
    if p1 >= 0 && p2 > i128::MAX - p1 {
        proof {
            assert(p1 + p2 + e > i64::MAX as int);
        }
        i64::MAX
    } else if p1 < 0 && p2 < i128::MIN - p1 {
        proof {
            assert(p1 + p2 + e < i64::MIN as int);
        }
        i64::MIN
    } else {
        let s = p1 + p2;
        if e >= 0 && s > i128::MAX - (e as i128) {
            proof {
                assert(s + e > i64::MAX as int);
            }
            i64::MAX
        } else if e < 0 && s < i128::MIN - (e as i128) {
            proof {
                assert(s + e < i64::MIN as int);
            }
            i64::MIN
        } else {
            clamp128(s + (e as i128))
        }
    }
}

/// The product of two coordinates is bounded well within 128 bits.
proof fn lemma_mul_bounds(a: int, b: int)
    requires
        i64::MIN <= a <= i64::MAX,
        i64::MIN <= b <= i64::MAX,
    ensures
        -(0x8000_0000_0000_0000 * 0x8000_0000_0000_0000) <= a * b <= 0x8000_0000_0000_0000
            * 0x8000_0000_0000_0000,
{
    assert(-(0x8000_0000_0000_0000 * 0x8000_0000_0000_0000) <= a * b <= 0x8000_0000_0000_0000
        * 0x8000_0000_0000_0000) by (nonlinear_arith)
        requires
            -0x8000_0000_0000_0000 <= a <= 0x7fff_ffff_ffff_ffff,
            -0x8000_0000_0000_0000 <= b <= 0x7fff_ffff_ffff_ffff;
}

impl Affine2 {
    /// The identity map.
    pub fn identity() -> (r: Self)
        ensures
            r == (Affine2 { xx: 1, xy: 0, yx: 0, yy: 1, tx: 0, ty: 0 }),
    {
        Affine2 { xx: 1, xy: 0, yx: 0, yy: 1, tx: 0, ty: 0 }
    }

    /// A pure translation.
    pub fn translate(dx: i64, dy: i64) -> (r: Self)
        ensures
            r == (Affine2 { xx: 1, xy: 0, yx: 0, yy: 1, tx: dx, ty: dy }),
    {
        Affine2 { xx: 1, xy: 0, yx: 0, yy: 1, tx: dx, ty: dy }
    }

    /// Compose: `self` after `other`.
    pub fn compose(&self, other: &Affine2) -> (r: Affine2)
        ensures
            r == s_compose(*self, *other),
    {
        Affine2 {
            xx: muladd(self.xx, other.xx, self.xy, other.yx, 0),
            xy: muladd(self.xx, other.xy, self.xy, other.yy, 0),
            yx: muladd(self.yx, other.xx, self.yy, other.yx, 0),
            yy: muladd(self.yx, other.xy, self.yy, other.yy, 0),
            tx: muladd(self.xx, other.tx, self.xy, other.ty, self.tx),
            ty: muladd(self.yx, other.tx, self.yy, other.ty, self.ty),
        }
    }

    /// The conservative bounding box of a transformed rectangle: transform
    /// the four corners and take the component-wise extremes.
    pub fn transform_rect_bbox(&self, r: &Aabb2D) -> (out: Aabb2D)
        ensures
            out == s_transform_bbox(*self, *r),
    {
        let x0 = muladd(self.xx, r.min_x, self.xy, r.min_y, self.tx);
        let x1 = muladd(self.xx, r.max_x, self.xy, r.min_y, self.tx);
        let x2 = muladd(self.xx, r.min_x, self.xy, r.max_y, self.tx);
        let x3 = muladd(self.xx, r.max_x, self.xy, r.max_y, self.tx);
        let y0 = muladd(self.yx, r.min_x, self.yy, r.min_y, self.ty);
        let y1 = muladd(self.yx, r.max_x, self.yy, r.min_y, self.ty);
        let y2 = muladd(self.yx, r.min_x, self.yy, r.max_y, self.ty);
        let y3 = muladd(self.yx, r.max_x, self.yy, r.max_y, self.ty);
        Aabb2D {
            min_x: min_i64(min_i64(x0, x1), min_i64(x2, x3)),
            min_y: min_i64(min_i64(y0, y1), min_i64(y2, y3)),
            max_x: max_i64(max_i64(x0, x1), max_i64(x2, x3)),
            max_y: max_i64(max_i64(y0, y1), max_i64(y2, y3)),
        }
    }
}

} // verus!
