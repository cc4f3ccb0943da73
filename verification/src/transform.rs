//! Derivation of the aspect-preserving transform that maps a projected
//! rectangle onto a fixed pixel canvas, and its application to points.

use vstd::prelude::*;

use crate::geom::COORD_LIMIT;
use crate::geom::Coord;
use crate::geom::coord_in_range;
use crate::geom::div_i128;
use crate::geom::div_trunc;
use crate::geom::lemma_div_trunc_cancel;

verus! {

/// The affine transform, kept as the two rectangles it was fitted from:
/// `b0 -> b1` and `c0 -> c1`, axis-aligned, no rotation or shear. Applying
/// it interpolates each axis exactly between those corner pairs.
#[derive(Clone, Copy, PartialEq, Eq, Structural, Debug)]
pub struct Matrix {
    pub b0: Coord,
    pub c0: Coord,
    pub b1: Coord,
    pub c1: Coord,
}

/// The pixel rectangle, as `(ox, oy, w, h)`, that fits a projected box of
/// size `dx` by `dy` into a canvas of `pxf` by `pyf` with one uniform
/// scale, the smaller of the two per-axis scales, centered on the slack
/// axis. Divisions round toward negative infinity; all inputs are
/// positive, so the operands are never negative.
pub open spec fn fit_box(dx: int, dy: int, pxf: int, pyf: int) -> (int, int, int, int) {
    if pxf * dy <= pyf * dx {
        let h = (dy * pxf) / dx;
        (0, (pyf - h) / 2, pxf, h)
    } else {
        let w = (dx * pyf) / dy;
        ((pxf - w) / 2, 0, w, pyf)
    }
}

impl Matrix {
    /// Corners in range and a source rectangle with extent on both axes.
    pub open spec fn wf(&self) -> bool {
        coord_in_range(self.b0) && coord_in_range(self.c0) && coord_in_range(self.b1)
            && coord_in_range(self.c1) && self.c0.x != self.b0.x && self.c0.y != self.b0.y
    }

    /// The horizontal pixel coordinate of a point with abscissa `px`.
    pub open spec fn apply_x(&self, px: int) -> int {
        self.b1.x + div_trunc(
            (px - self.b0.x) * (self.c1.x - self.b1.x),
            self.c0.x - self.b0.x,
        )
    }

    /// The vertical pixel coordinate of a point with ordinate `py`.
    pub open spec fn apply_y(&self, py: int) -> int {
        self.b1.y + div_trunc(
            (py - self.b0.y) * (self.c1.y - self.b1.y),
            self.c0.y - self.b0.y,
        )
    }

    /// Maps one point into pixel space.
    pub fn apply(&self, p: Coord) -> (r: (i128, i128))
        requires
            self.wf(),
            coord_in_range(p),
        ensures
            r.0 == self.apply_x(p.x as int),
            r.1 == self.apply_y(p.y as int),
    {
        proof {
            lemma_product_in_range(
                p.x as int - self.b0.x as int,
                self.c1.x as int - self.b1.x as int,
            );
            lemma_product_in_range(
                p.y as int - self.b0.y as int,
                self.c1.y as int - self.b1.y as int,
            );
        }
        let nx: i128 = (p.x as i128 - self.b0.x as i128) * (self.c1.x as i128
            - self.b1.x as i128);
        let ny: i128 = (p.y as i128 - self.b0.y as i128) * (self.c1.y as i128
            - self.b1.y as i128);
        let qx: i128 = div_i128(nx, self.c0.x as i128 - self.b0.x as i128);
        let qy: i128 = div_i128(ny, self.c0.y as i128 - self.b0.y as i128);
        (self.b1.x as i128 + qx, self.b1.y as i128 + qy)
    }
}

/// The product of two differences of in-range scalars stays well inside
/// `i128`.
proof fn lemma_product_in_range(a: int, b: int)
    requires
        -2 * (COORD_LIMIT as int) <= a <= 2 * (COORD_LIMIT as int),
        -2 * (COORD_LIMIT as int) <= b <= 2 * (COORD_LIMIT as int),
    ensures
        -4951760157141521099596496896 <= a * b <= 4951760157141521099596496896,
{
    assert(-4951760157141521099596496896 <= a * b <= 4951760157141521099596496896)
        by (nonlinear_arith)
        requires
            -70368744177664 <= a <= 70368744177664,
            -70368744177664 <= b <= 70368744177664,
    ;
}

/// Stores the transform fitted between a source rectangle `b0 .. c0` and
/// a pixel rectangle `b1 .. c1`.
pub fn matrix_from_rects(b0: Coord, c0: Coord, b1: Coord, c1: Coord) -> (r: Matrix)
    requires
        c0.x != b0.x,
        c0.y != b0.y,
    ensures
        r == (Matrix { b0, c0, b1, c1 }),
{
    Matrix { b0, c0, b1, c1 }
}

/// Fits the projected rectangle with corners `b0`, `c0` into a canvas of
/// `pxf` by `pyf` pixels: one uniform scale, the smaller of the two
/// per-axis scales, and the image centered on the axis with slack.
pub fn get_transform(b0: Coord, c0: Coord, pxf: i64, pyf: i64) -> (r: Matrix)
    requires
        coord_in_range(b0),
        coord_in_range(c0),
        c0.x != b0.x,
        c0.y != b0.y,
        0 < pxf <= COORD_LIMIT,
        0 < pyf <= COORD_LIMIT,
    ensures
        r.b0 == b0,
        r.c0 == c0,
        r.wf(),
        ({
            let (ox, oy, w, h) = fit_box(
                vstd::math::abs(c0.x - b0.x) as int,
                vstd::math::abs(c0.y - b0.y) as int,
                pxf as int,
                pyf as int,
            );
            r.b1.x == ox && r.b1.y == oy && r.c1.x == ox + w && r.c1.y == oy + h
        }),
        0 <= r.b1.x <= r.c1.x <= pxf,
        0 <= r.b1.y <= r.c1.y <= pyf,
{
    let dx: i128 = if c0.x >= b0.x {
        c0.x as i128 - b0.x as i128
    } else {
        b0.x as i128 - c0.x as i128
    };
    let dy: i128 = if c0.y >= b0.y {
        c0.y as i128 - b0.y as i128
    } else {
        b0.y as i128 - c0.y as i128
    };
    proof {
        lemma_product_in_range(pxf as int, dy as int);
        lemma_product_in_range(pyf as int, dx as int);
        lemma_product_in_range(dy as int, pxf as int);
        lemma_product_in_range(dx as int, pyf as int);
    }
    let lhs: i128 = pxf as i128 * dy;
    let rhs: i128 = pyf as i128 * dx;
    let b1: Coord;
    let c1: Coord;
    if lhs <= rhs {
        let hq: u128 = (dy as u128 * pxf as u128) / (dx as u128);
        proof {
            vstd::arithmetic::mul::lemma_mul_is_commutative(dy as int, pxf as int);
            vstd::arithmetic::mul::lemma_mul_is_commutative(pyf as int, dx as int);
            vstd::arithmetic::div_mod::lemma_div_is_ordered(
                dy as int * pxf as int,
                pyf as int * dx as int,
                dx as int,
            );
            vstd::arithmetic::div_mod::lemma_div_multiples_vanish(pyf as int, dx as int);
            vstd::arithmetic::mul::lemma_mul_is_commutative(dx as int, pyf as int);
            vstd::arithmetic::div_mod::lemma_div_pos_is_pos(dy as int * pxf as int, dx as int);
            assert(hq <= pyf);
        }
        let h: i64 = hq as i64;
        let t: u64 = (pyf - h) as u64;
        let oy: i64 = (t / 2) as i64;
        proof {
            vstd::arithmetic::div_mod::lemma_div_is_ordered(t as int, 2 * (pyf - h), 2);
            vstd::arithmetic::div_mod::lemma_div_multiples_vanish(pyf as int - h as int, 2);
            vstd::arithmetic::div_mod::lemma_div_pos_is_pos(t as int, 2);
        }
        b1 = Coord { x: 0, y: oy };
        c1 = Coord { x: pxf, y: oy + h };
    } else {
        let wq: u128 = (dx as u128 * pyf as u128) / (dy as u128);
        proof {
            vstd::arithmetic::mul::lemma_mul_is_commutative(dx as int, pyf as int);
            vstd::arithmetic::mul::lemma_mul_is_commutative(pxf as int, dy as int);
            vstd::arithmetic::div_mod::lemma_div_is_ordered(
                dx as int * pyf as int,
                pxf as int * dy as int,
                dy as int,
            );
            vstd::arithmetic::div_mod::lemma_div_multiples_vanish(pxf as int, dy as int);
            vstd::arithmetic::mul::lemma_mul_is_commutative(dy as int, pxf as int);
            vstd::arithmetic::div_mod::lemma_div_pos_is_pos(dx as int * pyf as int, dy as int);
            assert(wq <= pxf);
        }
        let w: i64 = wq as i64;
        let t: u64 = (pxf - w) as u64;
        let ox: i64 = (t / 2) as i64;
        proof {
            vstd::arithmetic::div_mod::lemma_div_is_ordered(t as int, 2 * (pxf - w), 2);
            vstd::arithmetic::div_mod::lemma_div_multiples_vanish(pxf as int - w as int, 2);
            vstd::arithmetic::div_mod::lemma_div_pos_is_pos(t as int, 2);
        }
        b1 = Coord { x: ox, y: 0 };
        c1 = Coord { x: ox + w, y: pyf };
    }
    Matrix { b0, c0, b1, c1 }
}

/// The fitted pixel rectangle lies inside the canvas, is centered up to
/// one pixel of rounding slack on each axis, and keeps the source aspect
/// ratio exactly, up to the one rounding step of its integer division.
pub proof fn lemma_fit_centered(dx: int, dy: int, pxf: int, pyf: int)
    requires
        1 <= dx,
        1 <= dy,
        1 <= pxf,
        1 <= pyf,
    ensures
        ({
            let (ox, oy, w, h) = fit_box(dx, dy, pxf, pyf);
            &&& 0 <= ox
            &&& 0 <= oy
            &&& 0 <= h
            &&& 0 <= w
            &&& ox + w <= pxf
            &&& oy + h <= pyf
            &&& 0 <= pxf - (ox + w) - ox <= 1
            &&& 0 <= pyf - (oy + h) - oy <= 1
            &&& (h * dx <= w * dy && w * dy < (h + 1) * dx) || (w * dy <= h * dx && h * dx < (w
                + 1) * dy)
        }),
{
    let (ox, oy, w, h) = fit_box(dx, dy, pxf, pyf);
    if pxf * dy <= pyf * dx {
        assert(h == (dy * pxf) / dx);
        vstd::arithmetic::div_mod::lemma_div_pos_is_pos(dy * pxf, dx);
        vstd::arithmetic::mul::lemma_mul_is_commutative(pxf, dy);
        vstd::arithmetic::mul::lemma_mul_is_commutative(pyf, dx);
        vstd::arithmetic::div_mod::lemma_div_is_ordered(dy * pxf, pyf * dx, dx);
        vstd::arithmetic::div_mod::lemma_div_multiples_vanish(pyf, dx);
        assert(h <= pyf);
        // Centering on the vertical axis.
        let t = pyf - h;
        vstd::arithmetic::div_mod::lemma_fundamental_div_mod(t, 2);
        vstd::arithmetic::div_mod::lemma_mod_bound(t, 2);
        vstd::arithmetic::div_mod::lemma_div_pos_is_pos(t, 2);
        assert(oy == t / 2);
        assert(pyf - (oy + h) - oy == t % 2);
        // Aspect ratio, exact up to one rounding step.
        vstd::arithmetic::div_mod::lemma_fundamental_div_mod(dy * pxf, dx);
        vstd::arithmetic::div_mod::lemma_mod_bound(dy * pxf, dx);
        assert(dy * pxf == dx * h + (dy * pxf) % dx);
        vstd::arithmetic::mul::lemma_mul_is_commutative(h, dx);
        assert(w * dy == dy * pxf);
        assert((h + 1) * dx == dx * h + dx) by (nonlinear_arith);
    } else {
        assert(w == (dx * pyf) / dy);
        vstd::arithmetic::div_mod::lemma_div_pos_is_pos(dx * pyf, dy);
        vstd::arithmetic::mul::lemma_mul_is_commutative(pxf, dy);
        vstd::arithmetic::mul::lemma_mul_is_commutative(pyf, dx);
        vstd::arithmetic::div_mod::lemma_div_is_ordered(dx * pyf, pxf * dy, dy);
        vstd::arithmetic::div_mod::lemma_div_multiples_vanish(pxf, dy);
        assert(w <= pxf);
        let t = pxf - w;
        vstd::arithmetic::div_mod::lemma_fundamental_div_mod(t, 2);
        vstd::arithmetic::div_mod::lemma_mod_bound(t, 2);
        vstd::arithmetic::div_mod::lemma_div_pos_is_pos(t, 2);
        assert(ox == t / 2);
        assert(pxf - (ox + w) - ox == t % 2);
        vstd::arithmetic::div_mod::lemma_fundamental_div_mod(dx * pyf, dy);
        vstd::arithmetic::div_mod::lemma_mod_bound(dx * pyf, dy);
        assert(dx * pyf == dy * w + (dx * pyf) % dy);
        vstd::arithmetic::mul::lemma_mul_is_commutative(w, dy);
        assert(h * dx == dx * pyf);
        assert((w + 1) * dy == dy * w + dy) by (nonlinear_arith);
    }
}

/// The fitted transform maps the source corners exactly onto the pixel
/// corners: `b0` to `b1` and `c0` to `c1`, with no rounding error.
pub proof fn lemma_apply_corners(m: Matrix)
    requires
        m.wf(),
    ensures
        m.apply_x(m.b0.x as int) == m.b1.x,
        m.apply_y(m.b0.y as int) == m.b1.y,
        m.apply_x(m.c0.x as int) == m.c1.x,
        m.apply_y(m.c0.y as int) == m.c1.y,
{
    assert(div_trunc(0, m.c0.x - m.b0.x) == 0);
    assert(div_trunc(0, m.c0.y - m.b0.y) == 0);
    lemma_div_trunc_cancel(m.c0.x - m.b0.x, m.c1.x - m.b1.x);
    lemma_div_trunc_cancel(m.c0.y - m.b0.y, m.c1.y - m.b1.y);
}

} // verus!
