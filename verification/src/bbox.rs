//! Axis-aligned bounding boxes with an explicit empty state, conversion of
//! degree measures to radians, and the open-interval edge sampler.

use vstd::prelude::*;

use crate::geom::Coord;
use crate::geom::div_trunc;
use crate::geom::lemma_div_trunc_ordered;

verus! {

/// Numerator of the fixed-point quotient approximating pi / 180.
pub const RAD_NUM: u128 = 17453292519943295;

/// Denominator of the fixed-point quotient approximating pi / 180.
pub const RAD_DEN: u128 = 1000000000000000000;

/// A degree measure scaled into radians: multiplied by the library's
/// fixed-point quotient for pi / 180, rounded toward zero.
pub open spec fn rad_of(v: int) -> int {
    div_trunc(v * RAD_NUM as int, RAD_DEN as int)
}

/// Scaling to radians keeps order.
pub proof fn lemma_rad_mono(a: int, b: int)
    requires
        a <= b,
    ensures
        rad_of(a) <= rad_of(b),
{
    lemma_div_trunc_ordered(a * RAD_NUM as int, b * RAD_NUM as int, RAD_DEN as int);
}

/// One scalar scaled from degrees to radians.
pub fn scale_to_rad(v: i64) -> (r: i64)
    ensures
        r == rad_of(v as int),
        vstd::math::abs(r as int) <= vstd::math::abs(v as int),
{
    let vi: i128 = v as i128;
    let mag: u128 = if vi < 0 {
        (-vi) as u128
    } else {
        vi as u128
    };
    let q: u128 = (mag * RAD_NUM) / RAD_DEN;
    proof {
        assert(mag == vstd::math::abs(v as int));
        vstd::arithmetic::div_mod::lemma_div_is_ordered(
            mag as int * RAD_NUM as int,
            mag as int * RAD_DEN as int,
            RAD_DEN as int,
        );
        vstd::arithmetic::div_mod::lemma_div_multiples_vanish(mag as int, RAD_DEN as int);
        assert(mag as int * RAD_DEN as int == RAD_DEN as int * mag as int);
        assert(q <= mag);
        vstd::arithmetic::div_mod::lemma_div_pos_is_pos(mag as int * RAD_NUM as int, RAD_DEN as int);
        assert(vstd::math::abs(v as int * RAD_NUM as int) == mag as int * RAD_NUM as int);
    }
    let r128: i128 = if vi < 0 {
        -(q as i128)
    } else {
        q as i128
    };
    r128 as i64
}

/// A mutable axis-aligned bounding box with an explicit empty state.
/// When not empty, `min` is componentwise at most `max`.
#[derive(Clone, Copy, PartialEq, Eq, Structural, Debug)]
pub struct Bbox {
    pub min: Coord,
    pub max: Coord,
    pub empty: bool,
}

/// The smaller of two scalars.
pub open spec fn min64(a: i64, b: i64) -> i64 {
    if a <= b {
        a
    } else {
        b
    }
}

/// The larger of two scalars.
pub open spec fn max64(a: i64, b: i64) -> i64 {
    if a <= b {
        b
    } else {
        a
    }
}

impl Bbox {
    /// A non-empty box never has `min` above `max` on either axis.
    pub open spec fn wf(&self) -> bool {
        !self.empty ==> self.min.x <= self.max.x && self.min.y <= self.max.y
    }

    /// The box `new` builds: the two corners normalized componentwise.
    pub open spec fn normalized(x0: i64, y0: i64, x1: i64, y1: i64) -> Bbox {
        Bbox {
            empty: false,
            min: Coord { x: min64(x0, x1), y: min64(y0, y1) },
            max: Coord { x: max64(x0, x1), y: max64(y0, y1) },
        }
    }

    /// The box after one point is folded in.
    pub open spec fn with_point(self, c: Coord) -> Bbox {
        if self.empty {
            Bbox { empty: false, min: c, max: c }
        } else {
            Bbox {
                empty: false,
                min: Coord { x: min64(self.min.x, c.x), y: min64(self.min.y, c.y) },
                max: Coord { x: max64(self.max.x, c.x), y: max64(self.max.y, c.y) },
            }
        }
    }

    /// The empty box.
    pub open spec fn empty_box() -> Bbox {
        Bbox { empty: true, min: Coord { x: 0, y: 0 }, max: Coord { x: 0, y: 0 } }
    }

    pub fn new(x0: i64, y0: i64, x1: i64, y1: i64) -> (r: Bbox)
        ensures
            r == Self::normalized(x0, y0, x1, y1),
            r.wf(),
    {
        Bbox {
            empty: false,
            min: Coord {
                x: if x0 <= x1 {
                    x0
                } else {
                    x1
                },
                y: if y0 <= y1 {
                    y0
                } else {
                    y1
                },
            },
            max: Coord {
                x: if x0 <= x1 {
                    x1
                } else {
                    x0
                },
                y: if y0 <= y1 {
                    y1
                } else {
                    y0
                },
            },
        }
    }

    pub fn empty() -> (r: Bbox)
        ensures
            r == Self::empty_box(),
            r.wf(),
    {
        Bbox { empty: true, min: Coord { x: 0, y: 0 }, max: Coord { x: 0, y: 0 } }
    }

    pub fn is_empty(&self) -> (r: bool)
        ensures
            r == self.empty,
    {
        self.empty
    }

    /// Folds one point in: a first point becomes both corners; afterwards
    /// each corner moves componentwise just far enough to cover the point.
    pub fn add_point(&mut self, coord: Coord)
        ensures
            *final(self) == old(self).with_point(coord),
    {
        if self.empty {
            self.min = coord;
            self.max = coord;
            self.empty = false;
        } else {
            self.min.x = if self.min.x <= coord.x {
                self.min.x
            } else {
                coord.x
            };
            self.min.y = if self.min.y <= coord.y {
                self.min.y
            } else {
                coord.y
            };
            self.max.x = if self.max.x <= coord.x {
                coord.x
            } else {
                self.max.x
            };
            self.max.y = if self.max.y <= coord.y {
                coord.y
            } else {
                self.max.y
            };
        }
    }

    /// Scales all four bounds from degrees to radians. Meaningless on an
    /// empty box, so callers check `is_empty` first.
    pub fn to_rad(&self) -> (r: Bbox)
        requires
            !self.empty,
        ensures
            !r.empty,
            r.min.x == rad_of(self.min.x as int),
            r.min.y == rad_of(self.min.y as int),
            r.max.x == rad_of(self.max.x as int),
            r.max.y == rad_of(self.max.y as int),
            self.wf() ==> r.wf(),
    {
        proof {
            if self.wf() {
                lemma_rad_mono(self.min.x as int, self.max.x as int);
                lemma_rad_mono(self.min.y as int, self.max.y as int);
            }
        }
        Bbox {
            empty: false,
            min: Coord { x: scale_to_rad(self.min.x), y: scale_to_rad(self.min.y) },
            max: Coord { x: scale_to_rad(self.max.x), y: scale_to_rad(self.max.y) },
        }
    }

    /// Whether two boxes share at least one point; empty boxes meet nothing.
    pub fn intersects(&self, other: &Bbox) -> (r: bool)
        ensures
            r == (!self.empty && !other.empty && self.min.x <= other.max.x && other.min.x
                <= self.max.x && self.min.y <= other.max.y && other.min.y <= self.max.y),
    {
        !self.empty && !other.empty && self.min.x <= other.max.x && other.min.x <= self.max.x
            && self.min.y <= other.max.y && other.min.y <= self.max.y
    }
}

/// The box left by folding every point of `s`, in order, into an empty box.
pub open spec fn folded(s: Seq<Coord>) -> Bbox
    decreases s.len(),
{
    if s.len() == 0 {
        Bbox::empty_box()
    } else {
        folded(s.drop_last()).with_point(s.last())
    }
}

/// Folding any non-empty point sequence yields the componentwise minima
/// and maxima of the sequence, and a box that is no longer empty.
pub proof fn lemma_folded_bounds(s: Seq<Coord>)
    requires
        s.len() >= 1,
    ensures
        !folded(s).empty,
        forall|i: int|
            0 <= i < s.len() ==> folded(s).min.x <= (#[trigger] s[i]).x && folded(s).min.y
                <= s[i].y && s[i].x <= folded(s).max.x && s[i].y <= folded(s).max.y,
        exists|i: int| 0 <= i < s.len() && (#[trigger] s[i]).x == folded(s).min.x,
        exists|i: int| 0 <= i < s.len() && (#[trigger] s[i]).y == folded(s).min.y,
        exists|i: int| 0 <= i < s.len() && (#[trigger] s[i]).x == folded(s).max.x,
        exists|i: int| 0 <= i < s.len() && (#[trigger] s[i]).y == folded(s).max.y,
    decreases s.len(),
{
    if s.len() == 1 {
        assert(folded(s) == folded(s.drop_last()).with_point(s.last()));
        assert(s[0] == s.last());
    } else {
        let t = s.drop_last();
        lemma_folded_bounds(t);
        assert(forall|i: int| 0 <= i < t.len() ==> t[i] == s[i]);
        let b = folded(t);
        let f = folded(s);
        assert(f == b.with_point(s.last()));
        if b.min.x <= s.last().x {
            let w = choose|i: int| 0 <= i < t.len() && (#[trigger] t[i]).x == b.min.x;
            assert(0 <= w < s.len() && s[w].x == f.min.x);
        } else {
            assert(s[s.len() - 1].x == f.min.x);
        }
        if b.min.y <= s.last().y {
            let w = choose|i: int| 0 <= i < t.len() && (#[trigger] t[i]).y == b.min.y;
            assert(0 <= w < s.len() && s[w].y == f.min.y);
        } else {
            assert(s[s.len() - 1].y == f.min.y);
        }
        if s.last().x <= b.max.x {
            let w = choose|i: int| 0 <= i < t.len() && (#[trigger] t[i]).x == b.max.x;
            assert(0 <= w < s.len() && s[w].x == f.max.x);
        } else {
            assert(s[s.len() - 1].x == f.max.x);
        }
        if s.last().y <= b.max.y {
            let w = choose|i: int| 0 <= i < t.len() && (#[trigger] t[i]).y == b.max.y;
            assert(0 <= w < s.len() && s[w].y == f.max.y);
        } else {
            assert(s[s.len() - 1].y == f.max.y);
        }
    }
}

/// The two corner orders given to `new` describe the same box.
pub proof fn lemma_new_order_independent(x0: i64, y0: i64, x1: i64, y1: i64)
    ensures
        Bbox::normalized(x0, y0, x1, y1) == Bbox::normalized(x1, y1, x0, y0),
{
}

/// Evenly spaced scalars over an open interval: after `new(min, max, step)`
/// each `next` yields the previous value plus `step`, while that stays
/// strictly below `max`; neither endpoint is ever yielded.
pub struct LineIter {
    pub curr: i64,
    pub end: i64,
    pub step: i64,
}

impl LineIter {
    pub fn new(min: i64, max: i64, step: i64) -> (r: LineIter)
        ensures
            r.curr == min,
            r.end == max,
            r.step == step,
    {
        LineIter { curr: min, end: max, step }
    }

    pub fn next(&mut self) -> (r: Option<i64>)
        ensures
            match r {
                Some(v) => old(self).step > 0 && old(self).curr + old(self).step < old(self).end
                    && v == old(self).curr + old(self).step && final(self).curr == v
                    && final(self).end == old(self).end && final(self).step == old(self).step,
                None => (old(self).step <= 0 || old(self).curr + old(self).step >= old(self).end)
                    && *final(self) == *old(self),
            },
    {
        if self.step <= 0 {
            return None;
        }
        let nxt: i128 = self.curr as i128 + self.step as i128;
        if nxt < self.end as i128 {
            self.curr = nxt as i64;
            Some(self.curr)
        } else {
            None
        }
    }
}

/// How many samples the edge sampler yields over `(min, max)` with `step`.
pub open spec fn sample_count(min: int, max: int, step: int) -> nat
    decreases max - min,
{
    if step <= 0 || min + step >= max {
        0
    } else {
        1 + sample_count(min + step, max, step)
    }
}

/// All samples of the edge sampler, collected in order. The result is
/// `min + step, min + 2 * step, ...`, strictly increasing, every value
/// strictly inside `(min, max)`, and empty exactly when `step <= 0` or
/// the first candidate already reaches `max`.
pub fn line_samples(min: i64, max: i64, step: i64) -> (r: Vec<i64>)
    ensures
        r@.len() == sample_count(min as int, max as int, step as int),
        forall|i: int| 0 <= i < r@.len() ==> #[trigger] r@[i] == min + (i + 1) * step,
        forall|i: int| 0 <= i < r@.len() ==> min < #[trigger] r@[i] < max,
        forall|i: int| 0 <= i < r@.len() - 1 ==> #[trigger] r@[i] < r@[i + 1],
        step > 0 ==> min + (r@.len() + 1) * step >= max,
        (r@.len() == 0) <==> (step <= 0 || min + step >= max),
{
    let mut out: Vec<i64> = Vec::new();
    if step <= 0 {
        return out;
    }
    let first: i128 = min as i128 + step as i128;
    if first >= max as i128 {
        proof {
            assert(1 * step == step);
        }
        return out;
    }
    let mut it = LineIter::new(min, max, step);
    loop
        invariant
            it.step == step,
            it.end == max,
            step > 0,
            min + step < max,
            it.curr as int == min + out@.len() * step,
            forall|i: int| 0 <= i < out@.len() ==> #[trigger] out@[i] == min + (i + 1) * step,
            out@.len() == 0 ==> it.curr == min,
            out@.len() > 0 ==> it.curr < max,
            out@.len() + sample_count(it.curr as int, max as int, step as int) == sample_count(
                min as int,
                max as int,
                step as int,
            ),
        ensures
            it.step == step,
            it.end == max,
            it.curr as int == min + out@.len() * step,
            forall|i: int| 0 <= i < out@.len() ==> #[trigger] out@[i] == min + (i + 1) * step,
            out@.len() == 0 ==> it.curr == min,
            out@.len() > 0 ==> it.curr < max,
            out@.len() + sample_count(it.curr as int, max as int, step as int) == sample_count(
                min as int,
                max as int,
                step as int,
            ),
            it.curr + step >= max,
        decreases max - it.curr,
    {
        match it.next() {
            Some(v) => {
                proof {
                    let n = out@.len() as int;
                    assert((n + 1) * step == n * step + step) by (nonlinear_arith);
                }
                out.push(v);
            },
            None => {
                break ;
            },
        }
    }
    proof {
        let n = out@.len() as int;
        assert((n + 1) * step == n * step + step) by (nonlinear_arith);
        assert forall|i: int| 0 <= i < n implies min < #[trigger] out@[i] < max by {
            assert((i + 1) * step > 0) by (nonlinear_arith)
                requires
                    i >= 0,
                    step > 0,
            ;
            assert((i + 1) * step <= n * step) by (nonlinear_arith)
                requires
                    i + 1 <= n,
                    step > 0,
            ;
        }
        assert forall|i: int| 0 <= i < n - 1 implies #[trigger] out@[i] < out@[i + 1] by {
            assert((i + 2) * step == (i + 1) * step + step) by (nonlinear_arith);
        }
    }
    out
}

} // verus!
