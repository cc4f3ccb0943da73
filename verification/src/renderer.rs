//! Per-layer orchestration: edge sampling of the geographic window,
//! accumulation of the projected extent, the fit of the canvas transform,
//! and composition of the drawing commands of a whole render pass.
//!
//! Reprojection itself is an outside collaborator that may fail per
//! point, so each stage here takes the projection's answers as plain
//! values: a verified function on every possible outcome.

use vstd::prelude::*;

use crate::bbox::Bbox;
use crate::bbox::folded;
use crate::bbox::line_samples;
use crate::bbox::sample_count;
use crate::geom::COORD_LIMIT;
use crate::geom::Coord;
use crate::geom::coord_in_range;
use crate::symbolizers::Cmd;
use crate::symbolizers::Rgba;
use crate::symbolizers::parse_color;
use crate::symbolizers::parsed_color;
use crate::symbolizers::somes;
use crate::transform::Matrix;
use crate::transform::fit_box;
use crate::transform::get_transform;

verus! {

/// Why one layer could not be drawn. Either error is reported and skips
/// that layer alone; other layers continue.
#[derive(Clone, Copy, PartialEq, Eq, Structural, Debug)]
pub enum LayerError {
    /// No edge sample reprojected successfully, so the projected extent
    /// stayed empty and there is nothing to fit the canvas to.
    EmptyExtent,
    /// The projected extent has zero width or zero height; fitting it
    /// would divide by zero.
    DegenerateExtent,
}

/// The points to reproject when estimating the projected image of the
/// window `b`: for each sample abscissa, one point on the bottom and one
/// on the top edge; then for each sample ordinate, one point on the left
/// and one on the right edge.
pub fn layer_sample_points(b: &Bbox, step: i64) -> (r: Vec<Coord>)
    requires
        !b.empty,
    ensures
        ({
            let nx = sample_count(b.min.x as int, b.max.x as int, step as int);
            let ny = sample_count(b.min.y as int, b.max.y as int, step as int);
            &&& r@.len() == 2 * nx + 2 * ny
            &&& forall|i: int|
                0 <= i < 2 * nx ==> (#[trigger] r@[i]).x == b.min.x + (i / 2 + 1) * step && r@[i].y
                    == (if i % 2 == 0 {
                    b.min.y
                } else {
                    b.max.y
                })
            &&& forall|i: int|
                2 * nx <= i < r@.len() ==> (#[trigger] r@[i]).y == b.min.y + ((i - 2 * nx) / 2 + 1)
                    * step && r@[i].x == (if (i - 2 * nx) % 2 == 0 {
                    b.min.x
                } else {
                    b.max.x
                })
        }),
{
    let xs = line_samples(b.min.x, b.max.x, step);
    let ys = line_samples(b.min.y, b.max.y, step);
    let ghost nx = sample_count(b.min.x as int, b.max.x as int, step as int);
    let mut r: Vec<Coord> = Vec::new();
    let mut t: usize = 0;
    while t < xs.len()
        invariant
            xs@.len() == nx,
            forall|q: int| 0 <= q < xs@.len() ==> #[trigger] xs@[q] == b.min.x + (q + 1) * step,
            t <= xs@.len(),
            r@.len() == 2 * t,
            forall|i: int|
                0 <= i < 2 * t ==> (#[trigger] r@[i]).x == b.min.x + (i / 2 + 1) * step && r@[i].y
                    == (if i % 2 == 0 {
                    b.min.y
                } else {
                    b.max.y
                }),
        decreases xs@.len() - t,
    {
        let x = xs[t];
        r.push(Coord { x, y: b.min.y });
        r.push(Coord { x, y: b.max.y });
        proof {
            assert((2 * t as int) / 2 == t as int);
            assert((2 * t as int + 1) / 2 == t as int);
        }
        t += 1;
    }
    let mut u: usize = 0;
    while u < ys.len()
        invariant
            xs@.len() == nx,
            u <= ys@.len(),
            forall|q: int| 0 <= q < ys@.len() ==> #[trigger] ys@[q] == b.min.y + (q + 1) * step,
            r@.len() == 2 * nx + 2 * u,
            forall|i: int|
                0 <= i < 2 * nx ==> (#[trigger] r@[i]).x == b.min.x + (i / 2 + 1) * step && r@[i].y
                    == (if i % 2 == 0 {
                    b.min.y
                } else {
                    b.max.y
                }),
            forall|i: int|
                2 * nx <= i < r@.len() ==> (#[trigger] r@[i]).y == b.min.y + ((i - 2 * nx) / 2 + 1)
                    * step && r@[i].x == (if (i - 2 * nx) % 2 == 0 {
                    b.min.x
                } else {
                    b.max.x
                }),
        decreases ys@.len() - u,
    {
        let y = ys[u];
        r.push(Coord { x: b.min.x, y });
        r.push(Coord { x: b.max.x, y });
        proof {
            assert((2 * u as int) / 2 == u as int);
            assert((2 * u as int + 1) / 2 == u as int);
        }
        u += 1;
    }
    r
}

/// The bounding box of the sample points that reprojected successfully.
pub open spec fn projected_extent(s: Seq<Option<Coord>>) -> Bbox {
    folded(somes(s))
}

/// Accumulates the projected extent: every successful reprojection is
/// folded into the box, every failed one is skipped; the box stays empty
/// exactly when no sample succeeded.
pub fn extent_from_projected(pts: &Vec<Option<Coord>>) -> (r: Bbox)
    ensures
        r == projected_extent(pts@),
        r.empty <==> somes(pts@).len() == 0,
{
    proof {
        if somes(pts@).len() >= 1 {
            crate::bbox::lemma_folded_bounds(somes(pts@));
        }
    }
    let mut bb = Bbox::empty();
    let mut i: usize = 0;
    while i < pts.len()
        invariant
            i <= pts@.len(),
            bb == projected_extent(pts@.take(i as int)),
        decreases pts@.len() - i,
    {
        let ghost cs = somes(pts@.take(i as int));
        match pts[i] {
            Some(c) => {
                bb.add_point(c);
                proof {
                    assert(pts@.take(i as int + 1).drop_last() =~= pts@.take(i as int));
                    assert(somes(pts@.take(i as int + 1)) == cs.push(c));
                    assert(cs.push(c).drop_last() =~= cs);
                    assert(folded(cs.push(c)) == folded(cs).with_point(c));
                }
            },
            None => {
                proof {
                    assert(pts@.take(i as int + 1).drop_last() =~= pts@.take(i as int));
                    assert(somes(pts@.take(i as int + 1)) == cs);
                }
            },
        }
        i += 1;
    }
    proof {
        assert(pts@.take(pts@.len() as int) =~= pts@);
    }
    bb
}

/// Fits the canvas transform for one layer from its projected extent.
/// An empty extent and a degenerate one are the two layer-fatal errors;
/// otherwise the transform maps the extent's top-left corner toward the
/// pixel origin, flipping the vertical axis.
pub fn layer_transform(bb: &Bbox, pxf: i64, pyf: i64) -> (r: Result<Matrix, LayerError>)
    requires
        coord_in_range(bb.min),
        coord_in_range(bb.max),
        0 < pxf <= COORD_LIMIT,
        0 < pyf <= COORD_LIMIT,
    ensures
        bb.empty ==> r == Err::<Matrix, LayerError>(LayerError::EmptyExtent),
        !bb.empty && (bb.min.x == bb.max.x || bb.min.y == bb.max.y) ==> r == Err::<
            Matrix,
            LayerError,
        >(LayerError::DegenerateExtent),
        !bb.empty && bb.min.x != bb.max.x && bb.min.y != bb.max.y ==> (r matches Ok(m) && m.b0 == (
        Coord { x: bb.min.x, y: bb.max.y }) && m.c0 == (Coord { x: bb.max.x, y: bb.min.y })
            && m.wf() && 0 <= m.b1.x <= m.c1.x <= pxf && 0 <= m.b1.y <= m.c1.y <= pyf && ({
            let (ox, oy, w, h) = fit_box(
                vstd::math::abs(bb.max.x - bb.min.x) as int,
                vstd::math::abs(bb.min.y - bb.max.y) as int,
                pxf as int,
                pyf as int,
            );
            m.b1.x == ox && m.b1.y == oy && m.c1.x == ox + w && m.c1.y == oy + h
        })),
{
    if bb.is_empty() {
        return Err(LayerError::EmptyExtent);
    }
    if bb.min.x == bb.max.x || bb.min.y == bb.max.y {
        return Err(LayerError::DegenerateExtent);
    }
    Ok(
        get_transform(
            Coord { x: bb.min.x, y: bb.max.y },
            Coord { x: bb.max.x, y: bb.min.y },
            pxf,
            pyf,
        ),
    )
}

/// The optional background of a render pass: the fixed background color,
/// painted over the whole canvas, or nothing if that text parsed to no
/// concrete color.
pub open spec fn background_cmds() -> Seq<Cmd> {
    match parsed_color("rgb(211,153,110)"@) {
        Some(q) => seq![
            Cmd::SetColor { color: (Rgba { red: q.0, green: q.1, blue: q.2, alpha: q.3 }) },
            Cmd::Paint,
        ],
        None => Seq::empty(),
    }
}

/// Emits the background of a render pass.
pub fn background_commands() -> (r: Vec<Cmd>)
    ensures
        r@ == background_cmds(),
{
    let mut r: Vec<Cmd> = Vec::new();
    match parse_color("rgb(211,153,110)") {
        Some(c) => {
            r.push(Cmd::SetColor { color: c });
            r.push(Cmd::Paint);
        },
        None => {},
    }
    proof {
        assert(r@ =~= background_cmds());
    }
    r
}

/// The commands of all layers, in layer order.
pub open spec fn concat_cmds(layers: Seq<Seq<Cmd>>) -> Seq<Cmd>
    decreases layers.len(),
{
    if layers.len() == 0 {
        Seq::empty()
    } else {
        concat_cmds(layers.drop_last()) + layers.last()
    }
}

/// Composes a whole render pass: the background first, then each layer's
/// commands in order — later layers paint over earlier ones, so the
/// order is kept exactly. A pass with no layers is the background alone.
pub fn render_commands(layer_cmds: &Vec<Vec<Cmd>>) -> (r: Vec<Cmd>)
    ensures
        r@ == background_cmds() + concat_cmds(layer_cmds@.map_values(|v: Vec<Cmd>| v@)),
{
    let ghost lv = layer_cmds@.map_values(|v: Vec<Cmd>| v@);
    let mut r = background_commands();
    let mut i: usize = 0;
    while i < layer_cmds.len()
        invariant
            lv == layer_cmds@.map_values(|v: Vec<Cmd>| v@),
            i <= layer_cmds@.len(),
            r@ == background_cmds() + concat_cmds(lv.take(i as int)),
        decreases layer_cmds@.len() - i,
    {
        let layer: &Vec<Cmd> = &layer_cmds[i];
        let mut j: usize = 0;
        while j < layer.len()
            invariant
                lv == layer_cmds@.map_values(|v: Vec<Cmd>| v@),
                i < layer_cmds@.len(),
                layer@ == lv[i as int],
                j <= layer@.len(),
                r@ == background_cmds() + concat_cmds(lv.take(i as int)) + layer@.take(j as int),
            decreases layer@.len() - j,
        {
            let c = layer[j];
            r.push(c);
            proof {
                assert(layer@.take(j as int + 1) =~= layer@.take(j as int).push(layer@[j as int]));
            }
            j += 1;
        }
        proof {
            assert(layer@.take(layer@.len() as int) =~= layer@);
            assert(lv.take(i as int + 1).drop_last() =~= lv.take(i as int));
            assert(lv.take(i as int + 1).last() == layer@);
            assert(concat_cmds(lv.take(i as int + 1)) == concat_cmds(lv.take(i as int)) + layer@);
            assert(r@ =~= background_cmds() + concat_cmds(lv.take(i as int + 1)));
        }
        i += 1;
    }
    proof {
        assert(lv.take(layer_cmds@.len() as int) =~= lv);
    }
    r
}

} // verus!
