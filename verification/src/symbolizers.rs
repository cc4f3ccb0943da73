//! The polygon symbolizer: turns reprojected polygon rings into drawing
//! commands — one closed subpath per ring, even-odd fill, then stroke —
//! and the even-odd point test those commands are drawn with.

use vstd::prelude::*;

use crate::geom::Coord;
use crate::geom::coord_in_range;
use crate::transform::Matrix;

verus! {

/// A color with 8-bit channels, as the color parser hands it out.
#[derive(Clone, Copy, PartialEq, Eq, Structural, Debug)]
pub struct Rgba {
    pub red: u8,
    pub green: u8,
    pub blue: u8,
    pub alpha: u8,
}

/// What the CSS color parser returns for a given text: channels
/// `(red, green, blue, alpha)`, or nothing for `currentcolor` and for
/// text that is no color. The result depends on the text alone.
pub uninterp spec fn parsed_color(s: Seq<char>) -> Option<(u8, u8, u8, u8)>;

/// The parser's answer as this library's color type.
pub open spec fn spec_rgba(t: Option<(u8, u8, u8, u8)>) -> Option<Rgba> {
    match t {
        Some(q) => Some(Rgba { red: q.0, green: q.1, blue: q.2, alpha: q.3 }),
        None => None,
    }
}

/// Parses a CSS color string. Relies on cssparser's `Color::parse`: a
/// deterministic function of the text that yields the 8-bit channels of
/// the color, or `CurrentColor` or an error — both mapped to `None`, as
/// only concrete colors can be drawn with.
#[verifier::external_body]
pub fn parse_color(s: &str) -> (r: Option<Rgba>)
    ensures
        r == spec_rgba(parsed_color(s@)),
{
    let mut input = cssparser::ParserInput::new(s);
    let mut parser = cssparser::Parser::new(&mut input);
    match cssparser::Color::parse(&mut parser) {
        Ok(cssparser::Color::RGBA(c)) => Some(
            Rgba { red: c.red, green: c.green, blue: c.blue, alpha: c.alpha },
        ),
        Ok(cssparser::Color::CurrentColor) => None,
        Err(_) => None,
    }
}

/// One immediate-mode drawing command, in pixel coordinates.
#[derive(Clone, Copy, PartialEq, Eq, Structural, Debug)]
pub enum Cmd {
    SetColor { color: Rgba },
    Paint,
    MoveTo { x: i128, y: i128 },
    LineTo { x: i128, y: i128 },
    ClosePath,
    SetFillRuleEvenOdd,
    Fill,
    Stroke,
}

/// The vertices of a ring that reprojected successfully, in order.
pub open spec fn somes(s: Seq<Option<Coord>>) -> Seq<Coord>
    decreases s.len(),
{
    if s.len() == 0 {
        Seq::empty()
    } else {
        match s.last() {
            Some(c) => somes(s.drop_last()).push(c),
            None => somes(s.drop_last()),
        }
    }
}

/// A set-color command for a parsed color, or nothing when the text
/// parsed to no concrete color.
pub open spec fn color_cmd(t: Option<(u8, u8, u8, u8)>) -> Seq<Cmd> {
    match t {
        Some(q) => seq![Cmd::SetColor { color: (Rgba { red: q.0, green: q.1, blue: q.2, alpha: q.3 }) }],
        None => Seq::empty(),
    }
}

/// The unclosed subpath for the vertices `cs` under `m`: move to the
/// first vertex, then a line to each later one.
pub open spec fn open_path(cs: Seq<Coord>, m: Matrix) -> Seq<Cmd> {
    if cs.len() == 0 {
        Seq::empty()
    } else {
        seq![
            Cmd::MoveTo {
                x: m.apply_x(cs[0].x as int) as i128,
                y: m.apply_y(cs[0].y as int) as i128,
            },
        ] + Seq::new(
            (cs.len() - 1) as nat,
            |j: int|
                Cmd::LineTo {
                    x: m.apply_x(cs[j + 1].x as int) as i128,
                    y: m.apply_y(cs[j + 1].y as int) as i128,
                },
        )
    }
}

/// The closed subpath for one ring: its reprojected vertices, closed at
/// the end. A ring with no reprojected vertex contributes nothing.
pub open spec fn ring_path(ring: Seq<Option<Coord>>, m: Matrix) -> Seq<Cmd> {
    let cs = somes(ring);
    if cs.len() == 0 {
        Seq::empty()
    } else {
        open_path(cs, m).push(Cmd::ClosePath)
    }
}

/// The subpaths of all rings, outer ring first, in order.
pub open spec fn rings_path(rings: Seq<Seq<Option<Coord>>>, m: Matrix) -> Seq<Cmd>
    decreases rings.len(),
{
    if rings.len() == 0 {
        Seq::empty()
    } else {
        rings_path(rings.drop_last(), m) + ring_path(rings.last(), m)
    }
}

/// Everything `draw` emits: the fixed fill color, one closed subpath per
/// ring, then an even-odd fill and a stroke over the whole path.
pub open spec fn draw_cmds(rings: Seq<Seq<Option<Coord>>>, m: Matrix) -> Seq<Cmd> {
    color_cmd(parsed_color("#c8cfc8"@)) + rings_path(rings, m) + seq![
        Cmd::SetFillRuleEvenOdd,
        Cmd::Fill,
        Cmd::Stroke,
    ]
}

/// Draws one polygon: an outer ring and zero or more hole rings, each
/// vertex already reprojected where the projection succeeded.
pub struct PolygonSymbolizer {
    pub rings: Vec<Vec<Option<Coord>>>,
}

impl PolygonSymbolizer {
    /// The rings as mathematical sequences, outer ring first.
    pub open spec fn rings_view(&self) -> Seq<Seq<Option<Coord>>> {
        self.rings@.map_values(|r: Vec<Option<Coord>>| r@)
    }

    /// Every reprojected vertex is in range for the transform.
    pub open spec fn rings_ok(&self) -> bool {
        forall|i: int, j: int|
            0 <= i < self.rings@.len() && 0 <= j < self.rings@[i]@.len() ==> match (
            #[trigger] self.rings@[i]@[j]) {
                Some(c) => coord_in_range(c),
                None => true,
            }
    }

    pub fn new(rings: Vec<Vec<Option<Coord>>>) -> (r: PolygonSymbolizer)
        ensures
            r.rings@ == rings@,
    {
        PolygonSymbolizer { rings }
    }

    /// Emits the polygon's drawing commands: fixed fill color, one closed
    /// subpath per ring that kept at least one vertex, even-odd fill,
    /// stroke. Ring order and vertex order are preserved.
    pub fn draw(&self, m: &Matrix) -> (out: Vec<Cmd>)
        requires
            m.wf(),
            self.rings_ok(),
        ensures
            out@ == draw_cmds(self.rings_view(), *m),
            closed_subpath_count(out@) == live_ring_count(self.rings_view()),
            closed_subpaths_of(out@) == pixel_rings(self.rings_view(), *m),
    {
        proof {
            lemma_one_closed_subpath_per_live_ring(self.rings_view(), *m);
            lemma_draw_builds_the_rings(self.rings_view(), *m);
        }
        let mut out: Vec<Cmd> = Vec::new();
        match parse_color("#c8cfc8") {
            Some(c) => {
                out.push(Cmd::SetColor { color: c });
            },
            None => {},
        }
        proof {
            assert(out@ =~= color_cmd(parsed_color("#c8cfc8"@)));
        }
        let ghost prelude = out@;
        let mut i: usize = 0;
        while i < self.rings.len()
            invariant
                m.wf(),
                self.rings_ok(),
                i <= self.rings@.len(),
                prelude == color_cmd(parsed_color("#c8cfc8"@)),
                out@ == prelude + rings_path(self.rings_view().take(i as int), *m),
            decreases self.rings@.len() - i,
        {
            let ring: &Vec<Option<Coord>> = &self.rings[i];
            let ghost base = out@;
            let mut started = false;
            let mut j: usize = 0;
            while j < ring.len()
                invariant
                    m.wf(),
                    self.rings_ok(),
                    i < self.rings@.len(),
                    j <= ring@.len(),
                    ring@ == self.rings@[i as int]@,
                    out@ == base + open_path(somes(ring@.take(j as int)), *m),
                    started == (somes(ring@.take(j as int)).len() > 0),
                decreases ring@.len() - j,
            {
                let ghost cs = somes(ring@.take(j as int));
                match ring[j] {
                    Some(c) => {
                        let (px, py) = m.apply(c);
                        if started {
                            out.push(Cmd::LineTo { x: px, y: py });
                        } else {
                            out.push(Cmd::MoveTo { x: px, y: py });
                            started = true;
                        }
                        proof {
                            assert(ring@.take(j as int + 1).drop_last() =~= ring@.take(j as int));
                            assert(somes(ring@.take(j as int + 1)) == cs.push(c));
                            if cs.len() == 0 {
                                assert(open_path(cs.push(c), *m) =~= seq![
                                    Cmd::MoveTo { x: px, y: py },
                                ]);
                            } else {
                                assert(open_path(cs.push(c), *m) =~= open_path(cs, *m).push(
                                    Cmd::LineTo { x: px, y: py },
                                ));
                            }
                        }
                    },
                    None => {
                        proof {
                            assert(ring@.take(j as int + 1).drop_last() =~= ring@.take(j as int));
                            assert(somes(ring@.take(j as int + 1)) == cs);
                        }
                    },
                }
                j += 1;
            }
            if started {
                out.push(Cmd::ClosePath);
            }
            proof {
                assert(ring@.take(ring@.len() as int) =~= ring@);
                let rv = self.rings_view();
                assert(rv.take(i as int + 1).drop_last() =~= rv.take(i as int));
                assert(rv.take(i as int + 1).last() == ring@);
                assert(rings_path(rv.take(i as int + 1), *m) == rings_path(rv.take(i as int), *m)
                    + ring_path(ring@, *m));
                assert(out@ =~= prelude + rings_path(rv.take(i as int + 1), *m));
            }
            i += 1;
        }
        proof {
            assert(self.rings_view().take(self.rings@.len() as int) =~= self.rings_view());
        }
        out.push(Cmd::SetFillRuleEvenOdd);
        out.push(Cmd::Fill);
        out.push(Cmd::Stroke);
        proof {
            assert(out@ =~= draw_cmds(self.rings_view(), *m));
        }
        out
    }
}

/// How many close-path commands a command sequence holds: the number of
/// closed subpaths it builds.
pub open spec fn closed_subpath_count(cmds: Seq<Cmd>) -> nat
    decreases cmds.len(),
{
    if cmds.len() == 0 {
        0
    } else {
        closed_subpath_count(cmds.drop_last()) + (if cmds.last() == Cmd::ClosePath {
            1nat
        } else {
            0nat
        })
    }
}

/// How many rings kept at least one reprojected vertex.
pub open spec fn live_ring_count(rings: Seq<Seq<Option<Coord>>>) -> nat
    decreases rings.len(),
{
    if rings.len() == 0 {
        0
    } else {
        live_ring_count(rings.drop_last()) + (if somes(rings.last()).len() > 0 {
            1nat
        } else {
            0nat
        })
    }
}

proof fn lemma_close_count_add(a: Seq<Cmd>, b: Seq<Cmd>)
    ensures
        closed_subpath_count(a + b) == closed_subpath_count(a) + closed_subpath_count(b),
    decreases b.len(),
{
    if b.len() == 0 {
        assert(a + b =~= a);
    } else {
        lemma_close_count_add(a, b.drop_last());
        assert((a + b).drop_last() =~= a + b.drop_last());
        assert((a + b).last() == b.last());
    }
}

proof fn lemma_close_count_zero(s: Seq<Cmd>)
    requires
        forall|i: int| 0 <= i < s.len() ==> #[trigger] s[i] != Cmd::ClosePath,
    ensures
        closed_subpath_count(s) == 0,
    decreases s.len(),
{
    if s.len() > 0 {
        lemma_close_count_zero(s.drop_last());
    }
}

proof fn lemma_rings_path_close_count(rings: Seq<Seq<Option<Coord>>>, m: Matrix)
    ensures
        closed_subpath_count(rings_path(rings, m)) == live_ring_count(rings),
    decreases rings.len(),
{
    if rings.len() > 0 {
        lemma_rings_path_close_count(rings.drop_last(), m);
        lemma_close_count_add(rings_path(rings.drop_last(), m), ring_path(rings.last(), m));
        let cs = somes(rings.last());
        if cs.len() > 0 {
            let op = open_path(cs, m);
            assert forall|i: int| 0 <= i < op.len() implies #[trigger] op[i] != Cmd::ClosePath by {
                if i > 0 {
                    assert(op[i] == Cmd::LineTo {
                        x: m.apply_x(cs[i].x as int) as i128,
                        y: m.apply_y(cs[i].y as int) as i128,
                    });
                }
            }
            lemma_close_count_zero(op);
            assert(op.push(Cmd::ClosePath).drop_last() =~= op);
        }
    }
}

/// Law: the symbolizer builds exactly one closed subpath per ring that
/// kept at least one reprojected vertex; rings that kept none contribute
/// no subpath.
pub proof fn lemma_one_closed_subpath_per_live_ring(rings: Seq<Seq<Option<Coord>>>, m: Matrix)
    ensures
        closed_subpath_count(draw_cmds(rings, m)) == live_ring_count(rings),
{
    let pre = color_cmd(parsed_color("#c8cfc8"@));
    assert(forall|i: int| 0 <= i < pre.len() ==> #[trigger] pre[i] != Cmd::ClosePath);
    lemma_close_count_zero(pre);
    lemma_rings_path_close_count(rings, m);
    lemma_close_count_add(pre, rings_path(rings, m));
    let tail = seq![Cmd::SetFillRuleEvenOdd, Cmd::Fill, Cmd::Stroke];
    assert(forall|i: int| 0 <= i < tail.len() ==> #[trigger] tail[i] != Cmd::ClosePath);
    lemma_close_count_zero(tail);
    lemma_close_count_add(pre + rings_path(rings, m), tail);
}

/// The closed subpaths a command sequence builds, read from its `k`-th
/// command on, with `part` the subpath under construction: a move-to
/// starts a fresh subpath, a line-to extends it, and a close-path command
/// closes it; other commands leave the path alone.
pub open spec fn subpaths_from(cmds: Seq<Cmd>, k: int, part: Seq<(i128, i128)>) -> Seq<
    Seq<(i128, i128)>,
>
    decreases cmds.len() - k,
{
    if k < 0 || k >= cmds.len() {
        Seq::empty()
    } else {
        match cmds[k] {
            Cmd::MoveTo { x, y } => subpaths_from(cmds, k + 1, seq![(x, y)]),
            Cmd::LineTo { x, y } => subpaths_from(cmds, k + 1, part.push((x, y))),
            Cmd::ClosePath => seq![part] + subpaths_from(cmds, k + 1, Seq::empty()),
            _ => subpaths_from(cmds, k + 1, part),
        }
    }
}

/// All closed subpaths of a command sequence, in order.
pub open spec fn closed_subpaths_of(cmds: Seq<Cmd>) -> Seq<Seq<(i128, i128)>> {
    subpaths_from(cmds, 0, Seq::empty())
}

/// Collects the closed subpaths of a command sequence, each as its list
/// of pixel vertices.
pub fn closed_subpaths(cmds: &Vec<Cmd>) -> (r: Vec<Vec<(i128, i128)>>)
    ensures
        r@.map_values(|v: Vec<(i128, i128)>| v@) == closed_subpaths_of(cmds@),
{
    let mut done: Vec<Vec<(i128, i128)>> = Vec::new();
    let mut part: Vec<(i128, i128)> = Vec::new();
    let mut k: usize = 0;
    while k < cmds.len()
        invariant
            k <= cmds@.len(),
            done@.map_values(|v: Vec<(i128, i128)>| v@) + subpaths_from(cmds@, k as int, part@)
                == closed_subpaths_of(cmds@),
        decreases cmds@.len() - k,
    {
        let ghost done0 = done@.map_values(|v: Vec<(i128, i128)>| v@);
        let ghost part0 = part@;
        match cmds[k] {
            Cmd::MoveTo { x, y } => {
                part = Vec::new();
                part.push((x, y));
                proof {
                    assert(part@ =~= seq![(x, y)]);
                }
            },
            Cmd::LineTo { x, y } => {
                part.push((x, y));
            },
            Cmd::ClosePath => {
                done.push(part);
                part = Vec::new();
                proof {
                    assert(done@.map_values(|v: Vec<(i128, i128)>| v@) =~= done0.push(part0));
                    assert(part@ =~= Seq::<(i128, i128)>::empty());
                    assert(done0.push(part0) + subpaths_from(cmds@, k as int + 1, part@) =~= done0
                        + (seq![part0] + subpaths_from(cmds@, k as int + 1, part@)));
                }
            },
            _ => {},
        }
        k += 1;
    }
    proof {
        assert(done@.map_values(|v: Vec<(i128, i128)>| v@) + Seq::<Seq<(i128, i128)>>::empty()
            =~= done@.map_values(|v: Vec<(i128, i128)>| v@));
    }
    done
}

/// The pending subpath left after the commands from the `k`-th on are
/// read, starting from the pending subpath `part`.
pub open spec fn part_after(cmds: Seq<Cmd>, k: int, part: Seq<(i128, i128)>) -> Seq<(i128, i128)>
    decreases cmds.len() - k,
{
    if k < 0 || k >= cmds.len() {
        part
    } else {
        match cmds[k] {
            Cmd::MoveTo { x, y } => part_after(cmds, k + 1, seq![(x, y)]),
            Cmd::LineTo { x, y } => part_after(cmds, k + 1, part.push((x, y))),
            Cmd::ClosePath => part_after(cmds, k + 1, Seq::empty()),
            _ => part_after(cmds, k + 1, part),
        }
    }
}

/// One ring's vertices mapped into pixel space.
pub open spec fn pixel_ring(cs: Seq<Coord>, m: Matrix) -> Seq<(i128, i128)> {
    cs.map_values(|c: Coord| (m.apply_x(c.x as int) as i128, m.apply_y(c.y as int) as i128))
}

/// The pixel rings of the rings that kept at least one vertex, in order.
pub open spec fn pixel_rings(rings: Seq<Seq<Option<Coord>>>, m: Matrix) -> Seq<Seq<(i128, i128)>>
    decreases rings.len(),
{
    if rings.len() == 0 {
        Seq::empty()
    } else {
        pixel_rings(rings.drop_last(), m) + (if somes(rings.last()).len() > 0 {
            seq![pixel_ring(somes(rings.last()), m)]
        } else {
            Seq::empty()
        })
    }
}

proof fn lemma_subpaths_shift(xs: Seq<Cmd>, ys: Seq<Cmd>, j: int, part: Seq<(i128, i128)>)
    requires
        0 <= j <= ys.len(),
    ensures
        subpaths_from(xs + ys, xs.len() + j, part) == subpaths_from(ys, j, part),
        part_after(xs + ys, xs.len() + j, part) == part_after(ys, j, part),
    decreases ys.len() - j,
{
    if j < ys.len() {
        assert((xs + ys)[xs.len() + j] == ys[j]);
        match ys[j] {
            Cmd::MoveTo { x: mx, y: my } => lemma_subpaths_shift(xs, ys, j + 1, seq![(mx, my)]),
            Cmd::LineTo { x: mx, y: my } => lemma_subpaths_shift(xs, ys, j + 1, part.push((mx, my))),
            Cmd::ClosePath => lemma_subpaths_shift(xs, ys, j + 1, Seq::empty()),
            _ => lemma_subpaths_shift(xs, ys, j + 1, part),
        }
    }
}

proof fn lemma_subpaths_split(xs: Seq<Cmd>, ys: Seq<Cmd>, k: int, part: Seq<(i128, i128)>)
    requires
        0 <= k <= xs.len(),
    ensures
        subpaths_from(xs + ys, k, part) == subpaths_from(xs, k, part) + subpaths_from(
            ys,
            0,
            part_after(xs, k, part),
        ),
        part_after(xs + ys, k, part) == part_after(ys, 0, part_after(xs, k, part)),
    decreases xs.len() - k,
{
    if k == xs.len() {
        lemma_subpaths_shift(xs, ys, 0, part);
        assert(subpaths_from(xs, k, part) + subpaths_from(ys, 0, part) =~= subpaths_from(
            ys,
            0,
            part,
        ));
    } else {
        assert((xs + ys)[k] == xs[k]);
        match xs[k] {
            Cmd::MoveTo { x: mx, y: my } => {
                lemma_subpaths_split(xs, ys, k + 1, seq![(mx, my)]);
            },
            Cmd::LineTo { x: mx, y: my } => {
                lemma_subpaths_split(xs, ys, k + 1, part.push((mx, my)));
            },
            Cmd::ClosePath => {
                lemma_subpaths_split(xs, ys, k + 1, Seq::empty());
                let rest = subpaths_from(xs, k + 1, Seq::empty());
                let tailpart = subpaths_from(ys, 0, part_after(xs, k + 1, Seq::empty()));
                assert(seq![part] + (rest + tailpart) =~= (seq![part] + rest) + tailpart);
            },
            _ => {
                lemma_subpaths_split(xs, ys, k + 1, part);
            },
        }
    }
}

proof fn lemma_subpaths_inert(cmds: Seq<Cmd>, k: int, part: Seq<(i128, i128)>)
    requires
        0 <= k <= cmds.len(),
        forall|i: int|
            k <= i < cmds.len() ==> !(#[trigger] cmds[i] matches Cmd::MoveTo { .. }) && !(cmds[i] matches Cmd::LineTo { .. })
                && !(cmds[i] matches Cmd::ClosePath),
    ensures
        subpaths_from(cmds, k, part) == Seq::<Seq<(i128, i128)>>::empty(),
        part_after(cmds, k, part) == part,
    decreases cmds.len() - k,
{
    if k < cmds.len() {
        lemma_subpaths_inert(cmds, k + 1, part);
    }
}

/// The pixel point a line-to command carries.
pub open spec fn line_pt(c: Cmd) -> (i128, i128) {
    match c {
        Cmd::LineTo { x, y } => (x, y),
        _ => (0, 0),
    }
}

proof fn lemma_subpaths_lineto_run(cmds: Seq<Cmd>, k: int, part: Seq<(i128, i128)>)
    requires
        0 <= k <= cmds.len(),
        forall|i: int| k <= i < cmds.len() ==> #[trigger] cmds[i] matches Cmd::LineTo { .. },
    ensures
        subpaths_from(cmds, k, part) == Seq::<Seq<(i128, i128)>>::empty(),
        part_after(cmds, k, part) == part + Seq::new(
            (cmds.len() - k) as nat,
            |j: int| line_pt(cmds[k + j]),
        ),
    decreases cmds.len() - k,
{
    if k == cmds.len() {
        assert(part + Seq::new(0, |j: int| line_pt(cmds[k + j])) =~= part);
    } else {
        match cmds[k] {
            Cmd::LineTo { x: mx, y: my } => {
                lemma_subpaths_lineto_run(cmds, k + 1, part.push((mx, my)));
                assert(part.push((mx, my)) + Seq::new(
                    (cmds.len() - k - 1) as nat,
                    |j: int| line_pt(cmds[k + 1 + j]),
                ) =~= part + Seq::new((cmds.len() - k) as nat, |j: int| line_pt(cmds[k + j])));
            },
            _ => {
                assert(false);
            },
        }
    }
}

proof fn lemma_subpaths_ring(ring: Seq<Option<Coord>>, m: Matrix, part: Seq<(i128, i128)>)
    ensures
        subpaths_from(ring_path(ring, m), 0, part) == (if somes(ring).len() > 0 {
            seq![pixel_ring(somes(ring), m)]
        } else {
            Seq::<Seq<(i128, i128)>>::empty()
        }),
        part_after(ring_path(ring, m), 0, part) == (if somes(ring).len() > 0 {
            Seq::<(i128, i128)>::empty()
        } else {
            part
        }),
{
    let cs = somes(ring);
    if cs.len() > 0 {
        let p0 = (m.apply_x(cs[0].x as int) as i128, m.apply_y(cs[0].y as int) as i128);
        let mv = seq![Cmd::MoveTo { x: p0.0, y: p0.1 }];
        let lts = Seq::new(
            (cs.len() - 1) as nat,
            |j: int|
                Cmd::LineTo {
                    x: m.apply_x(cs[j + 1].x as int) as i128,
                    y: m.apply_y(cs[j + 1].y as int) as i128,
                },
        );
        let cl = seq![Cmd::ClosePath];
        assert(ring_path(ring, m) =~= (mv + lts) + cl);
        lemma_subpaths_split(mv + lts, cl, 0, part);
        lemma_subpaths_split(mv, lts, 0, part);
        assert(mv[0] == Cmd::MoveTo { x: p0.0, y: p0.1 });
        assert(subpaths_from(mv, 1, seq![p0]) =~= Seq::<Seq<(i128, i128)>>::empty());
        assert(part_after(mv, 1, seq![p0]) == seq![p0]);
        assert(subpaths_from(mv, 0, part) =~= Seq::<Seq<(i128, i128)>>::empty());
        assert(part_after(mv, 0, part) =~= seq![p0]);
        lemma_subpaths_lineto_run(lts, 0, seq![p0]);
        let pr = part_after(mv + lts, 0, part);
        assert(pr =~= pixel_ring(cs, m));
        assert(cl[0] == Cmd::ClosePath);
        assert(subpaths_from(cl, 1, Seq::empty()) =~= Seq::<Seq<(i128, i128)>>::empty());
        assert(part_after(cl, 1, Seq::<(i128, i128)>::empty()) == Seq::<(i128, i128)>::empty());
        assert(subpaths_from(cl, 0, pr) =~= seq![pr]);
        assert(part_after(cl, 0, pr) =~= Seq::<(i128, i128)>::empty());
        assert(subpaths_from(ring_path(ring, m), 0, part) =~= seq![pixel_ring(cs, m)]);
    }
}

proof fn lemma_subpaths_rings(rings: Seq<Seq<Option<Coord>>>, m: Matrix)
    ensures
        subpaths_from(rings_path(rings, m), 0, Seq::empty()) == pixel_rings(rings, m),
        part_after(rings_path(rings, m), 0, Seq::<(i128, i128)>::empty()) == Seq::<
            (i128, i128),
        >::empty(),
    decreases rings.len(),
{
    if rings.len() > 0 {
        lemma_subpaths_rings(rings.drop_last(), m);
        lemma_subpaths_split(
            rings_path(rings.drop_last(), m),
            ring_path(rings.last(), m),
            0,
            Seq::empty(),
        );
        lemma_subpaths_ring(rings.last(), m, Seq::empty());
        assert(subpaths_from(rings_path(rings, m), 0, Seq::empty()) =~= pixel_rings(rings, m));
    }
}

/// Law: the closed subpaths that `draw`'s commands build are exactly the
/// rings that kept at least one reprojected vertex, in order, with every
/// vertex mapped through the transform.
pub proof fn lemma_draw_builds_the_rings(rings: Seq<Seq<Option<Coord>>>, m: Matrix)
    ensures
        closed_subpaths_of(draw_cmds(rings, m)) == pixel_rings(rings, m),
{
    let pre = color_cmd(parsed_color("#c8cfc8"@));
    let rp = rings_path(rings, m);
    let tail = seq![Cmd::SetFillRuleEvenOdd, Cmd::Fill, Cmd::Stroke];
    lemma_subpaths_split(pre + rp, tail, 0, Seq::empty());
    lemma_subpaths_split(pre, rp, 0, Seq::empty());
    lemma_subpaths_inert(pre, 0, Seq::empty());
    lemma_subpaths_rings(rings, m);
    lemma_subpaths_inert(tail, 0, Seq::empty());
    assert(closed_subpaths_of(draw_cmds(rings, m)) =~= pixel_rings(rings, m));
}

/// A pixel scalar small enough for the exact crossing test.
pub open spec fn pix_small(v: int) -> bool {
    -0x1000000000000000 <= v <= 0x1000000000000000
}

/// All coordinates of all rings are small enough for the crossing test.
pub open spec fn path_small(rings: Seq<Seq<(i128, i128)>>) -> bool {
    forall|i: int, j: int|
        0 <= i < rings.len() && 0 <= j < rings[i].len() ==> pix_small(
            (#[trigger] rings[i][j]).0 as int,
        ) && pix_small(rings[i][j].1 as int)
}

/// Whether the edge from `a` to `b` crosses the horizontal ray that runs
/// from `(px, py)` toward increasing x. Stated without division: the
/// comparison against the intersection abscissa is cross-multiplied by
/// the edge's vertical span.
pub open spec fn edge_crosses(a: (i128, i128), b: (i128, i128), px: int, py: int) -> bool {
    ((a.1 > py) != (b.1 > py)) && (if b.1 - a.1 > 0 {
        (px - a.0) * (b.1 - a.1) < (b.0 - a.0) * (py - a.1)
    } else {
        (px - a.0) * (b.1 - a.1) > (b.0 - a.0) * (py - a.1)
    })
}

/// How many edges of `ring`, from the `k`-th on and including the closing
/// edge back to the first vertex, cross the ray from `(px, py)`.
pub open spec fn ring_cross_count(ring: Seq<(i128, i128)>, px: int, py: int, k: int) -> nat
    decreases ring.len() - k,
{
    if k < 0 || k >= ring.len() {
        0
    } else {
        (if edge_crosses(
            ring[k],
            ring[if k + 1 == ring.len() {
                0
            } else {
                k + 1
            }],
            px,
            py,
        ) {
            1nat
        } else {
            0nat
        }) + ring_cross_count(ring, px, py, k + 1)
    }
}

/// How many edges of all rings cross the ray from `(px, py)`.
pub open spec fn path_cross_count(rings: Seq<Seq<(i128, i128)>>, px: int, py: int) -> nat
    decreases rings.len(),
{
    if rings.len() == 0 {
        0
    } else {
        path_cross_count(rings.drop_last(), px, py) + ring_cross_count(rings.last(), px, py, 0)
    }
}

/// The even-odd rule: a point is inside when the ray from it crosses the
/// boundary an odd number of times.
pub open spec fn even_odd_spec(rings: Seq<Seq<(i128, i128)>>, px: int, py: int) -> bool {
    path_cross_count(rings, px, py) % 2 == 1
}

/// The product of two spans of small pixel scalars stays inside `i128`.
proof fn lemma_pix_product_in_range(a: int, b: int)
    requires
        -2305843009213693952 <= a <= 2305843009213693952,
        -2305843009213693952 <= b <= 2305843009213693952,
    ensures
        -(i128::MAX as int) < a * b < i128::MAX as int,
{
    assert(-5316911983139663491615228241121378304 <= a * b
        <= 5316911983139663491615228241121378304) by (nonlinear_arith)
        requires
            -2305843009213693952 <= a <= 2305843009213693952,
            -2305843009213693952 <= b <= 2305843009213693952,
    ;
}

/// The exact crossing test for one edge.
fn edge_crosses_exec(a: (i128, i128), b: (i128, i128), px: i128, py: i128) -> (r: bool)
    requires
        pix_small(a.0 as int),
        pix_small(a.1 as int),
        pix_small(b.0 as int),
        pix_small(b.1 as int),
        pix_small(px as int),
        pix_small(py as int),
    ensures
        r == edge_crosses(a, b, px as int, py as int),
{
    if (a.1 > py) != (b.1 > py) {
        proof {
            lemma_pix_product_in_range(px as int - a.0 as int, b.1 as int - a.1 as int);
            lemma_pix_product_in_range(b.0 as int - a.0 as int, py as int - a.1 as int);
        }
        let d = b.1 - a.1;
        let lhs = (px - a.0) * d;
        let rhs = (b.0 - a.0) * (py - a.1);
        if d > 0 {
            lhs < rhs
        } else {
            lhs > rhs
        }
    } else {
        false
    }
}

/// Whether `(px, py)` is filled under the even-odd rule by the closed
/// rings `rings`. Exact: every comparison is integer arithmetic.
pub fn even_odd_contains(rings: &Vec<Vec<(i128, i128)>>, px: i128, py: i128) -> (r: bool)
    requires
        path_small(rings@.map_values(|r: Vec<(i128, i128)>| r@)),
        pix_small(px as int),
        pix_small(py as int),
    ensures
        r == even_odd_spec(rings@.map_values(|r: Vec<(i128, i128)>| r@), px as int, py as int),
{
    let ghost rv = rings@.map_values(|r: Vec<(i128, i128)>| r@);
    let mut acc = false;
    let mut i: usize = 0;
    while i < rings.len()
        invariant
            path_small(rv),
            pix_small(px as int),
            pix_small(py as int),
            rv == rings@.map_values(|r: Vec<(i128, i128)>| r@),
            i <= rings@.len(),
            acc == (path_cross_count(rv.take(i as int), px as int, py as int) % 2 == 1),
        decreases rings@.len() - i,
    {
        let ring: &Vec<(i128, i128)> = &rings[i];
        let mut inner = false;
        let mut k: usize = 0;
        while k < ring.len()
            invariant
                path_small(rv),
                pix_small(px as int),
                pix_small(py as int),
                rv == rings@.map_values(|r: Vec<(i128, i128)>| r@),
                i < rings@.len(),
                ring@ == rv[i as int],
                k <= ring@.len(),
                inner == (ring_cross_count(ring@, px as int, py as int, 0) % 2
                    != ring_cross_count(ring@, px as int, py as int, k as int) % 2),
            decreases ring@.len() - k,
        {
            let nxt: usize = if k + 1 == ring.len() {
                0
            } else {
                k + 1
            };
            if edge_crosses_exec(ring[k], ring[nxt], px, py) {
                inner = !inner;
            }
            k += 1;
        }
        if inner {
            acc = !acc;
        }
        proof {
            assert(ring_cross_count(ring@, px as int, py as int, ring@.len() as int) == 0);
            assert(rv.take(i as int + 1).drop_last() =~= rv.take(i as int));
            assert(rv.take(i as int + 1).last() == ring@);
            assert(path_cross_count(rv.take(i as int + 1), px as int, py as int)
                == path_cross_count(rv.take(i as int), px as int, py as int) + ring_cross_count(
                ring@,
                px as int,
                py as int,
                0,
            ));
        }
        i += 1;
    }
    proof {
        assert(rv.take(rings@.len() as int) =~= rv);
    }
    acc
}

} // verus!
