use ecumene::bbox::Bbox;
use ecumene::geom::Coord;
use ecumene::renderer::LayerError;
use ecumene::renderer::background_commands;
use ecumene::renderer::extent_from_projected;
use ecumene::renderer::layer_sample_points;
use ecumene::renderer::layer_transform;
use ecumene::renderer::render_commands;
use ecumene::symbolizers::Cmd;
use ecumene::symbolizers::PolygonSymbolizer;
use ecumene::symbolizers::closed_subpaths;
use ecumene::symbolizers::Rgba;
use ecumene::symbolizers::even_odd_contains;
use ecumene::symbolizers::parse_color;
use ecumene::transform::matrix_from_rects;
use ecumene::transform::get_transform;

#[test]
fn fit_identity_square_gives_scale_500() {
    // A square source extent of side 2 on a 1000 by 1000 canvas.
    let m = get_transform(Coord { x: -1, y: 1 }, Coord { x: 1, y: -1 }, 1000, 1000);
    assert_eq!((m.c1.x - m.b1.x) / (m.c0.x - m.b0.x), 500);
    // The vertical axis flips, so its scale is the same magnitude, negated.
    assert_eq!((m.c1.y - m.b1.y) / (m.c0.y - m.b0.y), -500);
    assert_eq!(m.b1.x, 0);
    assert_eq!(m.b1.y, 0);
    assert_eq!(m.c1.x, 1000);
    assert_eq!(m.c1.y, 1000);
    assert_eq!(m.apply(Coord { x: -1, y: 1 }), (0, 0));
    assert_eq!(m.apply(Coord { x: 1, y: -1 }), (1000, 1000));
    assert_eq!(m.apply(Coord { x: 0, y: 0 }), (500, 500));
}

#[test]
fn fit_centers_the_slack_axis() {
    // dx = 4, dy = 2: the scale binds on x, the image is centered on y.
    let m = get_transform(Coord { x: 0, y: 2 }, Coord { x: 4, y: 0 }, 1000, 1000);
    assert_eq!(m.b1.x, 0);
    assert_eq!(m.c1.x, 1000);
    assert_eq!(m.b1.y, 250);
    assert_eq!(m.c1.y, 750);
    // Aspect ratio kept: w / h == dx / dy.
    let w = m.c1.x - m.b1.x;
    let h = m.c1.y - m.b1.y;
    assert_eq!(w * 2, h * 4);
    // Margins symmetric: 250 above, 250 below.
    assert_eq!(m.b1.y, 1000 - m.c1.y);
    // The fitted corners map exactly.
    assert_eq!(m.apply(Coord { x: 0, y: 2 }), (0, 250));
    assert_eq!(m.apply(Coord { x: 4, y: 0 }), (1000, 750));
}

#[test]
fn triangle_with_square_hole_has_two_closed_subpaths() {
    let m = matrix_from_rects(
        Coord { x: 0, y: 0 },
        Coord { x: 1000, y: 1000 },
        Coord { x: 0, y: 0 },
        Coord { x: 1000, y: 1000 },
    );
    let outer = vec![
        Some(Coord { x: 0, y: 0 }),
        Some(Coord { x: 100, y: 0 }),
        Some(Coord { x: 50, y: 100 }),
    ];
    let hole = vec![
        Some(Coord { x: 40, y: 30 }),
        Some(Coord { x: 60, y: 30 }),
        Some(Coord { x: 60, y: 50 }),
        Some(Coord { x: 40, y: 50 }),
    ];
    let sym = PolygonSymbolizer::new(vec![outer, hole]);
    let cmds = sym.draw(&m);
    let closes = cmds.iter().filter(|c| matches!(c, Cmd::ClosePath)).count();
    assert_eq!(closes, 2);
    // The path is filled even-odd, after all subpaths, then stroked.
    let tail = &cmds[cmds.len() - 3..];
    assert!(matches!(tail[0], Cmd::SetFillRuleEvenOdd));
    assert!(matches!(tail[1], Cmd::Fill));
    assert!(matches!(tail[2], Cmd::Stroke));
}

#[test]
fn even_odd_fill_leaves_the_hole_unfilled() {
    // The same triangle and hole, drawn end to end: the subpaths the
    // symbolizer emits, filled even-odd.
    let m = matrix_from_rects(
        Coord { x: 0, y: 0 },
        Coord { x: 1000, y: 1000 },
        Coord { x: 0, y: 0 },
        Coord { x: 1000, y: 1000 },
    );
    let outer = vec![
        Some(Coord { x: 0, y: 0 }),
        Some(Coord { x: 100, y: 0 }),
        Some(Coord { x: 50, y: 100 }),
    ];
    let hole = vec![
        Some(Coord { x: 40, y: 30 }),
        Some(Coord { x: 60, y: 30 }),
        Some(Coord { x: 60, y: 50 }),
        Some(Coord { x: 40, y: 50 }),
    ];
    let cmds = PolygonSymbolizer::new(vec![outer, hole]).draw(&m);
    let rings = closed_subpaths(&cmds);
    assert_eq!(rings.len(), 2);
    assert_eq!(rings[0], vec![(0, 0), (100, 0), (50, 100)]);
    assert_eq!(rings[1], vec![(40, 30), (60, 30), (60, 50), (40, 50)]);
    // Inside the hole: unfilled.
    assert!(!even_odd_contains(&rings, 50, 40));
    // Inside the triangle, outside the hole: filled.
    assert!(even_odd_contains(&rings, 50, 10));
    // Outside the triangle: unfilled.
    assert!(!even_odd_contains(&rings, -10, 10));
}

#[test]
fn ring_without_reprojected_vertices_is_skipped() {
    let m = matrix_from_rects(
        Coord { x: 0, y: 0 },
        Coord { x: 1000, y: 1000 },
        Coord { x: 0, y: 0 },
        Coord { x: 1000, y: 1000 },
    );
    let sym = PolygonSymbolizer::new(vec![vec![None, None]]);
    let cmds = sym.draw(&m);
    assert_eq!(cmds.iter().filter(|c| matches!(c, Cmd::ClosePath)).count(), 0);
    assert!(!cmds.iter().any(|c| matches!(c, Cmd::MoveTo { .. })));
    assert!(!cmds.iter().any(|c| matches!(c, Cmd::LineTo { .. })));
}

#[test]
fn failed_vertices_are_skipped_inside_a_ring() {
    let m = matrix_from_rects(
        Coord { x: 0, y: 0 },
        Coord { x: 1000, y: 1000 },
        Coord { x: 0, y: 0 },
        Coord { x: 1000, y: 1000 },
    );
    let ring = vec![
        None,
        Some(Coord { x: 1, y: 2 }),
        None,
        Some(Coord { x: 3, y: 4 }),
        Some(Coord { x: 5, y: 6 }),
    ];
    let sym = PolygonSymbolizer::new(vec![ring]);
    let cmds = sym.draw(&m);
    let moves: Vec<&Cmd> = cmds.iter().filter(|c| matches!(c, Cmd::MoveTo { .. })).collect();
    let lines: Vec<&Cmd> = cmds.iter().filter(|c| matches!(c, Cmd::LineTo { .. })).collect();
    assert_eq!(moves.len(), 1);
    assert_eq!(lines.len(), 2);
    assert!(matches!(moves[0], Cmd::MoveTo { x: 1, y: 2 }));
    assert!(matches!(lines[0], Cmd::LineTo { x: 3, y: 4 }));
    assert!(matches!(lines[1], Cmd::LineTo { x: 5, y: 6 }));
}

#[test]
fn zero_layers_render_background_only() {
    let r = render_commands(&vec![]);
    let bg = background_commands();
    assert_eq!(r, bg);
    assert_eq!(bg.len(), 2);
    assert!(
        matches!(
            bg[0],
            Cmd::SetColor { color: Rgba { red: 211, green: 153, blue: 110, alpha: 255 } }
        )
    );
    assert!(matches!(bg[1], Cmd::Paint));
}

#[test]
fn layers_paint_in_order_over_the_background() {
    let a = vec![Cmd::Fill];
    let b = vec![Cmd::Stroke, Cmd::Paint];
    let r = render_commands(&vec![a, b]);
    let bg = background_commands();
    assert_eq!(r.len(), bg.len() + 3);
    assert!(matches!(r[bg.len()], Cmd::Fill));
    assert!(matches!(r[bg.len() + 1], Cmd::Stroke));
    assert!(matches!(r[bg.len() + 2], Cmd::Paint));
}

#[test]
fn feature_outside_the_extent_is_filtered_out() {
    let extent = Bbox::new(-10, -10, 10, 10);
    let mut far = Bbox::empty();
    far.add_point(Coord { x: 100, y: 100 });
    far.add_point(Coord { x: 120, y: 130 });
    assert!(!extent.intersects(&far));
    let mut near = Bbox::empty();
    near.add_point(Coord { x: 0, y: 5 });
    assert!(extent.intersects(&near));
}

#[test]
fn parse_color_hex() {
    assert_eq!(
        parse_color("#c8cfc8"),
        Some(Rgba { red: 200, green: 207, blue: 200, alpha: 255 })
    );
}

#[test]
fn parse_color_rgb_function() {
    assert_eq!(
        parse_color("rgb(211,153,110)"),
        Some(Rgba { red: 211, green: 153, blue: 110, alpha: 255 })
    );
}

#[test]
fn parse_color_rejects_non_colors() {
    assert_eq!(parse_color("not-a-color"), None);
    assert_eq!(parse_color("currentcolor"), None);
    assert_eq!(parse_color(""), None);
}

#[test]
fn extent_accumulates_only_successful_samples() {
    let pts = vec![
        None,
        Some(Coord { x: 3, y: -2 }),
        None,
        Some(Coord { x: -5, y: 7 }),
    ];
    let bb = extent_from_projected(&pts);
    assert!(!bb.is_empty());
    assert_eq!(bb.min.x, -5);
    assert_eq!(bb.min.y, -2);
    assert_eq!(bb.max.x, 3);
    assert_eq!(bb.max.y, 7);

    let all_failed: Vec<Option<Coord>> = vec![None, None];
    assert!(extent_from_projected(&all_failed).is_empty());
}

#[test]
fn sample_points_walk_all_four_edges() {
    let b = Bbox::new(0, 0, 10, 4);
    let pts = layer_sample_points(&b, 3);
    // Abscissas 3, 6, 9 against both horizontal edges, then ordinate 3
    // against both vertical edges.
    assert_eq!(pts.len(), 8);
    assert_eq!(pts[0], Coord { x: 3, y: 0 });
    assert_eq!(pts[1], Coord { x: 3, y: 4 });
    assert_eq!(pts[2], Coord { x: 6, y: 0 });
    assert_eq!(pts[3], Coord { x: 6, y: 4 });
    assert_eq!(pts[4], Coord { x: 9, y: 0 });
    assert_eq!(pts[5], Coord { x: 9, y: 4 });
    assert_eq!(pts[6], Coord { x: 0, y: 3 });
    assert_eq!(pts[7], Coord { x: 10, y: 3 });
}

#[test]
fn pipeline_identity_projection_square_extent() {
    // A window of one degree on each side of the origin, in microdegrees,
    // run through the whole decision pipeline with an identity projection.
    let extent = Bbox::new(-1000000, -1000000, 1000000, 1000000);
    let bounds_rad = extent.to_rad();
    assert_eq!(bounds_rad.max.x, 17453);
    assert_eq!(bounds_rad.min.y, -17453);
    let samples = layer_sample_points(&bounds_rad, 1000);
    let projected: Vec<Option<Coord>> = samples.iter().map(|c| Some(*c)).collect();
    let bb = extent_from_projected(&projected);
    assert_eq!((bb.min.x, bb.min.y, bb.max.x, bb.max.y), (-17453, -17453, 17453, 17453));
    let m = layer_transform(&bb, 1000, 1000).unwrap();
    assert_eq!(m.apply(Coord { x: -17453, y: 17453 }), (0, 0));
    assert_eq!(m.apply(Coord { x: 17453, y: -17453 }), (1000, 1000));
    assert_eq!(m.apply(Coord { x: 0, y: 0 }), (500, 500));
}

#[test]
fn layer_transform_reports_each_failure() {
    let empty = Bbox::empty();
    assert_eq!(layer_transform(&empty, 1000, 1000), Err(LayerError::EmptyExtent));
    let flat = Bbox::new(5, 0, 5, 10);
    assert_eq!(layer_transform(&flat, 1000, 1000), Err(LayerError::DegenerateExtent));
    let thin = Bbox::new(0, 7, 10, 7);
    assert_eq!(layer_transform(&thin, 1000, 1000), Err(LayerError::DegenerateExtent));
    let good = layer_transform(&Bbox::new(-1, -1, 1, 1), 1000, 1000);
    assert!(good.is_ok());
    let m = good.unwrap();
    // The vertical axis flips: the extent's top-left corner goes to the
    // pixel origin.
    assert_eq!(m.apply(Coord { x: -1, y: 1 }), (0, 0));
    assert_eq!(m.apply(Coord { x: 1, y: -1 }), (1000, 1000));
}
