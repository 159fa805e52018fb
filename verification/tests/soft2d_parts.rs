//! The parts of the 2D renderer, each on its own.
use softgraphics::soft2d::area;
use softgraphics::soft2d::area::{Across, Landed};
use softgraphics::soft2d::backend;
use softgraphics::soft2d::backend::{Command, Line};
use softgraphics::soft2d::clip;
use softgraphics::soft2d::clip::{ClipLevel, ClipStack, MaskPool};
use softgraphics::soft2d::cover;
use softgraphics::soft2d::cover::{Inner, Open};
use softgraphics::soft2d::error;
use softgraphics::soft2d::error::{Error, ImageFault, Limit, ResourceKind};
use softgraphics::soft2d::filter;
use softgraphics::soft2d::filter::{Evaluation, FilterNode, Keep, Taps};
use softgraphics::soft2d::geom;
use softgraphics::soft2d::geom::{Extent2D, Outward, PixelRect};
use softgraphics::soft2d::glyph;
use softgraphics::soft2d::glyph::{ChannelOrder, GlyphCacheKey, GlyphImage, GlyphKind, GlyphProvider, GlyphRaster, NoGlyphs, RasterisationMode, RunFace, RunGlyph, SubpixelLayout};
use softgraphics::soft2d::layer;
use softgraphics::soft2d::layer::Pool;
use softgraphics::soft2d::paint;
use softgraphics::soft2d::paint::{ImageQuality, ImageSource, Mixture, NoImages, Paint, Ramp, Roots, RowPlan, Sampled, Shader, Source, Spread};
use softgraphics::soft2d::raster;
use softgraphics::soft2d::raster::{Edges, FillRule, Mark, Point, Touched};
use softgraphics::soft2d::reach::{contour_bounds, glyph_run_bounds};
use softgraphics::soft2d::replay::{Answer, Ink, Replay, Span, Step, NORMAL, SOURCE_OVER};
use softgraphics::soft2d::span;
use softgraphics::soft2d::stroke;
use softgraphics::soft2d::stroke::{Cap, Corner, Dasher, Distinct, Join, Plan, Segment, Walk};
use softgraphics::soft2d::target::{Rgba, Surface, Tile, TRANSPARENT};
use softgraphics::soft2d::tile::{Bins, Tiling, TILE_SIZE};

fn word(value: f32) -> u32 {
    value.to_bits()
}

fn point(x: f32, y: f32) -> Point {
    (word(x), word(y))
}

fn rect(x: f32, y: f32, width: f32, height: f32) -> Vec<Point> {
    vec![point(x, y), point(x + width, y), point(x + width, y + height), point(x, y + height)]
}

fn colour(value: u32) -> Rgba {
    [value, value + 1, value + 2, value + 3]
}

fn area(x: u32, y: u32, width: u32, height: u32) -> PixelRect {
    PixelRect::new(x, y, width, height)
}

// Rectangles.

#[test]
fn rectangles_meet_where_both_have_a_pixel() {
    let (left, right) = (area(2, 3, 10, 4), area(8, 0, 10, 5));
    let both = left.intersection(&right);
    assert_eq!(both, area(8, 3, 4, 2));
    for y in 0..12 {
        for x in 0..24 {
            let within = |r: &PixelRect| x >= r.x && x - r.x < r.width && y >= r.y && y - r.y < r.height;
            assert_eq!(within(&both), within(&left) && within(&right), "({x}, {y})");
        }
    }
    assert!(left.intersection(&area(100, 100, 4, 4)).is_empty());
    assert!(area(1, 1, 0, 4).is_empty() && PixelRect::nowhere().is_empty());
    assert_eq!((area(u32::MAX, 0, 1, 1).right(), area(4, 5, 6, 7).right()), (None, Some(10)));
    assert_eq!((area(0, u32::MAX, 1, 1).bottom(), area(4, 5, 6, 7).bottom()), (None, Some(12)));
    assert_eq!(geom::saturating_sum(u32::MAX - 1, 5), u32::MAX);
    assert_eq!(geom::saturating_difference(3, 5), 0);
}

#[test]
fn an_outward_rectangle_covers_whole_pixels() {
    let edges = |left: i64, top: i64, right: i64, bottom: i64| Outward { left, top, right, bottom, width: right - left, height: bottom - top };
    assert_eq!(geom::cover(Some(edges(1, 2, 5, 9))), area(1, 2, 4, 7));
    assert_eq!(geom::cover(None), PixelRect::nowhere());
    assert_eq!(geom::cover(Some(edges(5, 2, 5, 9))), PixelRect::nowhere());
    assert_eq!(geom::cover(Some(edges(0, 0, 1 << 40, 3))).width, u32::MAX);
}

#[test]
fn a_union_and_a_polyline_hold_what_they_are_made_of() {
    assert_eq!(backend::union(area(2, 3, 4, 5), area(10, 1, 2, 2)), area(2, 1, 10, 7));
    assert_eq!(backend::union(area(1, 1, 2, 2), PixelRect::nowhere()), area(0, 0, 3, 3));
    assert_eq!(backend::polyline_bounds(&[(3, 4), (-2, 9), (6, 1)]), Some(area(0, 1, 7, 9)));
    assert_eq!(backend::polyline_bounds(&[]), None);
}

// Tiles.

#[test]
fn tiles_partition_the_target_and_bins_keep_the_order() {
    let tiling = Tiling::new(Extent2D { width: 130, height: 65 }, TILE_SIZE);
    assert_eq!((tiling.columns, tiling.rows, tiling.count()), (3, 2, 6));
    assert_eq!(tiling.tile(2), area(128, 0, 2, 64));
    assert_eq!(tiling.tile(5), area(128, 64, 2, 1));
    for y in 0..65 {
        for x in 0..130 {
            let holders = (0..tiling.count()).filter(|index| {
                let tile = tiling.tile(*index);
                x >= tile.x && x - tile.x < tile.width && y >= tile.y && y - tile.y < tile.height
            });
            assert_eq!(holders.count(), 1);
        }
    }
    assert_eq!(tiling.range(area(60, 0, 10, 70)), (0, 0, 1, 1), "first column and row, last column and row");
    assert_eq!(tiling.range(area(100, 0, 900, 900)), (1, 0, 2, 1));
    let bounds = [Some(area(0, 0, 10, 10)), None, Some(area(60, 60, 80, 10)), Some(PixelRect::nowhere())];
    let bins = Bins::build(&tiling, &bounds);
    let lists: Vec<&[u32]> = (0..6).map(|index| bins.commands(index)).collect();
    assert_eq!(lists[0], [0, 1, 2], "a state change is everywhere, in its place");
    assert_eq!(lists[1], [1, 2]);
    assert_eq!(lists[3], [1, 2]);
    assert!(lists.iter().all(|list| list.contains(&1)));
    assert_eq!(bins.commands(6).len(), 0);
    assert_eq!(Tiling::new(Extent2D { width: 0, height: 5 }, 64).count(), 0);
}

// Surfaces.

#[test]
fn a_surface_sets_one_pixel_and_reads_back_what_was_written() {
    let mut surface = Surface::new(area(10, 20, 4, 3));
    surface.set(11, 21, colour(5));
    for y in 18..26 {
        for x in 8..18 {
            let expected = if (x, y) == (11, 21) { colour(5) } else { TRANSPARENT };
            assert_eq!(surface.get(x, y), expected);
        }
    }
    surface.write_span(12, 22, &[colour(1), colour(2), colour(3)]);
    assert_eq!(surface.read_span(11, 22, 4), [TRANSPARENT, colour(1), colour(2), TRANSPARENT], "past the edge nothing is kept");
    surface.write_span(9, 20, &[colour(1), colour(2)]);
    assert_eq!(surface.get(10, 20), TRANSPARENT, "a run that starts outside is not written");
    surface.rebase((0, 0));
    assert_eq!(surface.get(1, 1), colour(5), "rebasing moves the surface and keeps its pixels");
    assert_eq!(surface.bounds(), area(0, 0, 4, 3));
    surface.clear();
    assert!(surface.pixels.iter().all(|value| *value == TRANSPARENT));

    let mut tile = Tile::new(8);
    tile.rebase((64, 0));
    tile.set(65, 1, colour(9));
    assert_eq!((tile.get(65, 1), tile.get(1, 1)), (colour(9), TRANSPARENT));
    tile.write_span(70, 2, &[colour(1), colour(2), colour(3)]);
    assert_eq!(tile.read_span(69, 2, 3), [TRANSPARENT, colour(1), colour(2)]);
    tile.clear();
    assert_eq!(tile.get(65, 1), TRANSPARENT);
}

#[test]
fn a_tile_stores_what_it_loaded_and_nothing_beside_it() {
    let bounds = area(65, 2, 3, 2);
    let rows = vec![vec![colour(1), colour(2), colour(3)], vec![colour(4), colour(5), colour(6)]];
    let mut tile = Tile::new(8);
    tile.rebase((64, 0));
    tile.set(64, 2, colour(9));
    tile.load(bounds, &rows);
    assert_eq!(tile.store(bounds), [(2, rows[0].clone()), (3, rows[1].clone())]);
    assert_eq!((tile.get(64, 2), tile.get(68, 2), tile.get(65, 4)), (colour(9), TRANSPARENT, TRANSPARENT));
    assert_eq!(tile.store(area(0, 0, 4, 2)), [], "rows off the tile are not stored");
    assert_eq!(tile.store(area(71, 7, 2, 1)), [], "nor one that is cut");

    let mut surface = Surface::new(area(64, 0, 8, 8));
    surface.load(bounds, &rows);
    assert_eq!(surface.store(bounds), [(2, rows[0].clone()), (3, rows[1].clone())]);
    assert_eq!(surface.store(area(71, 7, 2, 1)), [(7, vec![TRANSPARENT; 2])]);
    assert_eq!(surface.store(area(64, u32::MAX, 1, 5)), [], "a row needs a coordinate");
}

#[test]
fn a_pool_lends_cleared_surfaces_of_its_size() {
    let mut pool = Pool::new();
    assert!(pool.take(area(0, 0, 4, 4)).is_none());
    pool.reserve(2, (6, 5));
    assert_eq!(pool.available(), 2);
    let mut surface = pool.take(area(30, 40, 2, 2)).unwrap();
    assert_eq!(surface.bounds(), area(30, 40, 6, 5));
    surface.set(31, 41, colour(7));
    pool.give(surface);
    assert_eq!(pool.take(area(30, 40, 2, 2)).unwrap().get(31, 41), TRANSPARENT, "what was drawn before is gone");
    pool.reserve(1, (6, 5));
    assert_eq!(pool.available(), 1);
    pool.reserve(3, (7, 5));
    assert_eq!(pool.available(), 3);
    assert_eq!(layer::layer_bounds(None, area(64, 0, 64, 64), 10), area(54, 0, 84, 84));
    assert_eq!(layer::layer_bounds(Some(area(70, 8, 4, 500)), area(64, 0, 64, 64), 10), area(70, 8, 4, 76));
}

// Clips.

#[test]
fn a_pop_undoes_a_push_and_gives_the_mask_back() {
    let mut masks = MaskPool::new();
    masks.reserve(2, 12);
    assert_eq!(masks.scratch_bytes(), 24);
    let mut clips = ClipStack::new();
    clips.reset(area(0, 0, 8, 8));
    assert_eq!((clips.depth(), clips.is_rectangular()), (0, true));
    clips.push(ClipLevel::rectangle(area(2, 2, 4, 4)));
    let mut mask = masks.take_filled(255).unwrap();
    clip::write_mask_row(&mut mask, 4, 4, &[0, 100, 200, 255, 7], false);
    assert_eq!(mask, [255, 255, 255, 255, 0, 100, 200, 255, 255, 255, 255, 255]);
    clip::write_mask_row(&mut mask, 8, 4, &[0, 100], true);
    assert_eq!(mask[8..], [255, 155, 255, 255]);
    let level = ClipLevel::with_mask(area(3, 3, 4, 3), mask);
    assert_eq!((level.coverage(4, 4), level.coverage(2, 4), level.bounds()), (100, 0, area(3, 3, 4, 3)));
    assert_eq!(level.scratch_bytes(), 12);
    clips.push(level);
    assert_eq!((clips.depth(), clips.is_rectangular(), clips.scratch_bytes()), (2, false, 12));
    assert_eq!(clips.bounds(), area(3, 3, 3, 3));
    assert_eq!(clips.coverage(4, 4), [255, 100]);
    assert_eq!(clips.coverage(2, 2), [255, 0], "one factor a level, up to one that blocks");
    assert_eq!(clips.coverage(7, 7), [0]);
    assert!(clips.blocks(3, 4) && clips.blocks(7, 7) && !clips.blocks(5, 4));
    assert_eq!(masks.free.len(), 1);
    clips.pop(&mut masks);
    assert_eq!((clips.depth(), masks.free.len()), (1, 2));
    assert_eq!(clips.bounds(), area(2, 2, 4, 4));
    assert!(!clips.blocks(3, 4));
    clips.drain_into(&mut masks);
    assert_eq!(clips.depth(), 0);
    assert_eq!(masks.take().unwrap(), vec![0; 12], "a mask is lent empty");
    masks.give(vec![0; 5]);
    assert!(masks.free.iter().all(|mask| mask.len() == 12), "a mask of another size is not kept");
}

// Outlines.

#[test]
fn edges_are_in_order_and_a_sweep_meets_each_row() {
    let edges = Edges::build(&[rect(1.0, 1.0, 4.0, 3.0), vec![point(0.0, 5.0), point(f32::NAN, 1.0), point(3.0, 7.0)]]);
    assert!(edges.edges.windows(2).all(|pair| f32::from_bits(pair[0].top_y) <= f32::from_bits(pair[1].top_y)));
    assert!(edges.edges.iter().all(|edge| f32::from_bits(edge.top_y) < f32::from_bits(edge.bottom_y)), "a level edge has no height");
    let sides: Vec<i32> = edges.edges.iter().filter(|edge| edge.top_y == word(1.0)).map(|edge| edge.winding).collect();
    assert_eq!(sides.iter().sum::<i32>(), 0, "a closed contour goes down as often as up");
    assert_eq!((edges.len(), edges.is_empty()), (edges.edges.len(), false));
    assert!(edges.reaches_into(word(3.5), word(10.0)) && !edges.reaches_into(word(100.0), word(110.0)));
    assert!(Edges::build(&[]).is_empty());

    let marks: Vec<Mark> = (0..9).map(|y| Mark { until: word(y as f32 + 1.0), inclusive: false, floor: word(y as f32) }).collect();
    for (y, list) in raster::sweep(&edges, &marks).iter().enumerate() {
        let met: Vec<u32> = (0..edges.len() as u32).filter(|index| {
            let edge = &edges.edges[*index as usize];
            f32::from_bits(edge.top_y) < y as f32 + 1.0 && f32::from_bits(edge.bottom_y) > y as f32
        }).collect();
        let mut sorted = list.clone();
        sorted.sort();
        assert_eq!(sorted, met, "row {y}");
    }
}

#[test]
fn a_row_is_inside_between_its_crossings() {
    let crossings = [(word(6.0), -1), (word(1.0), 1), (word(4.0), 1), (word(8.0), -1)];
    assert_eq!(raster::row_spans(&crossings, FillRule::NonZero), [(word(1.0), word(8.0))]);
    assert_eq!(raster::row_spans(&crossings, FillRule::EvenOdd), [(word(1.0), word(4.0)), (word(6.0), word(8.0))]);
    assert_eq!(raster::lit_columns(6, &[(-3, 2), (4, 9), (5, 5)]), [true, true, false, false, true, true]);

    let mut touched = Touched::none();
    assert_eq!(touched.range(), None);
    assert_eq!(raster::emit_range(&touched, false, true, 8), None, "with no column touched the row is one weight");
    assert_eq!(raster::emit_range(&touched, true, true, 8), Some((0, 8)));
    touched.mark(5);
    touched.mark(2);
    assert_eq!(touched.range(), Some((2, 5)));
    assert_eq!(raster::emit_range(&touched, false, false, 8), Some((2, 6)));
    assert_eq!(raster::emit_range(&touched, true, false, 8), Some((0, 6)));
    assert_eq!(raster::emit_range(&touched, false, true, 8), Some((2, 8)));

    for (value, covered) in [(0.25_f32, 0.25), (-0.5, 0.5), (3.0, 1.0), (-1.0, 1.0), (0.0, 0.0)] {
        assert_eq!(f32::from_bits(raster::wind_nonzero(word(value))), covered);
    }
}

#[test]
fn a_line_has_both_ends_and_its_ties_go_down() {
    let all = area(0, 0, 40, 40);
    let line = |from: (i32, i32), to: (i32, i32)| raster::aliased_line(from, to, all);
    assert_eq!(line((2, 2), (2, 2)), [(2, 2)]);
    assert_eq!(line((0, 0), (4, 2)), [(0, 0), (1, 0), (2, 1), (3, 1), (4, 2)]);
    assert_eq!(line((3, 5), (3, 2)), [(3, 5), (3, 4), (3, 3), (3, 2)]);
    let whole = line((1, 3), (30, 17));
    let part = raster::aliased_line((1, 3), (30, 17), area(5, 0, 9, 40));
    let visible: Vec<(u32, u32)> = whole.into_iter().filter(|(x, _)| (5..14).contains(x)).collect();
    assert_eq!(part, visible, "a clipped line is the visible part of the whole one");
    assert_eq!(raster::aliased_line((0, 0), (4, 0), area(u32::MAX, 0, 2, 2)), []);
    for (numerator, denominator, rounded) in [(5, 2, 2), (-5, 2, -3), (7, 2, 3), (1, 3, 0), (2, 3, 1), (5, -2, -3), (4, 0, 0)] {
        assert_eq!(raster::round_half_down(numerator, denominator), rounded, "{numerator} / {denominator}");
    }
    let line = |points: Vec<Point>, closed: bool| Line { points, closed };
    let open = vec![point(0.5, 2.5), point(-0.5, 9.0)];
    assert_eq!(backend::integer_polyline(&[line(open.clone(), false)]), Some(vec![(0, 2), (-1, 9)]));
    assert_eq!(backend::integer_polyline(&[line(open.clone(), true)]), None);
    assert_eq!(backend::integer_polyline(&[]), None);
    assert_eq!(backend::integer_polyline(&[line(vec![point(0.0, 0.0)], false)]), None);
    assert_eq!(backend::integer_polyline(&[line(vec![point(0.0, f32::NAN), point(1.0, 1.0)], false)]), None);
    assert_eq!(backend::integer_polyline(&[line(vec![point(0.0, 0.0); 1025], false)]), None);
    assert_eq!(backend::edge_count(&[rect(0.0, 0.0, 1.0, 1.0), vec![]]), 4);
}

// Strokes.

#[test]
fn a_stroke_is_planned_by_its_points() {
    let (one, two) = ([point(3.0, 4.0)], [point(3.0, 4.0), point(5.0, 4.0)]);
    assert_eq!(stroke::plan(&[], false, Cap::Round), Plan::Nothing);
    assert_eq!(stroke::plan(&one, false, Cap::Butt), Plan::Nothing);
    assert_eq!(stroke::plan(&one, true, Cap::Round), Plan::Circle(one[0]));
    assert_eq!(stroke::plan(&one, true, Cap::Square), Plan::Square(one[0]));
    assert_eq!(stroke::plan(&two, true, Cap::Butt), Plan::TwoLoops);
    assert_eq!(stroke::plan(&two, false, Cap::Butt), Plan::OneLoop);
    assert!(stroke::has_width(word(0.5)) && !stroke::has_width(word(0.0)) && !stroke::has_width(word(f32::INFINITY)));
    assert_eq!(stroke::reversed(&two), [two[1], two[0]]);
    let [a, b, c, d] = [1, 2, 3, 4].map(|x| point(x as f32, 0.0));
    assert_eq!(stroke::open_loop(&[a], &[b], &[c], &[d]), [a, b, c, d]);
    let segment = |from: usize, to: usize, next: Option<usize>| Segment { from, to, next };
    assert_eq!(stroke::offset_side(3, false), [segment(0, 1, Some(2)), segment(1, 2, None)]);
    assert_eq!(stroke::offset_side(3, true), [segment(0, 1, Some(2)), segment(1, 2, Some(0)), segment(2, 0, Some(1))]);
    assert_eq!(stroke::offset_side(2, true), [segment(0, 1, Some(0)), segment(1, 0, Some(1))]);

    let mut distinct = Distinct::new();
    assert_eq!(distinct.last(), None);
    distinct.offer(a, true);
    distinct.offer(b, true);
    distinct.offer(c, false);
    distinct.offer(point(f32::NAN, 0.0), false);
    assert_eq!(distinct.points, [a, c], "a repeated point and one that is no number are dropped");
}

#[test]
fn a_corner_is_filled_on_the_outside() {
    assert_eq!(stroke::corner(word(-1.0), Join::Round), Corner::Nothing);
    assert_eq!(stroke::corner(word(1.0), Join::Round), Corner::Arc);
    assert_eq!(stroke::corner(word(1.0), Join::Miter), Corner::Spike);
    assert_eq!(stroke::corner(word(1.0), Join::Bevel), Corner::Nothing);
    let spike = |length: f32, cosine: f32, reach: f32, limit: f32| stroke::spike(word(length), word(cosine), word(reach), word(limit));
    assert!(spike(1.0, 0.5, 2.0, 2.0));
    assert!(!spike(1.0, 0.5, 2.5, 2.0), "a spike past the limit is a bevel");
    assert!(!spike(0.0, 0.5, 2.0, 2.0) && !spike(1.0, 0.0, 2.0, 2.0) && !spike(f32::INFINITY, 0.5, 2.0, 2.0));
    let steps = |radius: f32, wanted: u32| stroke::arc_steps(word(radius), word(0.25), wanted);
    assert_eq!((steps(0.1, 90), steps(1.0, 3), steps(1.0, 90), steps(1.0, 900)), (2, 4, 90, 256));
}

#[test]
fn a_dash_is_a_line_between_two_changes() {
    let at = |x: u32| point(x as f32, 0.0);
    let walk = Walk { points: vec![at(0), at(10), at(20)], on: true, cuts: vec![Some(vec![at(4), at(8)]), Some(vec![at(12)])] };
    assert_eq!(stroke::dashed(&[walk]), [vec![at(0), at(4)], vec![at(8), at(10), at(12)]]);
    let gap = Walk { points: vec![at(0), at(10)], on: false, cuts: vec![Some(vec![at(4)])] };
    assert_eq!(stroke::dashed(&[gap]), [vec![at(4), at(10)]]);
    let level = Walk { points: vec![at(0), at(0), at(10)], on: true, cuts: vec![None, Some(vec![])] };
    assert_eq!(stroke::dashed(&[level]), [vec![at(0), at(10)]]);
    assert!(stroke::in_a_dash(0) && !stroke::in_a_dash(1) && stroke::in_a_dash(2));
}

// Spans and filters.

#[test]
fn a_trim_keeps_every_weight() {
    let trimmed = |weights: &[f32]| span::trim(&weights.iter().map(|weight| word(*weight)).collect::<Vec<u32>>());
    assert_eq!(trimmed(&[0.0, 0.0, 0.5, 0.0, 1.0, 0.0]), Some((2, 5)));
    assert_eq!(trimmed(&[0.0, -0.0]), None);
    assert_eq!(trimmed(&[]), None);
    let parts = span::composite_span(9, 11, true, true);
    assert_eq!((parts.wide, parts.count), (8, 9));
    assert_eq!(span::composite_span(9, 11, true, false).wide, 0);
}

#[test]
fn a_kernel_falls_on_the_run_it_is_in() {
    assert_eq!(filter::taps_on(5, 20, 5), Taps { first: 0, last: 5, pixel: 3 });
    assert_eq!(filter::taps_on(0, 20, 5), Taps { first: 2, last: 5, pixel: 0 });
    assert_eq!(filter::taps_on(19, 20, 5), Taps { first: 0, last: 3, pixel: 17 });
    assert_eq!(filter::taps_on(0, 1, 5), Taps { first: 2, last: 3, pixel: 0 });
    assert_eq!((filter::wrap(-1, 8), filter::wrap(17, 8), filter::wrap(-16, 8)), (7, 1, 0));
}

#[test]
fn a_graph_is_evaluated_node_by_node_and_lends_nothing_out() {
    let bounds = area(4, 4, 6, 6);
    let mut source = Surface::new(bounds);
    source.set(6, 6, [1, 1, 1, word(1.0)]);
    let backdrop = Surface::new(bounds);
    let nodes = [
        FilterNode::Source,
        FilterNode::Offset { input: 0 },
        FilterNode::Crop { input: 1, keep: Keep { left: 4, top: 4, right: 7, bottom: 10 } },
    ];
    let mut pool = Pool::new();
    let short = filter::evaluate(&nodes, &source, &backdrop, bounds, &mut pool, &[], 9);
    assert_eq!(short.err(), Some(Error::LimitExceeded { limit: Limit::PreparedScratch, ceiling: 9 }));
    pool.reserve(3, (6, 6));
    match filter::evaluate(&nodes, &source, &backdrop, bounds, &mut pool, &[], 9).unwrap() {
        Evaluation::Pending { node, inputs } => {
            assert_eq!(node, 1);
            assert_eq!(inputs.len(), 1);
            assert_eq!(inputs[0][2 * 6 + 2], [1, 1, 1, word(1.0)], "the source is handed over");
        }
        Evaluation::Finished(_) => panic!("an offset is the caller's"),
    }
    assert_eq!(pool.available(), 3, "a graph that waits holds no surface");
    let mut block = vec![TRANSPARENT; 36];
    block[2 * 6 + 2] = colour(9);
    block[2 * 6 + 4] = colour(20);
    match filter::evaluate(&nodes, &source, &backdrop, bounds, &mut pool, &[block], 9).unwrap() {
        Evaluation::Finished(surface) => {
            assert_eq!(surface.get(6, 6), colour(9), "inside the crop");
            assert_eq!(surface.get(8, 6), TRANSPARENT, "and outside it");
        }
        Evaluation::Pending { .. } => panic!("everything was computed"),
    }
    assert_eq!(pool.available(), 2);
}

// Paints.

#[test]
fn a_ramp_ascends_and_keeps_stops_at_one_offset_in_order() {
    let ramp = Ramp::new(&[(word(1.0), colour(4)), (word(0.5), colour(1)), (word(0.5), colour(2)), (word(-3.0), colour(0)), (word(9.0), colour(5))]);
    assert_eq!(ramp.stops.iter().map(|stop| stop.1[0]).collect::<Vec<u32>>(), [0, 1, 2, 4, 5]);
    let at = |position: f32| ramp.at(word(position));
    assert_eq!(at(0.0), Mixture::Plain(colour(0)));
    assert_eq!(at(-1.0), Mixture::Plain(colour(0)));
    assert_eq!(at(2.0), Mixture::Plain(colour(5)));
    assert_eq!(at(0.25), Mixture::Between((word(0.0), colour(0)), (word(0.5), colour(1))));
    assert_eq!(at(0.75), Mixture::Between((word(0.5), colour(2)), (word(1.0), colour(4))));
    assert_eq!(Ramp::new(&[]).at(0), Mixture::Clear);
    assert_eq!(paint::spread_position(word(1.5), Spread::Clamp), Some(word(1.0)));
    assert_eq!(paint::spread_position(word(1.5), Spread::Mirror), None);
    assert_eq!(paint::spread_position(word(f32::NAN), Spread::Repeat), Some(0));
    let root = |t: f32, radius: f32| (word(t), word(radius));
    assert_eq!(paint::front_root(root(2.0, 1.0), root(1.0, 1.0)), Some(word(2.0)));
    assert_eq!(paint::front_root(root(2.0, -1.0), root(1.0, 0.0)), Some(word(1.0)));
    assert_eq!(paint::front_root(root(2.0, -1.0), root(1.0, -1.0)), None);
}

/// One image with planes, one with pixels only.
struct TwoImages;

impl ImageSource for TwoImages {
    fn image(&self, identity: u64) -> Option<Source> {
        if identity == 7 {
            Some(Source { decoded: false, direct: true })
        } else {
            None
        }
    }

    fn planes(&self, identity: u64) -> Option<Source> {
        if identity == 8 {
            Some(Source { decoded: true, direct: true })
        } else {
            None
        }
    }
}

#[test]
fn what_is_missing_draws_nothing_and_what_is_there_is_sampled() {
    let image = |index: u32, quality: ImageQuality| Paint::Image { image: index, quality };
    let shaded = |paint: Paint| paint::shader(paint, true, 1, &[7, 8, 9], &TwoImages);
    let sampled = |index: u32, quality: ImageQuality, from: Sampled| Shader::Image { image: index, quality, from };
    assert_eq!(shaded(Paint::Solid), Shader::Solid);
    assert_eq!(shaded(Paint::Linear { stops: 0 }), Shader::Linear { stops: 0 });
    assert_eq!(shaded(Paint::Radial { stops: 1 }), Shader::Nothing);
    assert_eq!(shaded(Paint::Conic { stops: 0 }), Shader::Conic { stops: 0 });
    assert_eq!(shaded(image(0, ImageQuality::Bilinear)), sampled(0, ImageQuality::Bilinear, Sampled::Packed));
    assert_eq!(shaded(image(1, ImageQuality::Bilinear)), sampled(1, ImageQuality::Bilinear, Sampled::LevelZero));
    assert_eq!(shaded(image(1, ImageQuality::Mipmapped)), sampled(1, ImageQuality::Mipmapped, Sampled::Planes));
    assert_eq!(shaded(image(2, ImageQuality::Nearest)), Shader::Nothing, "no source has it");
    assert_eq!(shaded(image(3, ImageQuality::Nearest)), Shader::Nothing, "nobody recorded it");
    assert_eq!(paint::shader(Paint::Solid, false, 1, &[], &NoImages), Shader::Nothing, "a collapsed space");
    assert_eq!(paint::shader(image(0, ImageQuality::Nearest), true, 1, &[7], &NoImages), Shader::Nothing);

    assert_eq!(Shader::Solid.row(0, false), RowPlan::Solid);
    assert_eq!(Shader::Nothing.row(0, false), RowPlan::Clear);
    assert_eq!(Shader::Linear { stops: 0 }.row(0, false), RowPlan::RampEnd);
    assert_eq!(Shader::Linear { stops: 0 }.row(word(4.0), false), RowPlan::PerPixel);
    assert_eq!(sampled(0, ImageQuality::Mipmapped, Sampled::Packed).row(0, true), RowPlan::Pyramid);
    assert_eq!(sampled(0, ImageQuality::Bicubic, Sampled::Packed).row(0, true), RowPlan::PerPixel);
    assert!(Shader::Solid.is_opaque_solid(word(1.0)) && !Shader::Solid.is_opaque_solid(word(0.5)) && !Shader::Nothing.is_opaque_solid(word(1.0)));

    let fill = |paint: Paint| Command::DrawGlyphRun { run: 0, reach: None, paint, ink: plain() };
    assert!(backend::wants_pyramid(&[fill(Paint::Solid), fill(image(4, ImageQuality::Mipmapped))], 4));
    assert!(!backend::wants_pyramid(&[fill(image(4, ImageQuality::Bicubic)), fill(image(5, ImageQuality::Mipmapped))], 4));
}

// Glyphs.

fn key(glyph: u32) -> GlyphCacheKey {
    GlyphCacheKey { face: 1, face_index: 0, generation: 1, glyph, size: 512, variation: 0, transform: 0, phase_x: 0, phase_y: 0, kind: GlyphKind::Outline, strike: None, palette: None, mode: RasterisationMode::Grayscale }
}

fn outline(size: u64) -> GlyphImage {
    GlyphImage::Outline { path: 0, size }
}

#[test]
fn a_cache_is_bounded_and_the_oldest_leave_first() {
    let mut cache = GlyphRaster::new(100);
    assert_eq!(cache.keep(&key(1), None), None, "the glyph has to be decoded");
    assert_eq!(cache.keep(&key(1), Some(outline(40))), Some(0));
    assert_eq!(cache.keep(&key(2), Some(outline(40))), Some(1));
    assert_eq!(cache.keep(&key(1), None), Some(0), "a cached glyph is found again");
    assert_eq!(cache.keep(&key(3), Some(outline(40))), Some(1));
    assert_eq!((cache.position(&key(1)), cache.position(&key(2)), cache.position(&key(3))), (None, Some(0), Some(1)));
    assert_eq!((cache.bytes(), cache.len()), (80, 2));
    assert_eq!(cache.keep(&key(4), Some(outline(500))), Some(0), "one glyph over the ceiling is alone");
    assert_eq!((cache.bytes(), cache.len()), (500, 1));
    assert_eq!(cache.get(&key(5), &NoGlyphs), 0);
    assert_eq!(cache.entries[0].1.kind(), None);
    assert_eq!(NoGlyphs.glyph(&key(6)).bytes(), 0);
    let before = cache.generation();
    cache.clear();
    assert_eq!((cache.len(), cache.bytes(), cache.generation()), (0, 0, before + 1));
    let mask = GlyphImage::Mask { left: 0, top: 0, width: 2, height: 1, coverage: vec![1, 2], mode: RasterisationMode::Subpixel(SubpixelLayout::Unknown) };
    assert_eq!((mask.bytes(), mask.kind()), (2, Some(GlyphKind::SubpixelMask)));
    assert_eq!(GlyphImage::Layers { paths: vec![], size: 3 }.kind(), Some(GlyphKind::ColrLayers));
    assert_eq!(GlyphImage::Bitmap { left: 0, top: 0, image: 0, size: 3 }.kind(), Some(GlyphKind::BitmapStrike));
}

#[test]
fn coverage_is_filtered_and_ordered_by_its_layout() {
    assert_eq!(glyph::filter_subpixel(&[0, 0, 90, 0, 0], [1, 2, 3, 2, 1]), [10, 20, 30, 20, 10]);
    assert_eq!(glyph::filter_subpixel(&[255; 3], [9, 9, 9, 9, 9]), [255; 3], "coverage is full at most");
    assert_eq!(glyph::filter_subpixel(&[9, 0], [1, 2, 3, 2, 1]), [3, 2]);
    let order = |layout: SubpixelLayout| glyph::subpixel_channels(RasterisationMode::Subpixel(layout));
    let named = |red: usize, green: usize, blue: usize, mean: bool| ChannelOrder { red, green, blue, mean };
    assert_eq!(order(SubpixelLayout::RgbVertical), named(0, 1, 2, true));
    assert_eq!(order(SubpixelLayout::BgrHorizontal), named(2, 1, 0, true));
    assert_eq!(order(SubpixelLayout::Unknown), named(0, 0, 0, false));
    assert_eq!(glyph::subpixel_channels(RasterisationMode::Grayscale), named(0, 0, 0, false));
}

#[test]
fn a_pen_advances_and_a_glyph_lands_inside_its_bounds() {
    let step = |x_offset: i32, y_offset: i32, x_advance: i32, y_advance: i32| RunGlyph { glyph: 0, x_offset, y_offset, x_advance, y_advance, kind: GlyphKind::Outline, strike: None, palette: None };
    let places = glyph::glyph_positions((64, 128), &[step(5, -5, 100, 1), step(0, 0, i32::MAX, 0), step(7, 0, 0, 0)]);
    assert_eq!(places, [(69, 123), (164, 129), (i32::MAX, 129)]);
    assert_eq!(glyph::add_fixed(i32::MIN, -1), i32::MIN);
    let mut clips = ClipStack::new();
    clips.reset(area(0, 0, 8, 8));
    clips.push(ClipLevel::rectangle(area(0, 0, 3, 8)));
    let landed = glyph::mask_landings((1, 7), 3, 2, &[9, 0, 8, 7, 6, 5], RasterisationMode::Grayscale, area(0, 0, 8, 8), &clips);
    assert_eq!(landed.iter().map(|at| (at.x, at.y, at.column, at.row, at.triple)).collect::<Vec<(u32, u32, u32, u32, [u8; 3])>>(), [(1, 7, 0, 0, [9; 3])], "no coverage, clipped and below the bounds");
    let triples = glyph::mask_landings((0, 0), 1, 1, &[0, 4, 0], RasterisationMode::Subpixel(SubpixelLayout::RgbHorizontal), area(0, 0, 8, 8), &clips);
    assert_eq!(triples[0].triple, [0, 4, 0]);
    let bitmap = glyph::bitmap_landings((-1, -1), 3, 2, area(0, 0, 8, 8), &clips);
    assert_eq!(bitmap.iter().map(|at| (at.x, at.y, at.column, at.row)).collect::<Vec<(u32, u32, u32, u32)>>(), [(0, 0, 1, 1), (1, 0, 2, 1)]);
}

// Covering fills.

fn plain() -> Ink {
    Ink { opacity: word(1.0), blend: NORMAL, operator: SOURCE_OVER }
}

#[test]
fn a_plain_rectangle_covers_its_inner_pixels() {
    assert_eq!(cover::inner_pixels(&[rect(0.5, 1.0, 4.0, 3.0)]), Some(Inner { left: 1, top: 1, right: 4, bottom: 4 }));
    let mut closed = rect(0.5, 1.0, 4.0, 3.0);
    closed[2] = point(4.5, 5.0);
    assert_eq!(cover::inner_pixels(&[closed]), None, "no rectangle");
    assert_eq!(cover::inner_pixels(&[rect(0.0, 0.0, 4.0, 4.0), rect(1.0, 1.0, 2.0, 2.0)]), None, "two contours");
    assert!(cover::is_overwriting(Paint::Solid, word(1.0), plain()));
    assert!(!cover::is_overwriting(Paint::Solid, word(0.9), plain()));
    assert!(!cover::is_overwriting(Paint::Linear { stops: 0 }, word(1.0), plain()));
    assert!(!cover::is_overwriting(Paint::Solid, word(1.0), Ink { opacity: word(0.5), ..plain() }));
    assert!(!cover::is_overwriting(Paint::Solid, word(1.0), Ink { blend: 3, ..plain() }));
    assert!(!cover::is_overwriting(Paint::Solid, word(1.0), Ink { operator: 3, ..plain() }));

    let inner = Some(Inner { left: 0, top: 0, right: 64, bottom: 64 });
    assert!(cover::is_overwritten(&[None, inner], &[0, 1], &area(0, 0, 64, 64)));
    assert!(!cover::is_overwritten(&[None, inner], &[0], &area(0, 0, 64, 64)), "the tile does not replay it");
    assert!(!cover::is_overwritten(&[None, inner], &[0, 1], &area(0, 0, 65, 64)));

    let mut open = Open::nothing();
    let layer = Step::BeginLayer { bounds: None, ink: plain(), filter: None };
    for (step, nothing) in [(&layer, false), (&Step::PopClip, false), (&Step::EndLayer, true), (&Step::EndLayer, true), (&Step::PushClipMask { image: 0, inverse: false }, false), (&Step::PopClip, true)] {
        open.pass(step);
        assert_eq!(open.is_nothing(), nothing, "{step:?}");
    }
}

// Refusals.

#[test]
fn a_fault_of_an_image_is_named_for_the_drawing() {
    assert_eq!(error::from_core(ImageFault::Allocation, 9), Error::Allocation);
    for fault in [ImageFault::Overflow, ImageFault::ZeroExtent, ImageFault::PitchTooSmall, ImageFault::BufferTooShort] {
        assert_eq!(error::from_core(fault, 9), Error::LimitExceeded { limit: Limit::TargetExtent, ceiling: 9 });
    }
    assert_eq!(error::from_core(ImageFault::Other, 9), Error::UnknownResource { kind: ResourceKind::Image, index: 0 });
}

#[test]
fn contours_are_bounded_by_their_finite_points() {
    let at = |x: f32, y: f32| (x.to_bits(), y.to_bits());
    let contours = vec![vec![at(3.0, -2.0), at(f32::NAN, 9.0)], vec![], vec![at(-1.5, 4.0), at(7.0, f32::INFINITY)]];
    let bounds = contour_bounds(&contours).unwrap();
    assert_eq!((bounds.low, bounds.high), (at(-1.5, -2.0), at(3.0, 4.0)));
    assert!(contour_bounds(&[vec![at(f32::NAN, 0.0)], vec![]]).is_none());
    assert!(contour_bounds(&[]).is_none());
}

#[test]
fn a_run_reaches_around_the_corners_it_maps() {
    let at = |x: f32, y: f32| (x.to_bits(), y.to_bits());
    let bounds = glyph_run_bounds(&[Some(at(2.0, 5.0)), None, Some(at(-4.0, 1.0)), Some(at(f32::NAN, 8.0))]).unwrap();
    assert_eq!((bounds.low, bounds.high), (at(-4.0, 1.0), at(2.0, 8.0)));
    assert!(glyph_run_bounds(&[None, None]).is_none());
}

#[test]
fn a_pool_keeps_what_it_held_and_makes_up_the_rest() {
    let mut pool = MaskPool::new();
    pool.reserve(1, 3);
    let mut mask = pool.take().unwrap();
    mask[1] = 9;
    pool.give(mask);
    pool.reserve(2, 3);
    assert_eq!(pool.free, vec![vec![0, 9, 0], vec![0, 0, 0]]);
    pool.reserve(1, 2);
    assert_eq!(pool.free, vec![vec![0, 0]]);
}

#[test]
fn an_edge_is_in_a_row_where_it_has_a_height_there() {
    let pair = |from: f32, to: f32| (word(from), word(to));
    assert_eq!(area::within_row(pair(0.5, 9.0), pair(2.0, 3.0)), Some(pair(2.0, 3.0)));
    assert_eq!(area::within_row(pair(2.25, 2.5), pair(2.0, 3.0)), Some(pair(2.25, 2.5)));
    assert_eq!(area::within_row(pair(3.0, 4.0), pair(2.0, 3.0)), None);
}

#[test]
fn the_columns_an_edge_crosses() {
    let way = |x0: f32, x1: f32, dy: f32| area::across(word(x0), word(x1), word(x1 - x0), word(dy), 8, word(8.0));
    assert_eq!(way(1.0, 2.0, 0.0), Across::Nothing);
    assert_eq!(way(1.5, 1.5, 1.0), Across::Upright);
    assert_eq!(way(1.5, 3.25, 1.0), Across::Slanted { seeds: false, rising: true, columns: Some((1, 3)) });
    assert_eq!(way(3.25, -2.0, 1.0), Across::Slanted { seeds: true, rising: false, columns: Some((0, 3)) });
    assert_eq!(way(6.0, 900.0, 1.0), Across::Slanted { seeds: false, rising: true, columns: Some((6, 7)) });
    assert_eq!(way(-9.0, -1.0, 1.0), Across::Slanted { seeds: true, rising: true, columns: None });
    assert_eq!(way(8.0, 9.0, 1.0), Across::Slanted { seeds: false, rising: true, columns: None });
}

#[test]
fn the_parts_of_an_edge() {
    let pair = |from: f32, to: f32| Some((word(from), word(to)));
    assert_eq!(area::left_part(true, word(0.25)), pair(0.0, 0.25));
    assert_eq!(area::left_part(false, word(0.25)), pair(0.25, 1.0));
    assert_eq!(area::left_part(true, word(-3.0)), None);
    assert_eq!(area::left_part(false, word(7.0)), None);
    assert_eq!(area::column_part(word(0.75), word(0.25)), pair(0.25, 0.75));
    assert_eq!(area::column_part(word(-1.0), word(4.0)), pair(0.0, 1.0));
    assert_eq!(area::column_part(word(1.0), word(2.0)), None);
    assert_eq!(area::land(word(3.0), word(0.5), 8), Landed::Column(3));
    assert_eq!(area::land(word(3.0), word(0.0), 8), Landed::Nothing);
    assert_eq!(area::land(word(8.0), word(0.5), 8), Landed::Nothing);
    assert_eq!(area::land(word(-1.0), word(0.5), 8), Landed::Left);
    assert_eq!(area::land(word(-0.0), word(0.5), 8), Landed::Column(0));
}

#[test]
fn a_dash_pattern_is_walked_entry_by_entry() {
    let mut dasher = Dasher::new(vec![word(4.0), word(0.0), word(2.0)], word(6.0)).unwrap();
    assert_eq!(stroke::repeats(3), 2);
    assert_eq!(stroke::repeats(2), 1);
    // A phase of five passes the first entry and the empty one behind it.
    assert_eq!(dasher.pass(word(5.0)), Some(word(4.0)));
    assert_eq!(dasher.pass(word(1.0)), Some(word(0.0)));
    assert_eq!(dasher.pass(word(1.0)), None);
    assert!(dasher.on());
    assert_eq!(dasher.entry(), word(2.0));
    dasher.enter(word(1.0));
    assert_eq!(dasher.cut(word(10.0)), Some(word(1.0)));
    assert!(!dasher.on());
    assert_eq!(dasher.cut(word(3.0)), None);
    assert_eq!(dasher.cut(word(10.0)), Some(word(4.0)));
    // The empty entry is walked as the whole pattern, so that the walk goes on.
    assert_eq!(dasher.left, word(6.0));
    dasher.stay(word(0.5));
    assert_eq!(dasher.cut(word(1.0)), Some(word(0.5)));
    assert!(Dasher::new(vec![], word(6.0)).is_none());
    assert!(Dasher::new(vec![word(0.0)], word(0.0)).is_none());
    assert!(!stroke::measures(f32::INFINITY.to_bits()) && !stroke::measures(word(-1.0)) && stroke::measures(word(0.1)));
}

#[test]
fn a_blur_reaches_three_deviations_and_no_further_than_its_limit() {
    let radius = |deviation: f32, limit: f32| filter::kernel_radius(word(deviation), word((deviation * 3.0).ceil()), word(limit));
    assert_eq!(radius(2.5, 64.0), Some(8));
    assert_eq!(radius(0.1, 64.0), Some(1));
    assert_eq!(radius(900.0, 64.0), Some(64));
    assert_eq!(radius(f32::MAX, 64.0), Some(64));
    assert_eq!(radius(0.0, 64.0), None);
    assert_eq!(radius(f32::NAN, 64.0), None);
    assert_eq!(filter::divided_by(word(2.0), word(9.0)), word(2.0));
    assert_eq!(filter::divided_by(word(-0.0), word(9.0)), word(9.0));
    assert_eq!(filter::divided_by(word(0.0), word(0.0)), word(1.0));
}

#[test]
fn the_circles_through_a_point_are_counted() {
    assert_eq!(paint::roots(word(2.0), word(1.0), word(0.5)), Roots::Two);
    assert_eq!(paint::roots(word(2.0), word(1.0), word(-0.5)), Roots::Nothing);
    assert_eq!(paint::roots(word(0.0), word(-1.0), word(1.0)), Roots::One);
    assert_eq!(paint::roots(word(-0.0), word(f32::EPSILON), word(1.0)), Roots::Nothing);
}

/// A provider that answers with the glyph's own number.
struct Numbered;

impl GlyphProvider for Numbered {
    fn glyph(&self, key: &GlyphCacheKey) -> GlyphImage {
        GlyphImage::Outline { path: key.glyph as u64, size: 1 }
    }
}

#[test]
fn a_miss_keeps_what_the_provider_answers_for_that_key() {
    let key = |glyph: u32| GlyphCacheKey { face: 1, face_index: 0, generation: 0, glyph, size: 64, variation: 0, transform: 0, phase_x: 0, phase_y: 0, kind: GlyphKind::Outline, strike: None, palette: None, mode: RasterisationMode::Grayscale };
    let mut cache = GlyphRaster::new(100);
    for glyph in [7, 3, 7] {
        let place = cache.get(&key(glyph), &Numbered);
        assert!(matches!(cache.entries[place].1, GlyphImage::Outline { path, .. } if path == glyph as u64));
    }
    assert_eq!(cache.len(), 2);
}

#[test]
fn a_drawing_stores_nothing_outside_its_area() {
    let tile = PixelRect::new(4, 4, 4, 4);
    let (pool, masks) = (Pool::new(), MaskPool::new());
    let base = Surface::new(PixelRect::new(0, 0, 16, 16));
    let mut replay = Replay::begin(tile, base, pool, masks);
    let ink = Ink { opacity: 1.0_f32.to_bits(), blend: NORMAL, operator: SOURCE_OVER };
    let step = Step::Glyphs { run: 0, ink };
    let run = |x: u32, y: u32, value: u32| Span { x, y, values: vec![colour(value); 12] };
    let answer = Answer::Spans(vec![run(2, 5, 1), run(5, 6, 2), run(4, 3, 3), run(4, 8, 4), run(u32::MAX - 2, 5, 5), run(6, 5, 6)]);
    replay.perform(&step, &answer, &[], 0, 0).unwrap();
    assert_eq!([3, 4, 5, 6, 7, 8].map(|x| replay.get(x, 5)), [TRANSPARENT, colour(1), colour(1), colour(6), colour(6), TRANSPARENT]);
    assert_eq!([4, 5, 7, 8].map(|x| replay.get(x, 6)), [TRANSPARENT, colour(2), colour(2), TRANSPARENT]);
    assert_eq!([3, 8].map(|y| replay.get(5, y)), [TRANSPARENT; 2]);
}

#[test]
fn a_tap_off_the_surface_is_transparent() {
    let pixels: Vec<[u32; 4]> = (1..=6).map(colour).collect();
    assert_eq!(filter::tap(&pixels, 3, 2, 1), colour(6));
    for (x, y) in [(-1, 0), (3, 0), (0, -1), (0, 2), (i64::MIN, 0), (i64::MAX, i64::MAX), (0, i64::MAX)] {
        assert_eq!(filter::tap(&pixels, 3, x, y), TRANSPARENT, "({x}, {y})");
    }
    let corner = [[TRANSPARENT; 3], [TRANSPARENT, colour(1), colour(2)], [TRANSPARENT, colour(4), colour(5)]];
    assert_eq!(filter::nine_taps(&pixels, 3, 0, 0), corner);
    assert_eq!(filter::nine_taps(&pixels, 3, 1, 1)[0], [colour(1), colour(2), colour(3)]);
    assert_eq!(filter::four_cells(&pixels, 3, 1, 0), [colour(2), colour(3), colour(5), colour(6)]);
    assert_eq!(filter::four_cells(&pixels, 3, -1, -1), [TRANSPARENT, TRANSPARENT, TRANSPARENT, colour(1)]);
    assert_eq!(filter::four_cells(&pixels, 3, 2, 1), [colour(6), TRANSPARENT, TRANSPARENT, TRANSPARENT]);
    assert_eq!(filter::four_cells(&pixels, 3, i64::MAX, i64::MAX), [TRANSPARENT; 4]);
}

#[test]
fn a_glyph_is_keyed_by_its_run_its_form_and_its_phase() {
    let run = RunFace { face: 9, face_index: 2, generation: 3, size: 640, variation: 4, mode: RasterisationMode::Grayscale };
    let glyph = RunGlyph { glyph: 42, x_offset: 1, y_offset: 2, x_advance: 3, y_advance: 4, kind: GlyphKind::BitmapStrike, strike: Some(5), palette: Some(6) };
    let wanted = GlyphCacheKey { face: 9, face_index: 2, generation: 3, glyph: 42, size: 640, variation: 4, transform: 11, phase_x: 7, phase_y: 8, kind: GlyphKind::BitmapStrike, strike: Some(5), palette: Some(6), mode: RasterisationMode::Grayscale };
    assert_eq!(glyph::glyph_key(&run, &glyph, Some(11), (7, 8)), wanted);
    let unkeyed = GlyphCacheKey { transform: glyph::IDENTITY_TRANSFORM, ..wanted };
    assert_eq!(glyph::glyph_key(&run, &glyph, None, (7, 8)), unkeyed);
    assert_eq!(glyph::glyph_key(&run, &RunGlyph { x_offset: 64, x_advance: 0, ..glyph }, Some(11), (7, 8)), wanted, "its place is not part of it");
    assert_ne!(glyph::glyph_key(&run, &glyph, Some(11), (7, 9)), wanted);
    assert_eq!(glyph::linear_part([[1, 2, 3], [4, 5, 6]]), [1, 4, 2, 5, 0, 0], "a translation is not part of it either");
}
