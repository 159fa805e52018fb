//! The fixed-point grid, triangle setup, coverage, binning, assembly, lines and points.
use softgraphics::soft3d::clip::Varyings;
use softgraphics::soft3d::error::Error;
use softgraphics::soft3d::fixed;
use softgraphics::soft3d::fixed::{FixedFault, Subpixel};
use softgraphics::soft3d::frame::Stats;
use softgraphics::soft3d::geometry;
use softgraphics::soft3d::geometry::{Indices, Primitive, Topology};
use softgraphics::soft3d::raster;
use softgraphics::soft3d::raster::{Cull, Facing, PixelBox, SamplePosition, SampleTable, Setup};
use softgraphics::soft3d::shade;
use softgraphics::soft3d::shade::Projected;

fn near(left: f32, right: f32) -> bool {
    (left - right).abs() <= 1e-4
}

fn quantise(value: f32) -> Result<Subpixel, FixedFault> {
    fixed::quantise(value.to_bits())
}

/// One sample in the middle of a pixel, and a rotated grid of four.
fn table() -> SampleTable {
    let at = |x: i64, y: i64, index: u32| SamplePosition { x, y, index };
    SampleTable {
        entries: vec![
            (1, vec![at(128, 128, 0)]),
            (4, vec![at(96, 32, 0), at(224, 96, 1), at(32, 160, 2), at(160, 224, 3)]),
        ],
    }
}

fn coverage(setup: &Setup, x: i64, y: i64, samples: u32) -> Result<u32, Error> {
    let table = table();
    let positions = table.positions(samples)?;
    Ok(raster::coverage(setup, x, y, positions))
}

fn window(points: [(f32, f32); 3]) -> [(u32, u32); 3] {
    points.map(|(x, y)| (x.to_bits(), y.to_bits()))
}

fn flat_setup(points: [(f32, f32); 3], width: u32, height: u32) -> Option<Setup> {
    let one = 1.0_f32.to_bits();
    let half = 0.5_f32.to_bits();
    raster::setup(window(points), [one; 3], [half; 3], width, height).expect("the fixture's coordinates are in range")
}

fn covered_pixels(setup: &Setup, width: u32, height: u32) -> Vec<(i64, i64)> {
    let mut out = Vec::new();
    for y in 0..height as i64 {
        for x in 0..width as i64 {
            if coverage(setup, x, y, 1).unwrap() != 0 {
                out.push((x, y));
            }
        }
    }
    out
}

#[test]
fn the_edge_function_at_the_extremes_stays_inside_the_proven_bound() {
    let low = Subpixel(0);
    let high = Subpixel(fixed::MAX_SUBPIXEL_COORD);
    assert_eq!(fixed::MAX_SUBPIXEL_COORD, 1 << 22, "the proof is stated for 2^22 subpixel units");

    let value = fixed::edge((low, high), (high, low), (high, high));
    assert!(value.abs() <= 1_i64 << 45, "the header's bound is 2^45, and this is {value}");
    assert!(value.abs() > 1_i64 << 43, "and the worst case must actually reach it, or the proof is about nothing: {value}");

    assert_eq!(fixed::admit_coordinate(fixed::MAX_SUBPIXEL_COORD), Ok(high));
    assert_eq!(fixed::admit_coordinate(fixed::MAX_SUBPIXEL_COORD + 1), Err(FixedFault::OutOfRange { subpixel: fixed::MAX_SUBPIXEL_COORD + 1 }));
    assert_eq!(fixed::admit_coordinate(-1), Err(FixedFault::OutOfRange { subpixel: -1 }));
}

#[test]
fn a_coordinate_is_quantised_half_away_from_zero_and_a_bad_one_is_refused() {
    let unit = 1.0 / fixed::SUBPIXEL_ONE as f32;
    assert_eq!(quantise(0.0), Ok(Subpixel(0)));
    assert_eq!(quantise(1.0), Ok(Subpixel(fixed::SUBPIXEL_ONE)));
    assert_eq!(quantise(0.5 * unit), Ok(Subpixel(1)));
    assert_eq!(quantise(1.5 * unit), Ok(Subpixel(2)));
    assert_eq!(quantise(2.5 * unit), Ok(Subpixel(3)), "half-away, not half-to-even, which would give 2");

    assert_eq!(quantise(f32::NAN), Err(FixedFault::NotFinite));
    assert_eq!(quantise(f32::INFINITY), Err(FixedFault::NotFinite));
    assert!(matches!(quantise(-1.0), Err(FixedFault::OutOfRange { .. })), "a negative coordinate has not been clipped");
    assert!(matches!(quantise(fixed::MAX_RASTER_EXTENT as f32 + 1.0), Err(FixedFault::OutOfRange { .. })));
}

#[test]
fn quantising_agrees_with_wide_arithmetic() {
    let mut bits: u32 = 0x1234_5678;
    for _ in 0..20_000 {
        bits = bits.wrapping_mul(1_664_525).wrapping_add(1_013_904_223);
        let value = f32::from_bits(bits);
        let expected = if value.is_finite() {
            let scaled = value as f64 * 256.0;
            let rounded = if scaled >= 0.0 { (scaled + 0.5) as i64 } else { (scaled - 0.5) as i64 };
            fixed::admit_coordinate(rounded)
        } else {
            Err(FixedFault::NotFinite)
        };
        assert_eq!(fixed::quantise(bits), expected, "{value} ({bits:#x})");
    }
    for step in 0..40_000_u32 {
        let value = step as f32 * 0.137;
        let scaled = value as f64 * 256.0;
        assert_eq!(quantise(value), fixed::admit_coordinate((scaled + 0.5) as i64));
    }
}

#[test]
fn a_subpixel_is_in_the_pixel_below_it() {
    assert_eq!(Subpixel(0).pixel(), 0);
    assert_eq!(Subpixel(255).pixel(), 0);
    assert_eq!(Subpixel(256).pixel(), 1);
    assert_eq!(Subpixel(-1).pixel(), -1);
}

#[test]
fn a_triangle_with_no_area_is_skipped_and_is_not_an_error() {
    assert!(flat_setup([(0.0, 0.0), (10.0, 10.0), (20.0, 20.0)], 64, 64).is_none(), "three collinear points");
    assert!(flat_setup([(5.0, 5.0), (5.0, 5.0), (5.0, 5.0)], 64, 64).is_none(), "a collapsed vertex");
    let one = 1.0_f32.to_bits();
    let bad = window([(-1.0, 0.0), (10.0, 0.0), (0.0, 10.0)]);
    let refused = raster::setup(bad, [one; 3], [one; 3], 64, 64);
    assert!(refused.is_err());
    assert_eq!(refused.unwrap_err().refusal(), Error::InvalidTransform);
}

#[test]
fn the_rasterisers_facing_agrees_with_the_frozen_winding_before_the_y_flip() {
    // A counter-clockwise triangle in normalised coordinates, with Y up.
    let ndc = [(-0.5_f32, -0.5_f32), (0.5, -0.5), (0.0, 0.5)];
    let place = |p: (f32, f32)| ((p.0 + 1.0) * 50.0, (1.0 - p.1) * 50.0);
    let front = flat_setup([place(ndc[0]), place(ndc[1]), place(ndc[2])], 100, 100).unwrap();
    assert_eq!(front.facing, Facing::Front);
    let back = flat_setup([place(ndc[0]), place(ndc[2]), place(ndc[1])], 100, 100).unwrap();
    assert_eq!(back.facing, Facing::Back);
    assert!(back.double_area > 0, "a back face is rewound rather than given its own comparisons");

    assert!(raster::culled(Facing::Back, Cull::Back));
    assert!(!raster::culled(Facing::Front, Cull::Back));
    assert!(!raster::culled(Facing::Back, Cull::Nothing) && !raster::culled(Facing::Front, Cull::Nothing));
}

#[test]
fn two_triangles_sharing_an_edge_cover_every_sample_exactly_once() {
    let (width, height) = (32_u32, 32_u32);
    let lower = flat_setup([(4.0, 4.0), (20.0, 4.0), (20.0, 20.0)], width, height).unwrap();
    let upper = flat_setup([(4.0, 4.0), (20.0, 20.0), (4.0, 20.0)], width, height).unwrap();

    let mut counts = vec![0_u32; (width * height) as usize];
    for setup in [&lower, &upper] {
        for (x, y) in covered_pixels(setup, width, height) {
            counts[(y as u32 * width + x as u32) as usize] += 1;
        }
    }
    let doubled = counts.iter().filter(|count| **count > 1).count();
    assert_eq!(doubled, 0, "{doubled} samples were filled twice, so the shared edge double-fills");
    for y in 4..20 {
        for x in 4..20 {
            assert_eq!(counts[(y * width + x) as usize], 1, "the sample at ({x}, {y}) was filled {} times", counts[(y * width + x) as usize]);
        }
    }
    assert_eq!(counts.iter().filter(|count| **count > 0).count(), 16 * 16);
}

#[test]
fn a_triangle_smaller_than_a_pixel_is_kept_and_answers_by_coverage() {
    let covering = flat_setup([(8.3, 8.3), (8.8, 8.3), (8.5, 8.8)], 32, 32).unwrap();
    assert_ne!(coverage(&covering, 8, 8, 1).unwrap(), 0, "it contains the sample point");
    assert_eq!(covered_pixels(&covering, 32, 32).len(), 1);

    let missing = flat_setup([(8.05, 8.05), (8.3, 8.05), (8.15, 8.3)], 32, 32).unwrap();
    assert_eq!(coverage(&missing, 8, 8, 1).unwrap(), 0);
    assert!(covered_pixels(&missing, 32, 32).is_empty(), "no sample point is inside it");
    assert!(missing.double_area > 0, "and it was not discarded as degenerate");
}

#[test]
fn partial_coverage_at_four_samples_is_neither_empty_nor_full() {
    let setup = flat_setup([(0.0, 16.0), (16.0, 0.0), (0.0, 0.0)], 32, 32).unwrap();
    let partial = (0..16_i64).filter(|step| {
        let mask = coverage(&setup, 16 - 1 - step, *step, 4).unwrap();
        mask != 0 && mask != 0b1111
    });
    assert!(partial.count() > 0, "no pixel along the diagonal has partial coverage, so multisampling is not sampling");
    assert_eq!(coverage(&setup, 2, 2, 4).unwrap(), 0b1111);
    assert_eq!(coverage(&setup, 14, 14, 4).unwrap(), 0);
    assert!(coverage(&setup, 0, 0, 3).is_err());
    assert_eq!(coverage(&setup, 0, 0, 3), Err(Error::UnsupportedSampleCount { samples: 3 }));
}

#[test]
fn a_triangle_reaches_every_tile_its_box_touches_and_the_bins_are_reused() {
    let mut bins = raster::Bins::new(128, 128);
    assert_eq!((bins.across(), bins.down()), (4, 4));
    bins.insert(7, &PixelBox { x0: 10, y0: 10, x1: 40, y1: 40 });
    assert_eq!(bins.tile(0, 0), &[7]);
    assert_eq!(bins.tile(1, 1), &[7]);
    assert!(bins.tile(2, 2).is_empty());
    bins.insert(9, &PixelBox { x0: 70, y0: 70, x1: 80, y1: 80 });
    assert_eq!(bins.tile(2, 2), &[9]);
    assert_eq!(bins.tile(0, 0), &[7], "and does not leak into another");

    bins.clear();
    assert!(bins.tile(0, 0).is_empty() && bins.tile(2, 2).is_empty());
    bins.resize(120, 120);
    assert_eq!((bins.across(), bins.down()), (4, 4));
    bins.resize(256, 64);
    assert_eq!((bins.across(), bins.down()), (8, 2));
    assert_eq!(bins.tile_box(7, 1, 256, 64), PixelBox { x0: 224, y0: 32, x1: 256, y1: 64 });

    bins.insert(3, &PixelBox { x0: 5, y0: 5, x1: 5, y1: 5 });
    assert!(bins.tile(0, 0).is_empty());
}

#[test]
fn the_barycentric_weights_sum_to_one_and_name_the_right_vertices() {
    let setup = flat_setup([(0.0, 0.0), (16.0, 0.0), (0.0, 16.0)], 32, 32).unwrap();
    let weights_at = |at: (Subpixel, Subpixel)| -> [f32; 3] {
        let area = setup.double_area as f64;
        raster::barycentric(&setup, at).map(|value| (value as f64 / area) as f32)
    };
    for (x, y) in [(1_i64, 1_i64), (4, 2), (2, 8), (7, 7)] {
        let at = (Subpixel(x * fixed::SUBPIXEL_ONE + fixed::SUBPIXEL_HALF), Subpixel(y * fixed::SUBPIXEL_ONE + fixed::SUBPIXEL_HALF));
        let weights = weights_at(at);
        assert!(near(weights[0] + weights[1] + weights[2], 1.0), "at ({x}, {y}) the weights are {weights:?}");
        assert!(weights.iter().all(|weight| *weight >= -1e-4), "and none is negative inside the triangle: {weights:?}");
    }
    let weights = weights_at((Subpixel(0), Subpixel(0)));
    assert!(near(weights[0], 1.0) && near(weights[1], 0.0) && near(weights[2], 0.0), "{weights:?}");
}

fn assemble(topology: Topology, indices: Indices<'_>, count: u32, restart: bool) -> Vec<Primitive> {
    let mut out = Vec::new();
    let mut run = Vec::new();
    geometry::assemble(topology, indices, count, 0, restart, &mut out, &mut run).expect("the fixture's indices are in range");
    out
}

fn triangles(primitives: &[Primitive]) -> Vec<[u32; 3]> {
    primitives
        .iter()
        .filter_map(|primitive| match primitive {
            Primitive::Triangle { vertices, .. } => Some(*vertices),
            _ => None,
        })
        .collect()
}

#[test]
fn each_topology_assembles_the_primitives_its_definition_gives() {
    assert_eq!(triangles(&assemble(Topology::TriangleList, Indices::Sequential, 6, false)), vec![[0, 1, 2], [3, 4, 5]]);
    assert_eq!(triangles(&assemble(Topology::TriangleStrip, Indices::Sequential, 5, false)), vec![[0, 1, 2], [2, 1, 3], [2, 3, 4]]);
    assert_eq!(triangles(&assemble(Topology::TriangleFan, Indices::Sequential, 5, false)), vec![[0, 1, 2], [0, 2, 3], [0, 3, 4]]);

    let lines = assemble(Topology::LineList, Indices::Sequential, 4, false);
    assert_eq!(lines.len(), 2);
    assert!(matches!(lines[0], Primitive::Line { vertices: [0, 1], .. }));
    let strip = assemble(Topology::LineStrip, Indices::Sequential, 4, false);
    assert_eq!(strip.len(), 3);
    assert!(matches!(strip[2], Primitive::Line { vertices: [2, 3], .. }));
    assert_eq!(assemble(Topology::PointList, Indices::Sequential, 3, false).len(), 3);

    assert!(triangles(&assemble(Topology::TriangleList, Indices::Sequential, 5, false)).len() == 1);
    assert!(assemble(Topology::TriangleStrip, Indices::Sequential, 2, false).is_empty());
}

#[test]
fn primitive_restart_ends_a_strip_and_is_refused_on_a_list() {
    let indices: [u16; 8] = [0, 1, 2, 3, geometry::RESTART_U16, 10, 11, 12];
    let strip = assemble(Topology::TriangleStrip, Indices::U16(&indices), 8, true);
    assert_eq!(triangles(&strip), vec![[0, 1, 2], [2, 1, 3], [10, 11, 12]], "the restart began a new strip");

    let fan = assemble(Topology::TriangleFan, Indices::U16(&indices), 8, true);
    assert_eq!(triangles(&fan), vec![[0, 1, 2], [0, 2, 3], [10, 11, 12]]);

    let mut out = Vec::new();
    assert!(geometry::assemble(Topology::TriangleList, Indices::U16(&indices), 8, 0, true, &mut out, &mut Vec::new()).is_err());
    assert!(geometry::assemble(Topology::PointList, Indices::U16(&indices), 8, 0, true, &mut out, &mut Vec::new()).is_err());
}

#[test]
fn a_base_vertex_shifts_every_index_and_a_negative_sum_is_refused() {
    let indices: [u32; 3] = [0, 1, 2];
    let mut out = Vec::new();
    geometry::assemble(Topology::TriangleList, Indices::U32(&indices), 3, 100, false, &mut out, &mut Vec::new()).unwrap();
    assert_eq!(triangles(&out), vec![[100, 101, 102]]);
    assert!(geometry::assemble(Topology::TriangleList, Indices::U32(&indices), 3, -1, false, &mut out, &mut Vec::new()).is_err(), "index 0 with a base of -1 reads before the buffer");
    assert!(geometry::assemble(Topology::TriangleList, Indices::U32(&indices), 9, 0, false, &mut out, &mut Vec::new()).is_err());
}

#[test]
fn the_provoking_vertex_is_the_one_each_topology_names() {
    assert_eq!(geometry::provoking(Topology::TriangleList, 2), 6);
    assert_eq!(geometry::provoking(Topology::TriangleStrip, 2), 2);
    assert_eq!(geometry::provoking(Topology::TriangleFan, 2), 3, "not the hub");
    assert_eq!(geometry::provoking(Topology::LineList, 3), 6);
    assert_eq!(geometry::provoking(Topology::LineStrip, 3), 3);
    assert_eq!(geometry::provoking(Topology::PointList, 3), 3);
}

fn point(x: f32, y: f32) -> (Subpixel, Subpixel) {
    (quantise(x).unwrap(), quantise(y).unwrap())
}

#[test]
fn two_segments_meeting_end_to_end_light_the_shared_pixel_exactly_once() {
    let a = point(2.5, 8.5);
    let shared = point(10.5, 8.5);
    let b = point(18.5, 8.5);

    let mut counts = vec![0_u32; 32];
    for x in 0..32_i64 {
        if geometry::line_covers_pixel(a, shared, x, 8) {
            counts[x as usize] += 1;
        }
        if geometry::line_covers_pixel(shared, b, x, 8) {
            counts[x as usize] += 1;
        }
    }
    assert!(counts.iter().all(|count| *count <= 1), "a pixel was lit twice: {counts:?}");
    assert_eq!(counts[10], 1, "the shared pixel is lit exactly once");
    assert_eq!(counts[2..18].iter().filter(|count| **count == 1).count(), 16, "{counts:?}");
    assert_eq!(counts[18], 0, "the final endpoint's own pixel is not lit: the segment ends inside its diamond");
}

#[test]
fn a_segment_shorter_than_a_diamond_lights_nothing() {
    let from = point(8.5, 8.5);
    let to = point(8.6, 8.5);
    assert!(!geometry::line_covers_pixel(from, to, 8, 8));
    assert!(!geometry::line_covers_pixel(from, from, 8, 8), "a zero-length segment");
    let lit = (0..16_i64).filter(|step| geometry::line_covers_pixel(point(0.5, 0.5), point(15.5, 15.5), *step, *step)).count();
    assert!(lit >= 14, "a diagonal segment lights its own pixels: {lit}");
}

fn point_size(requested: f32) -> u32 {
    geometry::point_size(requested.to_bits())
}

#[test]
fn two_adjacent_points_tile_without_overlapping() {
    assert_eq!(point_size(0.0), 0, "a size of zero draws nothing rather than one pixel");
    assert_eq!(point_size(-3.0), 0);
    assert_eq!(point_size(0.4), 1, "and anything positive is clamped up to one");
    assert_eq!(point_size(3.5), 4, "rounded half away from zero");
    assert_eq!(point_size(1000.0), f32::from_bits(geometry::MAX_POINT_SIZE) as u32);
    assert_eq!(point_size(f32::NAN), 0);

    let left = point(8.0, 8.0);
    let right = point(12.0, 8.0);
    let mut counts = vec![0_u32; 32];
    for x in 0..32_i64 {
        let sample = (Subpixel(x * fixed::SUBPIXEL_ONE + fixed::SUBPIXEL_HALF), Subpixel(8 * fixed::SUBPIXEL_ONE + fixed::SUBPIXEL_HALF));
        if geometry::point_covers(left, 4, sample) {
            counts[x as usize] += 1;
        }
        if geometry::point_covers(right, 4, sample) {
            counts[x as usize] += 1;
        }
    }
    assert!(counts.iter().all(|count| *count <= 1), "the squares overlap: {counts:?}");
    assert_eq!(counts.iter().filter(|count| **count == 1).count(), 8, "four pixels each: {counts:?}");
}

#[test]
fn a_point_size_is_rounded_and_held() {
    for step in 1..1000_u32 {
        let value = step as f32 * 0.1;
        let expected = (value.clamp(1.0, 64.0) as f64 + 0.5) as u32;
        assert_eq!(point_size(value), expected, "{value}");
    }
    assert_eq!(point_size(f32::INFINITY), 0);
}

#[test]
fn a_primitive_carries_its_index() {
    let list = assemble(Topology::TriangleList, Indices::Sequential, 9, false);
    let indices: Vec<u32> = list.iter().map(|primitive| primitive.index()).collect();
    assert_eq!(indices, vec![0, 1, 2]);
    assert_eq!(Indices::U16(&[1, 2]).len(), 2);
    assert_eq!(Indices::U32(&[7, 8]).at(1, 0), Ok(Some(8)));
}

#[test]
fn a_tile_box_and_a_held_box_stay_in_the_target() {
    let held = PixelBox { x0: -4, y0: 3, x1: 900, y1: 40 }.clamped(64, 32);
    assert_eq!(held, PixelBox { x0: 0, y0: 3, x1: 64, y1: 32 });
    assert!(PixelBox { x0: 5, y0: 5, x1: 5, y1: 9 }.is_empty());
    assert!(!held.is_empty());
    assert_eq!(raster::tile_area(1, 0, 40, 20), PixelBox { x0: 32, y0: 0, x1: 40, y1: 20 });
}

#[test]
fn the_depth_bound_of_a_tile_only_narrows() {
    let mut bins = raster::Bins::new(64, 64);
    let far = bins.tile_far(1, 1);
    let nearer = 0.25_f32.to_bits();
    bins.narrow_tile_far(1, 1, nearer);
    assert_eq!(bins.tile_far(1, 1), nearer);
    bins.narrow_tile_far(1, 1, 0.75_f32.to_bits());
    assert_eq!(bins.tile_far(1, 1), nearer);
    assert_eq!(bins.tile_far(0, 0), far);
    bins.reset_depth();
    assert_eq!(bins.tile_far(1, 1), far);
}

#[test]
fn what_was_assembled_before_a_bad_index_is_kept() {
    let (mut out, mut run) = (Vec::new(), Vec::new());
    let indices: [u32; 5] = [0, 1, 2, 3, 4];
    assert!(geometry::assemble(Topology::TriangleList, Indices::U32(&indices), 5, 0, false, &mut out, &mut run).is_ok());
    assert_eq!((triangles(&out), run.clone()), (vec![[0, 1, 2]], vec![3, 4]));
    // Index four, moved by the base, is below the first vertex.
    let indices: [u32; 5] = [9, 8, 7, 6, 4];
    assert!(geometry::assemble(Topology::TriangleList, Indices::U32(&indices), 5, -5, false, &mut out, &mut run).is_err());
    assert_eq!((triangles(&out), run.clone()), (vec![[4, 3, 2]], vec![1]));
    assert!(geometry::assemble(Topology::TriangleList, Indices::U32(&indices), 5, 0, true, &mut out, &mut run).is_err());
    assert!(out.is_empty() && run.is_empty());
}

#[test]
fn the_line_parameter_is_the_projection_of_the_pixel_centre_onto_the_segment() {
    let parameter = |from, to, x: i64, y: i64| {
        let (at, whole) = geometry::line_parameter(from, to, x, y);
        (at as f64 / whole as f64) as f32
    };
    let (from, to) = (point(0.5, 0.5), point(16.5, 0.5));
    assert!(near(parameter(from, to, 0, 0), 0.0));
    assert!(near(parameter(from, to, 8, 0), 0.5));
    assert!(near(parameter(from, to, 16, 0), 1.0));
    assert!(near(parameter(from, to, 24, 0), 1.0));
    assert!(near(parameter(from, to, -3, 0), 0.0));
    assert_eq!(geometry::line_parameter(from, from, 9, 9), (0, 1));
}

fn provoking_vertices(topology: Topology, indices: &[u32], restart: bool) -> Vec<u32> {
    let (mut out, mut run) = (Vec::new(), Vec::new());
    geometry::assemble(topology, Indices::U32(indices), indices.len() as u32, 0, restart, &mut out, &mut run).unwrap();
    out.iter()
        .map(|primitive| match primitive {
            Primitive::Triangle { vertices, .. } => vertices[shade::flat_vertex(primitive)],
            Primitive::Line { vertices, .. } => vertices[shade::flat_vertex(primitive)],
            Primitive::Point { vertex, .. } => *vertex,
        })
        .collect()
}

#[test]
fn the_flat_vertex_is_the_provoking_one_of_the_primitive_as_assembled() {
    let restart = u32::MAX;
    // A quad of two triangles that share an edge.
    assert_eq!(provoking_vertices(Topology::TriangleList, &[0, 1, 2, 2, 1, 3], false), vec![0, 2]);
    // The first behind the hub, and not the hub.
    assert_eq!(provoking_vertices(Topology::TriangleFan, &[5, 6, 7, 8], false), vec![6, 7]);
    assert_eq!(provoking_vertices(Topology::TriangleStrip, &[9, 8, 7, 6, 5], false), vec![9, 8, 7]);
    // A restart starts the alternation anew.
    assert_eq!(provoking_vertices(Topology::TriangleStrip, &[9, 8, 7, 6, restart, 1, 2, 3, 4], true), vec![9, 8, 1, 2]);
    assert_eq!(provoking_vertices(Topology::LineStrip, &[4, 2, 9], false), vec![4, 2]);
    assert_eq!(provoking_vertices(Topology::PointList, &[4, 2], false), vec![4, 2]);
}

#[test]
fn an_empty_box_is_in_no_bin_however_far_it_is() {
    let mut bins = raster::Bins::new(64, 64);
    bins.insert(0, &PixelBox { x0: 5, y0: 0, x1: 5, y1: i64::MAX });
    assert!((0..bins.down()).all(|y| (0..bins.across()).all(|x| bins.tile(x, y).is_empty())));
}

#[test]
fn a_point_keeps_the_values_of_each_qualifier_apart() {
    let list = |values: &[f32]| Varyings::from_slice(&values.iter().map(|value| value.to_bits()).collect::<Vec<u32>>()).unwrap();
    let at = Projected { x: 3.5_f32.to_bits(), y: 4.5_f32.to_bits(), depth: 0.25_f32.to_bits(), inverse_w: 1.0_f32.to_bits() };
    let (mut points, mut stats) = (Vec::new(), Stats::new());
    let (smooth, linear) = (list(&[1.0; 20]), list(&[2.0; 20]));
    assert!(shade::stage_point(true, Ok(at), 4, smooth, linear, list(&[3.0]), &mut points, &mut stats).is_ok());
    assert!(shade::stage_point(false, Ok(at), 4, smooth, linear, list(&[3.0]), &mut points, &mut stats).is_ok());
    assert_eq!((points.len(), stats.culled), (1, 1));
    assert_eq!(points[0].smooth.as_slice(), smooth.as_slice());
    assert_eq!(points[0].noperspective.as_slice(), linear.as_slice());
    assert_eq!(points[0].flat.as_slice(), [3.0_f32.to_bits()]);
    assert_eq!((points[0].centre, points[0].size), (point(3.5, 4.5), 4));
}
