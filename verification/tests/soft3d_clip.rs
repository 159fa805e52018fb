//! Clipping against the seven planes, with the arithmetic of each plane supplied from here.
use softgraphics::soft3d::clip;
use softgraphics::soft3d::clip::{Classification, Clipped, Clipping, Crossing, Pass, Varyings, Vertex};
use softgraphics::soft3d::error::{Error, Limit};

fn near(left: f32, right: f32) -> bool {
    (left - right).abs() <= 1e-4
}

fn vertex(x: f32, y: f32, z: f32, w: f32) -> Vertex {
    Vertex::new([x, y, z, w].map(f32::to_bits))
}

fn position(vertex: &Vertex) -> [f32; 4] {
    vertex.position.map(f32::from_bits)
}

fn varyings(values: &[f32]) -> Varyings {
    let bits: Vec<u32> = values.iter().map(|value| value.to_bits()).collect();
    Varyings::from_slice(&bits).unwrap()
}

fn floats(varyings: &Varyings) -> Vec<f32> {
    varyings.as_slice().iter().map(|bits| f32::from_bits(*bits)).collect()
}

/// The signed distance to a plane: the eye plane first, then depth, then the sides.
fn distance(plane: usize, p: [f32; 4]) -> f32 {
    match plane {
        0 => p[3] - 1e-6,
        1 => p[2],
        2 => p[3] - p[2],
        3 => p[0] + p[3],
        4 => p[3] - p[0],
        5 => p[1] + p[3],
        _ => p[3] - p[1],
    }
}

fn classify(vertices: &[Vertex; 3]) -> Result<Classification, Error> {
    let positions: Vec<[f32; 4]> = vertices.iter().map(position).collect();
    if positions.iter().any(|p| p.iter().any(|c| !c.is_finite())) {
        return Err(Error::NonFinite);
    }
    if positions.iter().all(|p| p[3] <= 0.0) {
        return Ok(Classification::BehindEye);
    }
    for plane in 0..clip::PLANES {
        if positions.iter().all(|p| distance(plane, *p) < 0.0) {
            return Ok(Classification::Outside);
        }
    }
    if positions.iter().all(|p| (0..clip::PLANES).all(|plane| distance(plane, *p) >= 0.0)) {
        return Ok(Classification::Inside);
    }
    Ok(Classification::Clipped)
}

fn lerp(from: f32, to: f32, at: f32) -> f32 {
    (1.0 - at) * from + at * to
}

fn lerp_all(from: &Varyings, to: &Varyings, at: f32) -> Varyings {
    let mixed: Vec<f32> = floats(from).iter().zip(floats(to)).map(|(a, b)| lerp(*a, b, at)).collect();
    varyings(&mixed)
}

fn intersect(from: &Vertex, to: &Vertex, t: f32) -> Vertex {
    let (a, b) = (position(from), position(to));
    let mut mixed = [0_u32; 4];
    for axis in 0..4 {
        mixed[axis] = lerp(a[axis], b[axis], t).to_bits();
    }
    let denominator = (1.0 - t) * a[3] + t * b[3];
    let u = if denominator == 0.0 || !denominator.is_finite() { t } else { t * b[3] / denominator };
    Vertex::new(mixed)
        .with_smooth(lerp_all(&from.smooth, &to.smooth, t))
        .with_noperspective(lerp_all(&from.noperspective, &to.noperspective, u))
}

fn pass(plane: usize, polygon: &[Vertex]) -> Pass {
    let distances: Vec<f32> = polygon.iter().map(|v| distance(plane, position(v))).collect();
    let crossings = (0..polygon.len())
        .map(|index| {
            let next = (index + 1) % polygon.len();
            let denominator = distances[index] - distances[next];
            let vertex = if denominator == 0.0 { polygon[index] } else { intersect(&polygon[index], &polygon[next], distances[index] / denominator) };
            Crossing { denominator: denominator.to_bits(), vertex }
        })
        .collect();
    Pass { distances: distances.iter().map(|d| d.to_bits()).collect(), crossings }
}

fn clip_triangle(vertices: &[Vertex; 3], flat: Varyings) -> Result<Clipped, Error> {
    let classified = classify(vertices);
    let mut passes: Vec<Pass> = Vec::new();
    loop {
        match clip::clip_triangle(vertices, flat, classified, &passes)? {
            Clipping::Finished(clipped) => return Ok(clipped),
            Clipping::Pending { plane, polygon } => {
                assert_eq!(plane, passes.len());
                passes.push(pass(plane, &polygon));
            }
        }
    }
}

#[test]
fn a_triangle_is_cut_only_when_it_straddles_a_plane() {
    let inside = [vertex(-0.5, -0.5, 0.5, 1.0), vertex(0.5, -0.5, 0.5, 1.0), vertex(0.0, 0.5, 0.5, 1.0)];
    let clipped = clip_triangle(&inside, Varyings::empty()).unwrap();
    assert_eq!(clipped.vertices().len(), 3, "nothing was cut");
    assert_eq!(clipped.triangle(0), Some([0, 1, 2]));

    let outside = [vertex(5.0, 0.0, 0.5, 1.0), vertex(6.0, 0.0, 0.5, 1.0), vertex(5.5, 1.0, 0.5, 1.0)];
    assert!(clip_triangle(&outside, Varyings::empty()).unwrap().is_empty());

    let straddling = [vertex(0.0, -0.5, 0.5, 1.0), vertex(2.0, 0.0, 0.5, 1.0), vertex(0.0, 0.5, 0.5, 1.0)];
    let clipped = clip_triangle(&straddling, Varyings::empty()).unwrap();
    assert!(clipped.vertices().len() > 3, "a cut triangle has more vertices: {}", clipped.vertices().len());
    assert!(clipped.vertices().len() <= clip::MAX_CLIPPED_VERTICES);
    assert!(clipped.vertices().iter().all(|vertex| position(vertex)[0] <= position(vertex)[3] + 1e-5), "every vertex is inside the plane it was cut against");
    assert_eq!(clipped.triangle_count(), clipped.vertices().len() - 2);
}

#[test]
fn the_clipped_vertex_and_triangle_bounds_are_the_numbers_the_proof_gives() {
    assert_eq!(clip::MAX_CLIPPED_VERTICES, 9);
    assert_eq!(clip::MAX_TRIANGLES_AFTER_CLIP, 7);
    let containing = [vertex(-8.0, -8.0, 0.5, 1.0), vertex(8.0, -8.0, 0.5, 1.0), vertex(0.0, 8.0, 0.5, 1.0)];
    assert_eq!(clip_triangle(&containing, Varyings::empty()).unwrap().vertices().len(), 4, "the square cross-section of the volume");

    let mut most = 0;
    for step in 0..24 {
        let angle = step as f32 * 0.25;
        let reach = 1.2 + step as f32 * 0.3;
        let corners = [
            vertex(-reach, -0.8 + angle * 0.05, -0.4, 1.0),
            vertex(reach, -0.7 + angle * 0.05, 1.6, 1.0),
            vertex(0.1 * angle, reach, 0.5, 1.0),
        ];
        let clipped = clip_triangle(&corners, Varyings::empty()).unwrap();
        assert!(clipped.vertices().len() <= clip::MAX_CLIPPED_VERTICES, "step {step} produced {} vertices", clipped.vertices().len());
        assert!(clipped.triangle_count() <= clip::MAX_TRIANGLES_AFTER_CLIP);
        most = most.max(clipped.vertices().len());
    }
    assert!(most >= 6, "the sweep never got past {most} vertices, so it is not exercising the bound");
}

#[test]
fn smooth_and_noperspective_are_cut_at_different_parameters() {
    let triangle = [
        vertex(-2.0, 0.0, 0.5, 1.0).with_smooth(varyings(&[0.0])).with_noperspective(varyings(&[0.0])),
        vertex(4.0, 0.0, 0.5, 9.0).with_smooth(varyings(&[1.0])).with_noperspective(varyings(&[1.0])),
        vertex(0.0, 1.0, 0.5, 1.0).with_smooth(varyings(&[0.5])).with_noperspective(varyings(&[0.5])),
    ];
    let clipped = clip_triangle(&triangle, Varyings::empty()).unwrap();
    let cut = clipped.vertices().iter().find(|v| (position(v)[0] + position(v)[3]).abs() < 1e-4).expect("a vertex was produced on the left plane");
    let (smooth, flatly) = (floats(&cut.smooth)[0], floats(&cut.noperspective)[0]);
    assert!((smooth - flatly).abs() > 0.05, "the two parameters must differ on a foreshortened edge: smooth {smooth} against noperspective {flatly}");
    assert!(flatly > smooth);
}

#[test]
fn a_flat_attribute_is_carried_through_a_cut_that_removes_its_own_vertex() {
    let triangle = [vertex(-20.0, 0.0, 0.5, 1.0), vertex(0.5, -0.5, 0.5, 1.0), vertex(0.5, 0.5, 0.5, 1.0)];
    let identity = varyings(&[4242.0]);
    let clipped = clip_triangle(&triangle, identity).unwrap();
    assert!(!clipped.is_empty(), "part of the triangle is inside");
    assert!(clipped.vertices().iter().all(|v| position(v)[0] >= -position(v)[3] - 1e-4), "the outside vertex is gone");
    assert_eq!(clipped.flat.as_slice(), identity.as_slice(), "and the identity it carried is unchanged");
}

#[test]
fn a_non_finite_vertex_refuses_and_geometry_behind_the_eye_culls() {
    let bad = [vertex(f32::NAN, 0.0, 0.5, 1.0), vertex(0.5, -0.5, 0.5, 1.0), vertex(0.5, 0.5, 0.5, 1.0)];
    assert!(matches!(clip_triangle(&bad, Varyings::empty()), Err(Error::NonFinite)));

    let behind = [vertex(0.0, 0.0, -1.0, -1.0), vertex(1.0, 0.0, -1.0, -2.0), vertex(0.0, 1.0, -1.0, -1.0)];
    assert!(clip_triangle(&behind, Varyings::empty()).unwrap().is_empty(), "behind the eye is a cull and not a refusal");
}

#[test]
fn a_triangle_is_cut_by_each_of_the_seven_planes_on_its_own() {
    let cases: [(&str, [Vertex; 3], fn([f32; 4]) -> bool); 6] = [
        ("near, z >= 0", [vertex(0.0, 0.0, -1.0, 1.0), vertex(0.5, 0.0, 0.5, 1.0), vertex(0.0, 0.5, 0.5, 1.0)], |p| p[2] >= -1e-4),
        ("far, z <= w", [vertex(0.0, 0.0, 2.0, 1.0), vertex(0.5, 0.0, 0.5, 1.0), vertex(0.0, 0.5, 0.5, 1.0)], |p| p[2] <= p[3] + 1e-4),
        ("left, x >= -w", [vertex(-2.0, 0.0, 0.5, 1.0), vertex(0.5, -0.5, 0.5, 1.0), vertex(0.5, 0.5, 0.5, 1.0)], |p| p[0] >= -p[3] - 1e-4),
        ("right, x <= w", [vertex(2.0, 0.0, 0.5, 1.0), vertex(-0.5, -0.5, 0.5, 1.0), vertex(-0.5, 0.5, 0.5, 1.0)], |p| p[0] <= p[3] + 1e-4),
        ("bottom, y >= -w", [vertex(0.0, -2.0, 0.5, 1.0), vertex(-0.5, 0.5, 0.5, 1.0), vertex(0.5, 0.5, 0.5, 1.0)], |p| p[1] >= -p[3] - 1e-4),
        ("top, y <= w", [vertex(0.0, 2.0, 0.5, 1.0), vertex(-0.5, -0.5, 0.5, 1.0), vertex(0.5, -0.5, 0.5, 1.0)], |p| p[1] <= p[3] + 1e-4),
    ];
    for (name, triangle, inside) in cases {
        let clipped = clip_triangle(&triangle, Varyings::empty()).unwrap();
        assert!(!clipped.is_empty(), "{name}: the whole triangle was dropped");
        assert!(clipped.vertices().len() > 3, "{name}: nothing was cut, so the plane was not reached");
        for v in clipped.vertices() {
            assert!(inside(position(v)), "{name}: a surviving vertex is outside its own plane: {:?}", position(v));
        }
    }

    let straddling_the_eye = [vertex(0.0, 0.0, 0.5, -1.0), vertex(0.2, 0.0, 0.5, 1.0), vertex(0.0, 0.2, 0.5, 1.0)];
    let clipped = clip_triangle(&straddling_the_eye, Varyings::empty()).unwrap();
    assert!(clipped.vertices().iter().all(|v| position(v)[3] > 0.0), "every surviving vertex is in front of the eye");
}

fn perspective(weights: [f32; 3], inverse_w: [f32; 3], values: [f32; 3]) -> f32 {
    let over: f32 = (0..3).map(|i| weights[i] * inverse_w[i]).sum();
    (0..3).map(|i| weights[i] * inverse_w[i] * values[i]).sum::<f32>() / over
}

#[test]
fn the_analytic_unequal_w_edge_gives_the_parameters_the_profile_states() {
    let triangle = [
        vertex(-2.0, 0.0, 0.5, 1.0).with_smooth(varyings(&[0.0])).with_noperspective(varyings(&[0.0])),
        vertex(0.0, 0.0, 1.0, 2.0).with_smooth(varyings(&[1.0])).with_noperspective(varyings(&[1.0])),
        vertex(0.0, 1.0, 0.5, 1.0).with_smooth(varyings(&[0.5])).with_noperspective(varyings(&[0.5])),
    ];
    let clipped = clip_triangle(&triangle, Varyings::empty()).unwrap();
    let cut = clipped
        .vertices()
        .iter()
        .find(|v| (position(v)[0] + position(v)[3]).abs() < 1e-4 && position(v)[1].abs() < 1e-4)
        .expect("the edge was cut on the left plane");
    let at = position(cut);
    assert!(near(at[0], -4.0 / 3.0), "x at t = 1/3: {}", at[0]);
    assert!(near(at[3], 4.0 / 3.0), "w at t = 1/3: {}", at[3]);
    assert!(near(at[0] / at[3], -1.0), "the projected x is exactly -1");
    assert!(near(floats(&cut.smooth)[0], 1.0 / 3.0), "smooth follows the homogeneous parameter");
    assert!(near(floats(&cut.noperspective)[0], 0.5), "noperspective follows the projected one");

    let project = |p: [f32; 4]| -> (f32, f32, f32) { (p[0] / p[3], p[1] / p[3], 1.0 / p[3]) };
    let field_at = |corners: [(f32, f32, f32); 3], values: [f32; 3], at: (f32, f32)| -> f32 {
        let area = (corners[1].0 - corners[0].0) * (corners[2].1 - corners[0].1) - (corners[2].0 - corners[0].0) * (corners[1].1 - corners[0].1);
        let edge = |a: (f32, f32, f32), b: (f32, f32, f32)| (b.0 - a.0) * (at.1 - a.1) - (at.0 - a.0) * (b.1 - a.1);
        let weights = [edge(corners[1], corners[2]) / area, edge(corners[2], corners[0]) / area, edge(corners[0], corners[1]) / area];
        perspective(weights, [corners[0].2, corners[1].2, corners[2].2], values)
    };
    let whole = [project(position(&triangle[0])), project(position(&triangle[1])), project(position(&triangle[2]))];
    let whole_values = [0.0, 1.0, 0.5];
    let piece = clipped.triangle(0).unwrap();
    let corners = piece.map(|index| project(position(&clipped.vertices()[index])));
    let piece_values = piece.map(|index| floats(&clipped.vertices()[index].smooth)[0]);
    let centre = ((corners[0].0 + corners[1].0 + corners[2].0) / 3.0, (corners[0].1 + corners[1].1 + corners[2].1) / 3.0);
    let from_piece = field_at(corners, piece_values, centre);
    let from_whole = field_at(whole, whole_values, centre);
    assert!((from_piece - from_whole).abs() < 1e-3, "clipping changed the surface: {from_piece} against {from_whole}");
}

#[test]
fn a_flat_value_survives_repeated_clipping_onto_every_fan_triangle() {
    let identity = varyings(&[1234.0, 5678.0]);
    let triangle = [vertex(0.0, -1.5, 0.5, 1.0), vertex(1.5, 1.2, 0.5, 1.0), vertex(-1.5, 1.2, 0.5, 1.0)];
    let clipped = clip_triangle(&triangle, identity).unwrap();
    assert!(clipped.triangle_count() >= 3, "the cut produced several fan triangles: {}", clipped.triangle_count());
    assert!(clipped.vertices().len() <= clip::MAX_CLIPPED_VERTICES);
    assert!(clipped.vertices().iter().all(|v| position(v)[0] >= -position(v)[3] - 1e-4));
    assert_eq!(floats(&clipped.flat), vec![1234.0, 5678.0]);
    for index in 0..clipped.triangle_count() {
        assert!(clipped.triangle(index).is_some(), "fan triangle {index}");
    }
    assert!(clipped.triangle(clipped.triangle_count()).is_none(), "and there is no triangle past the last");
}

#[test]
fn a_list_of_varyings_holds_what_it_is_given_up_to_its_bound() {
    let mut list = Varyings::empty();
    assert!(list.is_empty());
    for value in 0..clip::MAX_VARYING_COMPONENTS as u32 {
        assert!(list.push(value));
    }
    assert!(!list.push(99), "there is no room for one more");
    assert_eq!(list.len(), clip::MAX_VARYING_COMPONENTS);
    let long = vec![0_u32; clip::MAX_VARYING_COMPONENTS + 1];
    assert_eq!(
        Varyings::from_slice(&long).err(),
        Some(Error::LimitExceeded { limit: Limit::VaryingComponents, ceiling: 32, asked: 33 })
    );
    list.clear();
    assert_eq!(list.len(), 0);
    // The two zeros are one number, and no NaN is itself.
    assert!(varyings(&[0.0]).matches(&varyings(&[-0.0])));
    assert!(!varyings(&[f32::NAN]).matches(&varyings(&[f32::NAN])));
}

#[test]
fn a_polygon_of_too_many_vertices_is_refused_rather_than_cut_short() {
    // Ten vertices, all inside: more than a clipped triangle can have.
    let polygon = [vertex(0.0, 0.0, 0.5, 1.0); 10];
    let distances = [1.0_f32.to_bits(); 10];
    let crossings = [Crossing { denominator: 0, vertex: polygon[0] }; 10];
    assert_eq!(
        clip::cut(&polygon, &distances, &crossings).err(),
        Some(Error::LimitExceeded { limit: Limit::ClippedVertices, ceiling: 9, asked: 10 })
    );
    assert!(Clipped::none(Varyings::empty()).is_empty());
}
