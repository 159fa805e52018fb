//! Clipping: a polygon cut by one half-space after the other, every kind of varying carried along.
//!
//! Distances to a plane, and the vertex where an edge crosses it, are floating-point work of the
//! caller. Which vertices stay, which crossings are taken, in what order, and when the bound on the
//! polygon is passed, are decided here.
use super::error::{Error, Limit};
use crate::bits::{equal, finite, is_finite, is_nan, less, nan, number, order_is_by_number, same};
use vstd::prelude::*;

verus! {

/// The most varying components one vertex may carry of one qualifier.
pub const MAX_VARYING_COMPONENTS: usize = 32;

/// The most vertices a clipped triangle can have.
pub const MAX_CLIPPED_VERTICES: usize = 9;

/// The most triangles the fan of a clipped triangle can have.
pub const MAX_TRIANGLES_AFTER_CLIP: usize = 7;

/// How many half-spaces bound the clip volume.
pub const PLANES: usize = 7;

/// One vertex's varyings of one qualifier: a fixed array and a length.
#[derive(Clone, Copy, Debug)]
pub struct Varyings {
    values: [u32; 32],
    len: u8,
}

impl View for Varyings {
    type V = Seq<u32>;

    closed spec fn view(&self) -> Seq<u32> {
        self.values@.take(self.len as int)
    }
}

impl Varyings {
    #[verifier::type_invariant]
    spec fn wf(self) -> bool {
        self.len <= 32
    }

    /// No components.
    pub fn empty() -> (made: Varyings)
        ensures
            made@ == Seq::<u32>::empty(),
    {
        let made = Varyings { values: [0; 32], len: 0 };
        assert(made@ =~= Seq::<u32>::empty());
        made
    }

    /// Build from a slice. A slice longer than the bound is refused rather than truncated.
    pub fn from_slice(components: &[u32]) -> (made: Result<Varyings, Error>)
        ensures
            match made {
                Ok(held) => components@.len() <= MAX_VARYING_COMPONENTS && held@ == components@,
                Err(error) => components@.len() > MAX_VARYING_COMPONENTS && error
                    == (Error::LimitExceeded {
                    limit: Limit::VaryingComponents,
                    ceiling: 32,
                    asked: components@.len() as u64,
                }),
            },
    {
        if components.len() > MAX_VARYING_COMPONENTS {
            return Err(
                Error::LimitExceeded {
                    limit: Limit::VaryingComponents,
                    ceiling: 32,
                    asked: components.len() as u64,
                },
            );
        }
        let mut values: [u32; 32] = [0; 32];
        let mut next: usize = 0;
        while next < components.len()
            invariant
                next <= components@.len() <= 32,
                forall|i: int| 0 <= i < next ==> #[trigger] values@[i] == components@[i],
            decreases components@.len() - next,
        {
            values[next] = components[next];
            next = next + 1;
        }
        let held = Varyings { values, len: components.len() as u8 };
        assert(held@ =~= components@);
        Ok(held)
    }

    /// The components that are there.
    pub fn as_slice(&self) -> (components: &[u32])
        ensures
            components@ == self@,
    {
        proof {
            use_type_invariant(self);
        }
        let components = vstd::slice::slice_subrange(self.values.as_slice(), 0, self.len as usize);
        assert(components@ =~= self@);
        components
    }

    pub fn len(&self) -> (count: usize)
        ensures
            count == self@.len(),
            count <= MAX_VARYING_COMPONENTS,
    {
        proof {
            use_type_invariant(self);
        }
        self.len as usize
    }

    pub fn is_empty(&self) -> (empty: bool)
        ensures
            empty == (self@.len() == 0),
    {
        proof {
            use_type_invariant(self);
        }
        self.len == 0
    }

    /// Append one component, answering whether there was room.
    pub fn push(&mut self, value: u32) -> (room: bool)
        ensures
            room == (old(self)@.len() < MAX_VARYING_COMPONENTS),
            final(self)@ == if room {
                old(self)@.push(value)
            } else {
                old(self)@
            },
    {
        proof {
            use_type_invariant(&*self);
        }
        if self.len >= 32 {
            return false;
        }
        let mut values = self.values;
        let len: u8 = self.len;
        values[len as usize] = value;
        *self = Varyings { values, len: len + 1 };
        assert(self@ =~= old(self)@.push(value));
        true
    }

    pub fn clear(&mut self)
        ensures
            final(self)@ == Seq::<u32>::empty(),
    {
        let values = self.values;
        *self = Varyings { values, len: 0 };
        assert(self@ =~= Seq::<u32>::empty());
    }

    /// Whether two hold as many components and the same numbers. What a longer one left behind the
    /// length is not looked at.
    pub fn matches(&self, other: &Varyings) -> (equal: bool)
        ensures
            equal == alike(self@, other@),
    {
        let (left, right) = (self.as_slice(), other.as_slice());
        if left.len() != right.len() {
            return false;
        }
        let mut next: usize = 0;
        while next < left.len()
            invariant
                next <= left@.len(),
                left@.len() == right@.len(),
                left@ == self@,
                right@ == other@,
                forall|i: int| 0 <= i < next ==> same(#[trigger] left@[i], right@[i]),
            decreases left@.len() - next,
        {
            if !equal(left[next], right[next]) {
                assert(!same(left@[next as int], right@[next as int]));
                return false;
            }
            next = next + 1;
        }
        true
    }
}

/// Whether two lists of components hold the same numbers.
pub open spec fn alike(left: Seq<u32>, right: Seq<u32>) -> bool {
    left.len() == right.len() && forall|i: int| 0 <= i < left.len() ==> same(#[trigger] left[i], right[i])
}

/// One vertex as the clipper carries it.
#[derive(Clone, Copy, Debug)]
pub struct Vertex {
    /// Clip space, before the perspective divide.
    pub position: [u32; 4],
    /// Attributes interpolated at the homogeneous parameter.
    pub smooth: Varyings,
    /// Attributes interpolated at the projected parameter.
    pub noperspective: Varyings,
}

impl Vertex {
    pub fn new(position: [u32; 4]) -> (made: Vertex)
        ensures
            made.position == position,
            made.smooth@ == Seq::<u32>::empty(),
            made.noperspective@ == Seq::<u32>::empty(),
    {
        Vertex { position, smooth: Varyings::empty(), noperspective: Varyings::empty() }
    }

    pub fn with_smooth(self, smooth: Varyings) -> (made: Vertex)
        ensures
            made == (Vertex { smooth, ..self }),
    {
        Vertex { position: self.position, smooth, noperspective: self.noperspective }
    }

    pub fn with_noperspective(self, noperspective: Varyings) -> (made: Vertex)
        ensures
            made == (Vertex { noperspective, ..self }),
    {
        Vertex { position: self.position, smooth: self.smooth, noperspective }
    }
}

/// What the caller computed for one edge of the polygon, from a vertex to the next.
#[derive(Clone, Copy, Debug)]
pub struct Crossing {
    /// The difference of the two ends' distances.
    pub denominator: u32,
    /// The vertex on the plane.
    pub vertex: Vertex,
}

/// What the caller computed for one plane: one distance per vertex, and one crossing per edge.
#[derive(Clone, Debug)]
pub struct Pass {
    pub distances: Vec<u32>,
    pub crossings: Vec<Crossing>,
}

/// Whether a distance is on the inner side of a plane, or on it.
pub open spec fn inner(distance: u32) -> bool {
    !nan(distance) && !crate::bits::below(distance, 0)
}

fn is_inner(distance: u32) -> (answer: bool)
    ensures
        answer == inner(distance),
{
    !is_nan(distance) && !less(distance, 0)
}

/// Whether an edge's crossing is a vertex of the cut polygon: its ends are on different sides, and
/// the division that finds it has an answer.
pub open spec fn crosses(here: u32, there: u32, denominator: u32) -> bool {
    inner(here) != inner(there) && !same(denominator, 0) && finite(denominator)
}

/// What vertex `i` and the edge behind it add to the cut polygon.
pub open spec fn kept(polygon: Seq<Vertex>, distances: Seq<u32>, crossings: Seq<Crossing>, i: int) -> Seq<
    Vertex,
> {
    let next = if i + 1 == polygon.len() {
        0
    } else {
        i + 1
    };
    (if inner(distances[i]) {
        seq![polygon[i]]
    } else {
        Seq::empty()
    }) + (if crosses(distances[i], distances[next], crossings[i].denominator) {
        seq![crossings[i].vertex]
    } else {
        Seq::empty()
    })
}

/// What the first `count` vertices add to the cut polygon.
pub open spec fn cut_polygon(
    polygon: Seq<Vertex>,
    distances: Seq<u32>,
    crossings: Seq<Crossing>,
    count: nat,
) -> Seq<Vertex>
    decreases count,
{
    if count == 0 {
        Seq::empty()
    } else {
        cut_polygon(polygon, distances, crossings, (count - 1) as nat) + kept(
            polygon,
            distances,
            crossings,
            count - 1,
        )
    }
}

/// The refusal of a polygon of more vertices than a clipped triangle can have.
pub open spec fn too_many() -> Error {
    Error::LimitExceeded { limit: Limit::ClippedVertices, ceiling: 9, asked: 10 }
}

/// The polygon after one plane.
pub open spec fn after_plane(polygon: Seq<Vertex>, distances: Seq<u32>, crossings: Seq<Crossing>) -> Result<
    Seq<Vertex>,
    Error,
> {
    let whole = cut_polygon(polygon, distances, crossings, polygon.len());
    if whole.len() > MAX_CLIPPED_VERTICES {
        Err(too_many())
    } else {
        Ok(whole)
    }
}

proof fn cutting_grows(
    polygon: Seq<Vertex>,
    distances: Seq<u32>,
    crossings: Seq<Crossing>,
    from: nat,
    to: nat,
)
    requires
        from <= to,
    ensures
        cut_polygon(polygon, distances, crossings, from).len() <= cut_polygon(
            polygon,
            distances,
            crossings,
            to,
        ).len(),
    decreases to - from,
{
    if from < to {
        cutting_grows(polygon, distances, crossings, from, (to - 1) as nat);
    }
}

/// One pass against one plane.
pub fn cut(polygon: &[Vertex], distances: &[u32], crossings: &[Crossing]) -> (remaining: Result<
    Vec<Vertex>,
    Error,
>)
    requires
        distances@.len() == polygon@.len(),
        crossings@.len() == polygon@.len(),
    ensures
        match remaining {
            Ok(vertices) => after_plane(polygon@, distances@, crossings@) == Ok::<Seq<Vertex>, Error>(
                vertices@,
            ),
            Err(error) => after_plane(polygon@, distances@, crossings@) == Err::<Seq<Vertex>, Error>(error),
        },
{
    let mut out: Vec<Vertex> = Vec::new();
    let mut index: usize = 0;
    let ghost count = polygon@.len();
    while index < polygon.len()
        invariant
            index <= polygon@.len(),
            count == polygon@.len(),
            distances@.len() == polygon@.len(),
            crossings@.len() == polygon@.len(),
            out@ == cut_polygon(polygon@, distances@, crossings@, index as nat),
            out@.len() <= MAX_CLIPPED_VERTICES,
        decreases polygon@.len() - index,
    {
        let next: usize = if index + 1 == polygon.len() {
            0
        } else {
            index + 1
        };
        let here: u32 = distances[index];
        let there: u32 = distances[next];
        let denominator: u32 = crossings[index].denominator;
        let ghost before = out@;
        let stays = is_inner(here);
        let taken = is_inner(here) != is_inner(there) && !equal(denominator, 0) && is_finite(denominator);
        proof {
            let added = kept(polygon@, distances@, crossings@, index as int);
            assert(taken == crosses(here, there, denominator));
            assert(cut_polygon(polygon@, distances@, crossings@, (index + 1) as nat) =~= before + added);
            cutting_grows(polygon@, distances@, crossings@, (index + 1) as nat, count);
        }
        if stays {
            if out.len() >= MAX_CLIPPED_VERTICES {
                return Err(Error::LimitExceeded { limit: Limit::ClippedVertices, ceiling: 9, asked: 10 });
            }
            out.push(polygon[index]);
        }
        if taken {
            if out.len() >= MAX_CLIPPED_VERTICES {
                return Err(Error::LimitExceeded { limit: Limit::ClippedVertices, ceiling: 9, asked: 10 });
            }
            out.push(crossings[index].vertex);
        }
        assert(out@ =~= before + kept(polygon@, distances@, crossings@, index as int));
        index = index + 1;
    }
    Ok(out)
}

/// A primitive after clipping: its vertices, and the flat attributes of the provoking vertex of the
/// primitive as it was before.
#[derive(Clone, Debug)]
pub struct Clipped {
    pub vertices: Vec<Vertex>,
    pub flat: Varyings,
}

impl Clipped {
    /// Nothing left.
    pub fn none(flat: Varyings) -> (made: Clipped)
        ensures
            made.vertices@ == Seq::<Vertex>::empty(),
            made.flat == flat,
    {
        Clipped { vertices: Vec::new(), flat }
    }

    pub fn vertices(&self) -> (vertices: &[Vertex])
        ensures
            vertices@ == self.vertices@,
    {
        self.vertices.as_slice()
    }

    pub fn is_empty(&self) -> (empty: bool)
        ensures
            empty == (self.vertices@.len() == 0),
    {
        self.vertices.len() == 0
    }

    /// How many triangles the fan has.
    pub open spec fn triangles(self) -> int {
        if self.vertices@.len() < 2 {
            0
        } else {
            self.vertices@.len() - 2
        }
    }

    /// How many triangles the fan has.
    pub fn triangle_count(&self) -> (count: usize)
        ensures
            count == self.triangles(),
    {
        if self.vertices.len() < 2 {
            0
        } else {
            self.vertices.len() - 2
        }
    }

    /// One triangle of the fan from vertex zero, as indices into `vertices`.
    pub fn triangle(&self, index: usize) -> (corners: Option<[usize; 3]>)
        ensures
            match corners {
                Some(found) => index < self.triangles() && found@ == seq![
                    0usize,
                    (index + 1) as usize,
                    (index + 2) as usize,
                ],
                None => index >= self.triangles(),
            },
    {
        let count: usize = self.vertices.len();
        if count >= 2 && index < count - 2 {
            let corners: [usize; 3] = [0, index + 1, index + 2];
            assert(corners@ =~= seq![0usize, (index + 1) as usize, (index + 2) as usize]);
            Some(corners)
        } else {
            None
        }
    }
}

/// Where a primitive stands to the clip volume.
#[derive(Clone, Copy, PartialEq, Eq, Structural, Debug)]
pub enum Classification {
    Inside,
    Outside,
    BehindEye,
    Clipped,
}

/// How far clipping got.
#[derive(Clone, Debug)]
pub enum Clipping {
    /// The distances and crossings of this polygon against this plane are needed next.
    Pending { plane: usize, polygon: Vec<Vertex> },
    Finished(Clipped),
}

/// How far clipping got, as mathematics.
pub ghost enum Cut {
    Waits { plane: int, polygon: Seq<Vertex> },
    Done(Seq<Vertex>),
    Fault(Error),
}

/// A polygon taken through the planes from `plane` on, with the passes the caller computed.
pub open spec fn through_planes(polygon: Seq<Vertex>, passes: Seq<Pass>, plane: nat) -> Cut
    decreases PLANES - plane,
{
    if plane >= PLANES || polygon.len() == 0 {
        Cut::Done(
            if polygon.len() >= 3 {
                polygon
            } else {
                Seq::empty()
            },
        )
    } else if plane >= passes.len() || passes[plane as int].distances@.len() != polygon.len()
        || passes[plane as int].crossings@.len() != polygon.len() {
        Cut::Waits { plane: plane as int, polygon }
    } else {
        match after_plane(polygon, passes[plane as int].distances@, passes[plane as int].crossings@) {
            Err(error) => Cut::Fault(error),
            Ok(next) => through_planes(next, passes, plane + 1),
        }
    }
}

/// What clipping a triangle comes to.
pub open spec fn clipped_triangle(
    vertices: Seq<Vertex>,
    classified: Result<Classification, Error>,
    passes: Seq<Pass>,
) -> Cut {
    match classified {
        Err(error) => Cut::Fault(error),
        Ok(Classification::Inside) => Cut::Done(vertices),
        Ok(Classification::Outside) => Cut::Done(Seq::empty()),
        Ok(Classification::BehindEye) => Cut::Done(Seq::empty()),
        Ok(Classification::Clipped) => through_planes(vertices, passes, 0),
    }
}

/// Clip a triangle. A pass that does not fit the polygon it is for counts as not there yet.
pub fn clip_triangle(
    vertices: &[Vertex; 3],
    flat: Varyings,
    classified: Result<Classification, Error>,
    passes: &[Pass],
) -> (outcome: Result<Clipping, Error>)
    ensures
        match outcome {
            Ok(Clipping::Pending { plane, polygon }) => clipped_triangle(vertices@, classified, passes@)
                == (Cut::Waits { plane: plane as int, polygon: polygon@ }),
            Ok(Clipping::Finished(clipped)) => clipped_triangle(vertices@, classified, passes@) == Cut::Done(
                clipped.vertices@,
            ) && clipped.flat == flat && (clipped.vertices@.len() == 0 || 3 <= clipped.vertices@.len() <= 9),
            Err(error) => clipped_triangle(vertices@, classified, passes@) == Cut::Fault(error),
        },
{
    let which = match classified {
        Err(error) => {
            return Err(error);
        },
        Ok(found) => found,
    };
    let mut polygon: Vec<Vertex> = Vec::new();
    polygon.push(vertices[0]);
    polygon.push(vertices[1]);
    polygon.push(vertices[2]);
    assert(polygon@ =~= vertices@);
    match which {
        Classification::Inside => {
            return Ok(Clipping::Finished(Clipped { vertices: polygon, flat }));
        },
        Classification::Outside | Classification::BehindEye => {
            return Ok(Clipping::Finished(Clipped::none(flat)));
        },
        Classification::Clipped => {},
    }
    let ghost whole = through_planes(vertices@, passes@, 0);
    let mut plane: usize = 0;
    while plane < PLANES && polygon.len() > 0
        invariant
            plane <= PLANES,
            whole == through_planes(vertices@, passes@, 0),
            whole == through_planes(polygon@, passes@, plane as nat),
            polygon@.len() <= MAX_CLIPPED_VERTICES,
            classified == Ok::<Classification, Error>(Classification::Clipped),
        decreases PLANES - plane,
    {
        if plane >= passes.len() || passes[plane].distances.len() != polygon.len()
            || passes[plane].crossings.len() != polygon.len() {
            return Ok(Clipping::Pending { plane, polygon });
        }
        match cut(polygon.as_slice(), passes[plane].distances.as_slice(), passes[plane].crossings.as_slice()) {
            Err(error) => {
                return Err(error);
            },
            Ok(next) => {
                polygon = next;
            },
        }
        plane = plane + 1;
    }
    if polygon.len() >= 3 {
        Ok(Clipping::Finished(Clipped { vertices: polygon, flat }))
    } else {
        Ok(Clipping::Finished(Clipped::none(flat)))
    }
}

// ---------------------------------------------------------------------------------------------
// Laws of a cut.
// ---------------------------------------------------------------------------------------------
/// How many of the first `count` vertices are on the outer side.
pub open spec fn outer_count(distances: Seq<u32>, count: nat) -> nat
    decreases count,
{
    if count == 0 {
        0
    } else {
        outer_count(distances, (count - 1) as nat) + (if inner(distances[count - 1]) {
            0nat
        } else {
            1nat
        })
    }
}

/// How many of the first `count` edges have their ends on different sides.
pub open spec fn side_changes(distances: Seq<u32>, count: nat) -> nat
    decreases count,
{
    if count == 0 {
        0
    } else {
        let next = if count == distances.len() {
            0
        } else {
            count as int
        };
        side_changes(distances, (count - 1) as nat) + (if inner(distances[count - 1]) != inner(
            distances[next],
        ) {
            1nat
        } else {
            0nat
        })
    }
}

proof fn cut_is_bounded(
    polygon: Seq<Vertex>,
    distances: Seq<u32>,
    crossings: Seq<Crossing>,
    count: nat,
)
    requires
        distances.len() == polygon.len(),
        count <= polygon.len(),
    ensures
        cut_polygon(polygon, distances, crossings, count).len() + outer_count(distances, count) <= count
            + side_changes(distances, count),
    decreases count,
{
    if count > 0 {
        cut_is_bounded(polygon, distances, crossings, (count - 1) as nat);
    }
}

proof fn changing_sides_leaves_one_out(distances: Seq<u32>, count: nat)
    requires
        count <= distances.len(),
        outer_count(distances, distances.len()) == 0,
    ensures
        side_changes(distances, count) == 0,
    decreases count,
{
    if count > 0 {
        changing_sides_leaves_one_out(distances, (count - 1) as nat);
        none_outside(distances, distances.len(), count - 1);
        none_outside(
            distances,
            distances.len(),
            if count == distances.len() {
                0
            } else {
                count as int
            },
        );
    }
}

proof fn none_outside(distances: Seq<u32>, count: nat, i: int)
    requires
        outer_count(distances, count) == 0,
        0 <= i < count <= distances.len(),
    ensures
        inner(distances[i]),
    decreases count,
{
    if i < count - 1 {
        none_outside(distances, (count - 1) as nat, i);
    }
}

/// A half-space cut of a convex polygon, which changes sides at most twice, adds at most one vertex.
pub proof fn a_convex_cut_adds_at_most_one(
    polygon: Seq<Vertex>,
    distances: Seq<u32>,
    crossings: Seq<Crossing>,
)
    requires
        distances.len() == polygon.len(),
        side_changes(distances, polygon.len()) <= 2,
    ensures
        cut_polygon(polygon, distances, crossings, polygon.len()).len() <= polygon.len() + 1,
{
    cut_is_bounded(polygon, distances, crossings, polygon.len());
    if outer_count(distances, polygon.len()) == 0 {
        changing_sides_leaves_one_out(distances, polygon.len());
    }
}

/// A polygon wholly inside a plane comes through it unchanged.
pub proof fn an_inner_polygon_is_untouched(
    polygon: Seq<Vertex>,
    distances: Seq<u32>,
    crossings: Seq<Crossing>,
    count: nat,
)
    requires
        distances.len() == polygon.len(),
        count <= polygon.len(),
        forall|i: int| 0 <= i < polygon.len() ==> inner(#[trigger] distances[i]),
    ensures
        cut_polygon(polygon, distances, crossings, count) == polygon.take(count as int),
    decreases count,
{
    if count > 0 {
        an_inner_polygon_is_untouched(polygon, distances, crossings, (count - 1) as nat);
        let next = if count == polygon.len() {
            0
        } else {
            count as int
        };
        assert(inner(distances[count - 1]) && inner(distances[next]));
        assert(cut_polygon(polygon, distances, crossings, count) =~= polygon.take(count as int));
    } else {
        assert(polygon.take(0) =~= Seq::<Vertex>::empty());
    }
}

/// A vertex is on the inner side of a plane, or on it, where its distance is a number that is not below nothing.
pub proof fn the_inner_side_is_by_number(distance: u32)
    ensures
        inner(distance) <==> !nan(distance) && number(distance) >= 0,
{
    if !nan(distance) {
        order_is_by_number(distance, 0);
        assert(number(0) == 0);
    }
}

/// A cut takes the polygon vertex by vertex: a vertex on the inner side stays, and where the one after it, the first
/// after the last, is on the other side, the crossing of the edge between them follows it. Nothing else is added.
pub proof fn a_cut_keeps_the_inner_side(
    polygon: Seq<Vertex>,
    distances: Seq<u32>,
    crossings: Seq<Crossing>,
    i: int,
)
    requires
        0 <= i < polygon.len(),
        distances.len() == polygon.len(),
        crossings.len() == polygon.len(),
        forall|k: int| 0 <= k < distances.len() ==> !nan(#[trigger] distances[k]),
        finite(crossings[i].denominator),
        number(crossings[i].denominator) != 0,
    ensures
        ({
            let before = cut_polygon(polygon, distances, crossings, i as nat);
            let after = cut_polygon(polygon, distances, crossings, (i + 1) as nat);
            let stays = number(distances[i]) >= 0;
            let leaves = stays != (number(distances[(i + 1) % polygon.len() as int]) >= 0);
            &&& after.len() == before.len() + (if stays {
                1int
            } else {
                0
            }) + (if leaves {
                1int
            } else {
                0
            })
            &&& after.take(before.len() as int) =~= before
            &&& stays ==> after[before.len() as int] == polygon[i]
            &&& leaves ==> after.last() == crossings[i].vertex
        }),
{
    let next = (i + 1) % polygon.len() as int;
    if i + 1 < polygon.len() {
        vstd::arithmetic::div_mod::lemma_small_mod((i + 1) as nat, polygon.len());
    } else {
        vstd::arithmetic::div_mod::lemma_mod_self_0(polygon.len() as int);
    }
    assert(!nan(distances[i]) && !nan(distances[next]));
    the_inner_side_is_by_number(distances[i]);
    the_inner_side_is_by_number(distances[next]);
    order_is_by_number(crossings[i].denominator, 0);
    assert(number(0) == 0);
}

/// A polygon wholly on the outer side of a plane is cut away.
pub proof fn an_outer_polygon_is_cut_away(
    polygon: Seq<Vertex>,
    distances: Seq<u32>,
    crossings: Seq<Crossing>,
    count: nat,
)
    requires
        distances.len() == polygon.len(),
        count <= polygon.len(),
        forall|k: int| 0 <= k < distances.len() ==> nan(#[trigger] distances[k]) || number(distances[k]) < 0,
    ensures
        cut_polygon(polygon, distances, crossings, count).len() == 0,
    decreases count,
{
    if count > 0 {
        an_outer_polygon_is_cut_away(polygon, distances, crossings, (count - 1) as nat);
        let next = if count == polygon.len() {
            0
        } else {
            count as int
        };
        assert(nan(distances[count - 1]) || number(distances[count - 1]) < 0);
        assert(nan(distances[next]) || number(distances[next]) < 0);
        the_inner_side_is_by_number(distances[count - 1]);
        the_inner_side_is_by_number(distances[next]);
    }
}

/// A polygon is cut by seven planes, one after the other, each time what the one before left; it is finished when all
/// have cut it or nothing is left, and a remainder of fewer than three vertices is nothing.
pub proof fn a_polygon_is_cut_by_every_plane(polygon: Seq<Vertex>, passes: Seq<Pass>, plane: nat)
    ensures
        polygon.len() == 0 ==> through_planes(polygon, passes, plane) == Cut::Done(Seq::<Vertex>::empty()),
        plane >= 7 && polygon.len() >= 3 ==> through_planes(polygon, passes, plane) == Cut::Done(polygon),
        plane >= 7 && polygon.len() < 3 ==> through_planes(polygon, passes, plane) == Cut::Done(Seq::<Vertex>::empty()),
        plane < 7 && polygon.len() > 0 && plane >= passes.len() ==> through_planes(polygon, passes, plane) == (
        Cut::Waits { plane: plane as int, polygon }),
        plane < 7 && polygon.len() > 0 && plane < passes.len() && passes[plane as int].distances@.len() == polygon.len()
            && passes[plane as int].crossings@.len() == polygon.len() ==> ({
            let left = cut_polygon(
                polygon,
                passes[plane as int].distances@,
                passes[plane as int].crossings@,
                polygon.len(),
            );
            if left.len() <= 9 {
                through_planes(polygon, passes, plane) == through_planes(left, passes, plane + 1)
            } else {
                through_planes(polygon, passes, plane) is Fault
            }
        }),
{
}

/// A triangle inside the volume comes through as it is; one outside it, or behind the eye, leaves nothing; any other is
/// cut by the planes from the first on, and a position that cannot be placed is refused as it was found.
pub proof fn a_triangle_is_clipped_as_it_stands(vertices: Seq<Vertex>, error: Error, passes: Seq<Pass>)
    ensures
        clipped_triangle(vertices, Ok(Classification::Inside), passes) == Cut::Done(vertices),
        clipped_triangle(vertices, Ok(Classification::Outside), passes) == Cut::Done(Seq::<Vertex>::empty()),
        clipped_triangle(vertices, Ok(Classification::BehindEye), passes) == Cut::Done(Seq::<Vertex>::empty()),
        clipped_triangle(vertices, Ok(Classification::Clipped), passes) == through_planes(vertices, passes, 0),
        clipped_triangle(vertices, Err(error), passes) == Cut::Fault(error),
{
}

/// A triangle on the inner side of every plane comes through all of them unchanged.
pub proof fn an_inner_triangle_comes_through(vertices: Seq<Vertex>, passes: Seq<Pass>, plane: nat)
    requires
        vertices.len() == 3,
        passes.len() == 7,
        plane <= 7,
        forall|p: int|
            0 <= p < 7 ==> (#[trigger] passes[p]).distances@.len() == 3 && passes[p].crossings@.len() == 3,
        forall|p: int, k: int|
            0 <= p < 7 && 0 <= k < 3 ==> !nan(#[trigger] passes[p].distances@[k]) && number(passes[p].distances@[k])
                >= 0,
    ensures
        through_planes(vertices, passes, plane) == Cut::Done(vertices),
    decreases 7 - plane,
{
    if plane < 7 {
        let (distances, crossings) = (passes[plane as int].distances@, passes[plane as int].crossings@);
        assert forall|k: int| 0 <= k < 3 implies inner(#[trigger] distances[k]) by {
            assert(!nan(passes[plane as int].distances@[k]));
            the_inner_side_is_by_number(distances[k]);
        }
        an_inner_polygon_is_untouched(vertices, distances, crossings, 3);
        assert(vertices.take(3) =~= vertices);
        an_inner_triangle_comes_through(vertices, passes, plane + 1);
    }
}

/// The triangles of a clipped primitive are a fan: each is the first vertex and two neighbours, and every vertex is in
/// one.
pub proof fn a_clipped_primitive_is_a_fan(clipped: Clipped, index: usize, corners: Option<[usize; 3]>)
    requires
        call_ensures(Clipped::triangle, (&clipped, index), corners),
        clipped.vertices@.len() <= usize::MAX,
    ensures
        clipped.vertices@.len() >= 3 ==> clipped.triangles() + 2 == clipped.vertices@.len(),
        clipped.vertices@.len() < 3 ==> clipped.triangles() == 0,
        corners is Some <==> index + 2 < clipped.vertices@.len(),
        corners matches Some(found) ==> found@[0] == 0 && found@[1] == index + 1 && found@[2] == index + 2,
{
}

} // verus!
