//! Primitive assembly, and the two topologies the triangle rules do not cover.
//!
//! Lines use the diamond-exit rule and points a half-open square, for the same reason triangles use
//! the top-left rule: what meets end to end or side by side covers each pixel exactly once.
use super::error::{Error, MeshFault, StateFault};
use super::fixed::{point, point_on_grid, Subpixel, SUBPIXEL_HALF, SUBPIXEL_ONE};
use crate::bits::{
    at_least, below, exponent, finite, is_finite, less, number, order_is_by_number, reaches, round_away, rounded_away,
    rounding_is_by_number, significand, signs_are_by_number,
};
use vstd::arithmetic::div_mod::{lemma_fundamental_div_mod, lemma_fundamental_div_mod_converse};
use vstd::arithmetic::power2::pow2;
use vstd::prelude::*;

verus! {

/// The index value that ends a strip or a fan.
pub const RESTART_U16: u16 = 0xFFFF;

pub const RESTART_U32: u32 = 0xFFFF_FFFF;

/// How the vertices of a draw make primitives.
#[derive(Clone, Copy, PartialEq, Eq, Structural, Debug)]
pub enum Topology {
    TriangleList,
    TriangleStrip,
    TriangleFan,
    LineList,
    LineStrip,
    PointList,
}

impl Topology {
    /// Whether the primitives of this topology share no vertex.
    pub open spec fn is_list(self) -> bool {
        self is TriangleList || self is LineList || self is PointList
    }

    /// How many vertices one primitive has.
    pub open spec fn arity(self) -> nat {
        match self {
            Topology::TriangleList | Topology::TriangleStrip | Topology::TriangleFan => 3,
            Topology::LineList | Topology::LineStrip => 2,
            Topology::PointList => 1,
        }
    }
}

/// Where a draw's indices come from.
#[derive(Clone, Copy, Debug)]
pub enum Indices<'a> {
    /// A non-indexed draw: vertex `i` is index `i`.
    Sequential,
    U16(&'a [u16]),
    U32(&'a [u32]),
}

/// The vertex a raw index names once the base vertex is added.
pub open spec fn rebased(raw: u32, base_vertex: i32) -> Result<Option<u32>, Error> {
    if 0 <= raw + base_vertex <= u32::MAX {
        Ok(Some((raw + base_vertex) as u32))
    } else {
        Err(
            Error::InvalidMesh { reason: MeshFault::IndexOutOfRange { index: raw, vertices: 0 } },
        )
    }
}

impl<'a> Indices<'a> {
    /// How many indices are stored.
    pub open spec fn stored(&self) -> nat {
        match self {
            Indices::Sequential => 0,
            Indices::U16(values) => values@.len(),
            Indices::U32(values) => values@.len(),
        }
    }

    /// The vertex at a position of the draw: `Ok(None)` is a restart.
    pub open spec fn vertex_at(&self, position: int, base_vertex: i32) -> Result<Option<u32>, Error> {
        match self {
            Indices::Sequential => rebased(position as u32, base_vertex),
            Indices::U16(values) => if position >= values@.len() {
                Err(
                    Error::InvalidMesh {
                        reason: MeshFault::IndexOutOfRange {
                            index: position as u32,
                            vertices: values@.len() as u32,
                        },
                    },
                )
            } else if values@[position] == RESTART_U16 {
                Ok(None)
            } else {
                rebased(values@[position] as u32, base_vertex)
            },
            Indices::U32(values) => if position >= values@.len() {
                Err(
                    Error::InvalidMesh {
                        reason: MeshFault::IndexOutOfRange {
                            index: position as u32,
                            vertices: values@.len() as u32,
                        },
                    },
                )
            } else if values@[position] == RESTART_U32 {
                Ok(None)
            } else {
                rebased(values@[position], base_vertex)
            },
        }
    }

    /// How many indices are stored; none for a non-indexed draw.
    pub fn len(&self) -> (count: usize)
        ensures
            count == self.stored(),
    {
        match self {
            Indices::Sequential => 0,
            Indices::U16(values) => values.len(),
            Indices::U32(values) => values.len(),
        }
    }

    /// The index at a position, or `None` when it is the restart value.
    pub fn at(&self, position: usize, base_vertex: i32) -> (vertex: Result<Option<u32>, Error>)
        ensures
            vertex == self.vertex_at(position as int, base_vertex),
    {
        let raw: u32 = match self {
            Indices::Sequential => position as u32,
            Indices::U16(values) => {
                if position >= values.len() {
                    return Err(
                        Error::InvalidMesh {
                            reason: MeshFault::IndexOutOfRange {
                                index: position as u32,
                                vertices: values.len() as u32,
                            },
                        },
                    );
                }
                let value: u16 = values[position];
                if value == RESTART_U16 {
                    return Ok(None);
                }
                value as u32
            },
            Indices::U32(values) => {
                if position >= values.len() {
                    return Err(
                        Error::InvalidMesh {
                            reason: MeshFault::IndexOutOfRange {
                                index: position as u32,
                                vertices: values.len() as u32,
                            },
                        },
                    );
                }
                let value: u32 = values[position];
                if value == RESTART_U32 {
                    return Ok(None);
                }
                value
            },
        };
        let shifted: i64 = raw as i64 + base_vertex as i64;
        if shifted < 0 || shifted > u32::MAX as i64 {
            return Err(
                Error::InvalidMesh { reason: MeshFault::IndexOutOfRange { index: raw, vertices: 0 } },
            );
        }
        Ok(Some(shifted as u32))
    }
}

/// One assembled primitive, with the index it has within the draw. Of a triangle's vertices, `provoking` counts to the
/// one its flat attributes come from; of a line's it is the first.
#[derive(Clone, Copy, PartialEq, Eq, Debug)]
#[allow(inconsistent_fields)]
pub enum Primitive {
    Triangle { vertices: [u32; 3], provoking: usize, index: u32 },
    Line { vertices: [u32; 2], index: u32 },
    Point { vertex: u32, index: u32 },
}

/// The vertices of a primitive, in winding order, and of a triangle which of them is the provoking one.
pub ghost enum Shape {
    Triangle(u32, u32, u32, int),
    Line(u32, u32),
    Point(u32),
}

impl Shape {
    /// Which of the vertices the flat attributes come from.
    pub open spec fn provoking_slot(self) -> int {
        match self {
            Shape::Triangle(_, _, _, slot) => slot,
            Shape::Line(_, _) => 0,
            Shape::Point(_) => 0,
        }
    }

    /// How many vertices there are.
    pub open spec fn corners(self) -> int {
        match self {
            Shape::Triangle(_, _, _, _) => 3,
            Shape::Line(_, _) => 2,
            Shape::Point(_) => 1,
        }
    }

    /// The vertex the flat attributes come from.
    pub open spec fn provoking_vertex(self) -> u32 {
        match self {
            Shape::Triangle(first, second, third, slot) => if slot == 0 {
                first
            } else if slot == 1 {
                second
            } else {
                third
            },
            Shape::Line(first, _) => first,
            Shape::Point(vertex) => vertex,
        }
    }
}

impl Primitive {
    /// The vertices of this primitive, and which of them is the provoking one.
    pub open spec fn shape(self) -> Shape {
        match self {
            Primitive::Triangle { vertices, provoking, .. } => Shape::Triangle(
                vertices@[0],
                vertices@[1],
                vertices@[2],
                provoking as int,
            ),
            Primitive::Line { vertices, .. } => Shape::Line(vertices@[0], vertices@[1]),
            Primitive::Point { vertex, .. } => Shape::Point(vertex),
        }
    }

    /// The index of this primitive within its draw.
    pub open spec fn ordinal(self) -> u32 {
        match self {
            Primitive::Triangle { index, .. } => index,
            Primitive::Line { index, .. } => index,
            Primitive::Point { index, .. } => index,
        }
    }

    /// The index of this primitive within its draw.
    pub fn index(&self) -> (ordinal: u32)
        ensures
            ordinal == self.ordinal(),
    {
        match self {
            Primitive::Triangle { index, .. } => *index,
            Primitive::Line { index, .. } => *index,
            Primitive::Point { index, .. } => *index,
        }
    }
}

/// The vertices since the last restart.
pub open spec fn current_run(stream: Seq<Option<u32>>) -> Seq<u32>
    decreases stream.len(),
{
    if stream.len() == 0 {
        Seq::empty()
    } else {
        match stream.last() {
            None => Seq::empty(),
            Some(vertex) => current_run(stream.drop_last()).push(vertex),
        }
    }
}

/// The primitive the last vertex of a run completes, if it completes one. The provoking vertex is the one that came
/// first, and a fan's is the first behind its hub.
pub open spec fn completed(topology: Topology, run: Seq<u32>) -> Option<Shape> {
    let n = run.len() as int;
    match topology {
        Topology::TriangleList => if n > 0 && n % 3 == 0 {
            Some(Shape::Triangle(run[n - 3], run[n - 2], run[n - 1], 0))
        } else {
            None
        },
        Topology::TriangleStrip => if n < 3 {
            None
        } else if n % 2 == 1 {
            Some(Shape::Triangle(run[n - 3], run[n - 2], run[n - 1], 0))
        } else {
            Some(Shape::Triangle(run[n - 2], run[n - 3], run[n - 1], 1))
        },
        Topology::TriangleFan => if n < 3 {
            None
        } else {
            Some(Shape::Triangle(run[0], run[n - 2], run[n - 1], 1))
        },
        Topology::LineList => if n > 0 && n % 2 == 0 {
            Some(Shape::Line(run[n - 2], run[n - 1]))
        } else {
            None
        },
        Topology::LineStrip => if n < 2 {
            None
        } else {
            Some(Shape::Line(run[n - 2], run[n - 1]))
        },
        Topology::PointList => if n > 0 {
            Some(Shape::Point(run[n - 1]))
        } else {
            None
        },
    }
}

/// The primitives a stream of vertices and restarts makes, in order.
pub open spec fn shapes(topology: Topology, stream: Seq<Option<u32>>) -> Seq<Shape>
    decreases stream.len(),
{
    if stream.len() == 0 {
        Seq::empty()
    } else {
        let before = shapes(topology, stream.drop_last());
        match stream.last() {
            None => before,
            Some(_) => match completed(topology, current_run(stream)) {
                None => before,
                Some(shape) => before.push(shape),
            },
        }
    }
}

/// The first `count` vertices of a draw, as far as they can be named.
pub open spec fn stream(indices: Indices<'_>, count: nat, base_vertex: i32) -> Seq<Option<u32>> {
    Seq::new(count, |i: int| indices.vertex_at(i, base_vertex)->Ok_0)
}

/// Why a draw of `count` vertices is refused before its vertices are looked at.
pub open spec fn draw_fault(topology: Topology, indices: Indices<'_>, count: u32, restart: bool) -> Option<
    Error,
> {
    if restart && topology.is_list() {
        Some(Error::InvalidRenderState { reason: StateFault::RestartOnList })
    } else if !(indices is Sequential) && count > indices.stored() {
        Some(
            Error::InvalidMesh {
                reason: MeshFault::IndexOutOfRange {
                    index: count,
                    vertices: indices.stored() as u32,
                },
            },
        )
    } else {
        None
    }
}

/// The primitives a stream of vertices completes, numbered in order.
pub open spec fn assembled(into: Seq<Primitive>, topology: Topology, stream: Seq<Option<u32>>) -> bool {
    &&& into.len() == shapes(topology, stream).len()
    &&& forall|i: int|
        0 <= i < into.len() ==> (#[trigger] into[i]).ordinal() == i && into[i].shape() == shapes(
            topology,
            stream,
        )[i]
}

/// The vertices of the current run that are kept for what may follow: all of a strip's or a fan's, and of a list's
/// those that are not yet part of a finished primitive.
pub open spec fn pending(topology: Topology, run: Seq<u32>) -> Seq<u32> {
    if topology.is_list() {
        run.skip(run.len() - run.len() % topology.arity())
    } else {
        run
    }
}

/// Assemble a draw's primitives into `into`, with `run` as scratch the caller keeps.
pub fn assemble(
    topology: Topology,
    indices: Indices<'_>,
    count: u32,
    base_vertex: i32,
    restart: bool,
    into: &mut Vec<Primitive>,
    run: &mut Vec<u32>,
) -> (outcome: Result<(), Error>)
    ensures
        match draw_fault(topology, indices, count, restart) {
            Some(fault) => outcome == Err::<(), Error>(fault) && final(into)@.len() == 0 && final(run)@.len()
                == 0,
            None => match outcome {
                Ok(_) => {
                    &&& forall|i: int|
                        0 <= i < count ==> (#[trigger] indices.vertex_at(i, base_vertex)) is Ok
                    &&& final(into)@.len() <= count
                    &&& assembled(final(into)@, topology, stream(indices, count as nat, base_vertex))
                    &&& final(run)@ == pending(
                        topology,
                        current_run(stream(indices, count as nat, base_vertex)),
                    )
                },
                Err(fault) => exists|i: int|
                    {
                        &&& 0 <= i < count
                        &&& #[trigger] indices.vertex_at(i, base_vertex) == Err::<
                            Option<u32>,
                            Error,
                        >(fault)
                        &&& forall|j: int|
                            0 <= j < i ==> (#[trigger] indices.vertex_at(j, base_vertex)) is Ok
                        &&& assembled(final(into)@, topology, stream(indices, i as nat, base_vertex))
                        &&& final(run)@ == pending(
                            topology,
                            current_run(stream(indices, i as nat, base_vertex)),
                        )
                    },
            },
        },
{
    into.clear();
    run.clear();
    if restart && matches!(
        topology,
        Topology::TriangleList | Topology::LineList | Topology::PointList
    ) {
        return Err(Error::InvalidRenderState { reason: StateFault::RestartOnList });
    }
    if !matches!(indices, Indices::Sequential) && count as usize > indices.len() {
        return Err(
            Error::InvalidMesh {
                reason: MeshFault::IndexOutOfRange { index: count, vertices: indices.len() as u32 },
            },
        );
    }
    let mut primitive: u32 = 0;
    let mut position: u32 = 0;
    while position < count
        invariant
            position <= count,
            primitive <= position,
            primitive == into@.len(),
            draw_fault(topology, indices, count, restart) is None,
            forall|j: int| 0 <= j < position ==> (#[trigger] indices.vertex_at(j, base_vertex)) is Ok,
            run@ == pending(topology, current_run(stream(indices, position as nat, base_vertex))),
            assembled(into@, topology, stream(indices, position as nat, base_vertex)),
        decreases count - position,
    {
        let ghost before = stream(indices, position as nat, base_vertex);
        let ghost after = stream(indices, (position + 1) as nat, base_vertex);
        let ghost full = current_run(before);
        assert(after.drop_last() =~= before);
        match indices.at(position as usize, base_vertex) {
            Err(fault) => {
                return Err(fault);
            },
            Ok(None) => {
                run.clear();
                proof {
                    assert(pending(topology, Seq::<u32>::empty()) =~= Seq::<u32>::empty());
                }
                position = position + 1;
                continue ;
            },
            Ok(Some(index)) => {
                run.push(index);
                assert(after.last() == Some(index));
                assert(current_run(after) == full.push(index));
            },
        }
        let ghost grown = current_run(after);
        proof {
            grown_pending(topology, full, grown.last());
            assert(run@ =~= pending(topology, full).push(grown.last()));
        }
        let length: usize = run.len();
        match topology {
            Topology::TriangleList => {
                if length == 3 {
                    into.push(
                        Primitive::Triangle {
                            vertices: [run[0], run[1], run[2]],
                            provoking: 0,
                            index: primitive,
                        },
                    );
                    primitive = primitive + 1;
                    run.clear();
                }
            },
            Topology::TriangleStrip => {
                if length >= 3 {
                    let last: usize = length - 1;
                    let turned: usize = (last - 2) % 2;
                    let vertices = if turned == 0 {
                        [run[last - 2], run[last - 1], run[last]]
                    } else {
                        [run[last - 1], run[last - 2], run[last]]
                    };
                    into.push(Primitive::Triangle { vertices, provoking: turned, index: primitive });
                    primitive = primitive + 1;
                }
            },
            Topology::TriangleFan => {
                if length >= 3 {
                    let last: usize = length - 1;
                    into.push(
                        Primitive::Triangle {
                            vertices: [run[0], run[last - 1], run[last]],
                            provoking: 1,
                            index: primitive,
                        },
                    );
                    primitive = primitive + 1;
                }
            },
            Topology::LineList => {
                if length == 2 {
                    into.push(Primitive::Line { vertices: [run[0], run[1]], index: primitive });
                    primitive = primitive + 1;
                    run.clear();
                }
            },
            Topology::LineStrip => {
                if length >= 2 {
                    let last: usize = length - 1;
                    into.push(
                        Primitive::Line { vertices: [run[last - 1], run[last]], index: primitive },
                    );
                    primitive = primitive + 1;
                }
            },
            Topology::PointList => {
                into.push(Primitive::Point { vertex: run[0], index: primitive });
                primitive = primitive + 1;
                run.clear();
            },
        }
        proof {
            assert(run@ =~= pending(topology, grown));
        }
        position = position + 1;
    }
    Ok(())
}

/// How the unfinished part of a list run grows by one vertex.
proof fn grown_pending(topology: Topology, run: Seq<u32>, vertex: u32)
    ensures
        ({
            let grown = run.push(vertex);
            let rest = pending(topology, run).push(vertex);
            &&& !topology.is_list() ==> rest == grown
            &&& topology.is_list() ==> {
                &&& rest.len() == run.len() % topology.arity() + 1
                &&& rest.len() == topology.arity() <==> grown.len() % topology.arity() == 0
                &&& rest == grown.skip(grown.len() - rest.len())
                &&& rest.len() == topology.arity() ==> pending(topology, grown).len() == 0
                &&& rest.len() < topology.arity() ==> pending(topology, grown) == rest
            }
        }),
{
    let grown = run.push(vertex);
    let rest = pending(topology, run).push(vertex);
    if topology.is_list() {
        assert(rest =~= grown.skip(grown.len() - rest.len()));
        if rest.len() < topology.arity() {
            assert(grown.len() % topology.arity() == rest.len());
            assert(pending(topology, grown) =~= rest);
        }
    }
}

/// The vertex of a primitive a flat attribute comes from, as a position in the draw.
pub open spec fn provoking_position(topology: Topology, primitive: int) -> int {
    match topology {
        Topology::TriangleList => 3 * primitive,
        Topology::TriangleStrip => primitive,
        Topology::TriangleFan => primitive + 1,
        Topology::LineList => 2 * primitive,
        Topology::LineStrip => primitive,
        Topology::PointList => primitive,
    }
}

/// The vertex of a primitive a flat attribute comes from, as a position in the draw.
pub fn provoking(topology: Topology, primitive: u32) -> (position: u32)
    requires
        provoking_position(topology, primitive as int) <= u32::MAX,
    ensures
        position == provoking_position(topology, primitive as int),
{
    match topology {
        Topology::TriangleList => 3 * primitive,
        Topology::TriangleStrip => primitive,
        Topology::TriangleFan => primitive + 1,
        Topology::LineList => 2 * primitive,
        Topology::LineStrip => primitive,
        Topology::PointList => primitive,
    }
}

/// A restart ends what came before it and starts afresh: the primitives of the two sides are
/// assembled apart.
pub proof fn a_restart_parts_the_stream(
    topology: Topology,
    left: Seq<Option<u32>>,
    right: Seq<Option<u32>>,
)
    ensures
        current_run(left.push(None) + right) == current_run(right),
        shapes(topology, left.push(None) + right) == shapes(topology, left) + shapes(topology, right),
    decreases right.len(),
{
    let whole = left.push(None) + right;
    if right.len() == 0 {
        assert(whole =~= left.push(None));
        assert(whole.drop_last() =~= left);
        assert(shapes(topology, left) + shapes(topology, right) =~= shapes(topology, left));
    } else {
        a_restart_parts_the_stream(topology, left, right.drop_last());
        assert(whole.drop_last() =~= left.push(None) + right.drop_last());
        assert(whole.last() == right.last());
        assert(current_run(whole) == current_run(right));
        assert(shapes(topology, whole) =~= shapes(topology, left) + shapes(topology, right));
    }
}

/// Whether a stream holds no restart.
pub open spec fn unbroken(stream: Seq<Option<u32>>) -> bool {
    forall|i: int| 0 <= i < stream.len() ==> (#[trigger] stream[i]) is Some
}

/// How many primitives an unbroken run of vertices makes.
pub open spec fn primitive_count(topology: Topology, vertices: nat) -> nat {
    match topology {
        Topology::TriangleList => vertices / 3,
        Topology::LineList => vertices / 2,
        Topology::PointList => vertices,
        Topology::TriangleStrip | Topology::TriangleFan => if vertices < 3 {
            0
        } else {
            (vertices - 2) as nat
        },
        Topology::LineStrip => if vertices < 2 {
            0
        } else {
            (vertices - 1) as nat
        },
    }
}

/// Without a restart the number of primitives is the topology's own function of the vertex count,
/// and the current run is every vertex so far.
pub proof fn an_unbroken_stream_fills_its_topology(topology: Topology, stream: Seq<Option<u32>>)
    requires
        unbroken(stream),
    ensures
        current_run(stream).len() == stream.len(),
        forall|i: int|
            0 <= i < stream.len() ==> (#[trigger] current_run(stream)[i]) == stream[i]->Some_0,
        shapes(topology, stream).len() == primitive_count(topology, stream.len()),
    decreases stream.len(),
{
    if stream.len() > 0 {
        let shorter = stream.drop_last();
        assert forall|i: int| 0 <= i < shorter.len() implies (#[trigger] shorter[i]) is Some by {
            assert(shorter[i] == stream[i]);
        }
        an_unbroken_stream_fills_its_topology(topology, shorter);
        assert(stream[stream.len() - 1] is Some);
        assert forall|i: int| 0 <= i < stream.len() implies (#[trigger] current_run(stream)[i])
            == stream[i]->Some_0 by {
            if i < shorter.len() {
                assert(current_run(stream)[i] == current_run(shorter)[i]);
            }
        }
    }
}

/// The provoking vertex of a primitive of an unbroken stream is the one at the provoking position of the draw, whatever
/// the vertices are.
pub proof fn the_provoking_vertex_is_the_one_assembled(topology: Topology, stream: Seq<Option<u32>>, i: int)
    requires
        unbroken(stream),
        0 <= i < shapes(topology, stream).len(),
    ensures
        0 <= provoking_position(topology, i) < stream.len(),
        shapes(topology, stream)[i].provoking_vertex() == stream[provoking_position(topology, i)]->Some_0,
    decreases stream.len(),
{
    let shorter = stream.drop_last();
    assert forall|j: int| 0 <= j < shorter.len() implies (#[trigger] shorter[j]) is Some by {
        assert(shorter[j] == stream[j]);
    }
    an_unbroken_stream_fills_its_topology(topology, shorter);
    an_unbroken_stream_fills_its_topology(topology, stream);
    assert(stream[stream.len() - 1] is Some);
    if i < shapes(topology, shorter).len() {
        the_provoking_vertex_is_the_one_assembled(topology, shorter, i);
        assert(shapes(topology, stream)[i] == shapes(topology, shorter)[i]);
    } else {
        let run = current_run(stream);
        let at = provoking_position(topology, i);
        assert(completed(topology, run) == Some(shapes(topology, stream)[i]));
        assert(run[at] == stream[at]->Some_0);
    }
}

/// Every assembled primitive has a provoking vertex, restarts or not.
pub proof fn every_shape_has_its_provoking_vertex(topology: Topology, stream: Seq<Option<u32>>, i: int)
    requires
        0 <= i < shapes(topology, stream).len(),
    ensures
        0 <= shapes(topology, stream)[i].provoking_slot() < shapes(topology, stream)[i].corners(),
    decreases stream.len(),
{
    let shorter = stream.drop_last();
    if i < shapes(topology, shorter).len() {
        every_shape_has_its_provoking_vertex(topology, shorter, i);
    }
}

/// An exact rational with a positive denominator.
#[derive(Clone, Copy, PartialEq, Eq, Structural, Debug)]
pub struct Frac {
    pub numerator: i64,
    /// Always positive.
    pub denominator: i64,
}

impl Frac {
    /// The order of two rationals, by cross multiplication.
    pub open spec fn below(self, other: Frac) -> bool {
        self.numerator * other.denominator < other.numerator * self.denominator
    }

    /// The rational `numerator / denominator`, with its sign moved to the numerator.
    pub fn new(numerator: i64, denominator: i64) -> (made: Frac)
        requires
            denominator != 0,
            denominator < 0 ==> numerator > i64::MIN && denominator > i64::MIN,
        ensures
            made.denominator > 0,
            denominator > 0 ==> made.numerator == numerator && made.denominator == denominator,
            denominator < 0 ==> made.numerator == -numerator && made.denominator == -denominator,
    {
        if denominator < 0 {
            Frac { numerator: -numerator, denominator: -denominator }
        } else {
            Frac { numerator, denominator }
        }
    }

    /// Whether this rational is below another.
    pub fn less(self, other: Frac) -> (lower: bool)
        ensures
            lower == self.below(other),
    {
        proof {
            product_fits(self.numerator, other.denominator);
            product_fits(other.numerator, self.denominator);
        }
        (self.numerator as i128) * (other.denominator as i128) < (other.numerator as i128) * (
        self.denominator as i128)
    }
}

proof fn product_fits(a: i64, b: i64)
    ensures
        i128::MIN <= a * b <= i128::MAX,
{
    assert(-0x4000_0000_0000_0000_0000_0000_0000_0000 <= a * b
        <= 0x4000_0000_0000_0000_0000_0000_0000_0000) by (nonlinear_arith)
        requires
            -0x8000_0000_0000_0000 <= a <= 0x8000_0000_0000_0000,
            -0x8000_0000_0000_0000 <= b <= 0x8000_0000_0000_0000,
    ;
}

/// The larger of two rationals; the left one when they are equal.
pub fn maximum(left: Frac, right: Frac) -> (larger: Frac)
    ensures
        larger == if left.below(right) {
            right
        } else {
            left
        },
{
    if left.less(right) {
        right
    } else {
        left
    }
}

/// The smaller of two rationals; the right one when they are equal.
pub fn minimum(left: Frac, right: Frac) -> (smaller: Frac)
    ensures
        smaller == if left.below(right) {
            left
        } else {
            right
        },
{
    if left.less(right) {
        left
    } else {
        right
    }
}

/// The magnitude of an integer.
pub open spec fn magnitude(v: int) -> int {
    if v < 0 {
        -v
    } else {
        v
    }
}

/// The centre of a pixel on one axis, in subpixel units.
pub open spec fn centre(pixel: int) -> int {
    pixel * SUBPIXEL_ONE + SUBPIXEL_HALF
}

/// Whether the offset `(x, y) / scale` from a pixel centre is strictly inside the pixel's diamond:
/// its Manhattan length is below half a pixel.
pub open spec fn in_diamond(x: int, y: int, scale: int) -> bool {
    magnitude(x) + magnitude(y) < SUBPIXEL_HALF * scale
}

/// Whether the segment is strictly inside the pixel's diamond at parameter `n / d`.
pub open spec fn inside_at(
    from: (Subpixel, Subpixel),
    to: (Subpixel, Subpixel),
    pixel_x: int,
    pixel_y: int,
    n: int,
    d: int,
) -> bool {
    in_diamond(
        d * (from.0.0 - centre(pixel_x)) + n * (to.0.0 - from.0.0),
        d * (from.1.0 - centre(pixel_y)) + n * (to.1.0 - from.1.0),
        d,
    )
}

/// The diamond-exit rule: the segment is inside the diamond at some parameter in `[0, 1)` and is not
/// inside it at its end.
pub open spec fn exits_diamond(
    from: (Subpixel, Subpixel),
    to: (Subpixel, Subpixel),
    pixel_x: int,
    pixel_y: int,
) -> bool {
    &&& exists|n: int, d: int|
        0 <= n < d && #[trigger] inside_at(from, to, pixel_x, pixel_y, n, d)
    &&& !in_diamond(to.0.0 - centre(pixel_x), to.1.0 - centre(pixel_y), 1)
}

/// Whether the offsets and slopes of the diamond test are all `i64`.
pub open spec fn line_fits(
    from: (Subpixel, Subpixel),
    to: (Subpixel, Subpixel),
    pixel_x: int,
    pixel_y: int,
) -> bool {
    &&& i64::MIN <= pixel_x * SUBPIXEL_ONE && centre(pixel_x) <= i64::MAX
    &&& i64::MIN <= pixel_y * SUBPIXEL_ONE && centre(pixel_y) <= i64::MAX
    &&& magnitude(from.0.0 - centre(pixel_x)) + magnitude(from.1.0 - centre(pixel_y)) + magnitude(
        to.0.0 - from.0.0,
    ) + magnitude(to.1.0 - from.1.0) + SUBPIXEL_HALF <= i64::MAX
}

/// One half-plane of the diamond along the segment: `offset + t * slope < SUBPIXEL_HALF`.
spec fn plane_holds(offset: int, slope: int, n: int, d: int) -> bool {
    offset * d + n * slope < SUBPIXEL_HALF * d
}

/// `low <= n / d < high`.
spec fn from_low(low: Frac, high: Frac, n: int, d: int) -> bool {
    low.numerator * d <= n * low.denominator && n * high.denominator < high.numerator * d
}

/// `low < n / d < high`.
spec fn between(low: Frac, high: Frac, n: int, d: int) -> bool {
    low.numerator * d < n * low.denominator && n * high.denominator < high.numerator * d
}

proof fn below_then_at_most(n: int, d: int, c: int, e: int, p: int, q: int)
    requires
        d > 0,
        e > 0,
        q > 0,
        n * e < c * d,
        c * q <= p * e,
    ensures
        n * q < p * d,
{
    assert((n * e) * q < (c * d) * q) by (nonlinear_arith)
        requires
            n * e < c * d,
            q > 0,
    ;
    assert((c * q) * d <= (p * e) * d) by (nonlinear_arith)
        requires
            c * q <= p * e,
            d > 0,
    ;
    assert((n * e) * q == e * (n * q)) by (nonlinear_arith);
    assert((c * d) * q == (c * q) * d) by (nonlinear_arith);
    assert((p * e) * d == e * (p * d)) by (nonlinear_arith);
    assert(n * q < p * d) by (nonlinear_arith)
        requires
            e * (n * q) < e * (p * d),
            e > 0,
    ;
}

proof fn at_most_then_below(n: int, d: int, c: int, e: int, p: int, q: int)
    requires
        d > 0,
        e > 0,
        q > 0,
        p * e <= c * q,
        c * d < n * e,
    ensures
        p * d < n * q,
{
    assert((c * d) * q < (n * e) * q) by (nonlinear_arith)
        requires
            c * d < n * e,
            q > 0,
    ;
    assert((p * e) * d <= (c * q) * d) by (nonlinear_arith)
        requires
            p * e <= c * q,
            d > 0,
    ;
    assert((n * e) * q == e * (n * q)) by (nonlinear_arith);
    assert((c * d) * q == (c * q) * d) by (nonlinear_arith);
    assert((p * e) * d == e * (p * d)) by (nonlinear_arith);
    assert(p * d < n * q) by (nonlinear_arith)
        requires
            e * (p * d) < e * (n * q),
            e > 0,
    ;
}

/// A half-plane of positive slope is an upper bound on the parameter, one of negative slope a lower
/// bound.
proof fn plane_is_a_bound(offset: int, slope: int, n: int, d: int)
    requires
        d > 0,
    ensures
        plane_holds(offset, slope, n, d) <==> n * slope < (SUBPIXEL_HALF - offset) * d,
        plane_holds(offset, slope, n, d) <==> (offset - SUBPIXEL_HALF) * d < n * (-slope),
        slope == 0 ==> (plane_holds(offset, slope, n, d) <==> offset < SUBPIXEL_HALF),
{
    assert((128 - offset) * d == 128 * d - offset * d) by (nonlinear_arith);
    assert((offset - 128) * d == offset * d - 128 * d) by (nonlinear_arith);
    assert(n * (-slope) == -(n * slope)) by (nonlinear_arith);
    if slope == 0 {
        if offset < 128 {
            assert(offset * d < 128 * d) by (nonlinear_arith)
                requires
                    offset < 128,
                    d > 0,
            ;
        } else {
            assert(offset * d >= 128 * d) by (nonlinear_arith)
                requires
                    offset >= 128,
                    d > 0,
            ;
        }
    }
}

/// One half-plane's turn at narrowing the parameter interval of a segment. `None` is a half-plane
/// that no parameter satisfies.
fn narrow(low: Frac, high: Frac, offset: i64, slope: i64) -> (narrowed: Option<(Frac, Frac)>)
    requires
        low.denominator > 0,
        high.denominator > 0,
        -0x7fff_ffff_ffff_ffff <= SUBPIXEL_HALF - offset <= 0x7fff_ffff_ffff_ffff,
        slope > i64::MIN,
    ensures
        match narrowed {
            None => forall|n: int, d: int|
                d > 0 ==> !(#[trigger] plane_holds(offset as int, slope as int, n, d)),
            Some((l, h)) => {
                &&& l.denominator > 0
                &&& h.denominator > 0
                &&& forall|n: int, d: int|
                    d > 0 && #[trigger] from_low(low, high, n, d) && plane_holds(
                        offset as int,
                        slope as int,
                        n,
                        d,
                    ) ==> from_low(l, h, n, d)
                &&& forall|n: int, d: int|
                    d > 0 && #[trigger] between(l, h, n, d) ==> between(low, high, n, d)
                        && plane_holds(offset as int, slope as int, n, d)
            },
        },
{
    proof {
        assert forall|n: int, d: int| d > 0 && slope == 0 implies (#[trigger] plane_holds(
            offset as int,
            slope as int,
            n,
            d,
        ) <==> offset < SUBPIXEL_HALF) by {
            plane_is_a_bound(offset as int, slope as int, n, d);
        }
    }
    if slope == 0 {
        if offset >= SUBPIXEL_HALF {
            return None;
        }
        return Some((low, high));
    }
    let bound = Frac::new(SUBPIXEL_HALF - offset, slope);
    let narrowed = if slope > 0 {
        (low, minimum(high, bound))
    } else {
        (maximum(low, bound), high)
    };
    proof {
        let (l, h) = narrowed;
        assert forall|n: int, d: int|
            d > 0 && #[trigger] from_low(low, high, n, d) && plane_holds(
                offset as int,
                slope as int,
                n,
                d,
            ) implies from_low(l, h, n, d) by {
            plane_is_a_bound(offset as int, slope as int, n, d);
        }
        assert forall|n: int, d: int| d > 0 && #[trigger] between(l, h, n, d) implies between(
            low,
            high,
            n,
            d,
        ) && plane_holds(offset as int, slope as int, n, d) by {
            plane_is_a_bound(offset as int, slope as int, n, d);
            let (bn, bd) = (bound.numerator as int, bound.denominator as int);
            if slope > 0 {
                let (hn, hd) = (high.numerator as int, high.denominator as int);
                if high.below(bound) {
                    below_then_at_most(n, d, hn, hd, bn, bd);
                } else {
                    below_then_at_most(n, d, bn, bd, hn, hd);
                }
            } else {
                let (ln, ld) = (low.numerator as int, low.denominator as int);
                if low.below(bound) {
                    at_most_then_below(n, d, bn, bd, ln, ld);
                } else {
                    at_most_then_below(n, d, ln, ld, bn, bd);
                }
            }
        }
    }
    Some(narrowed)
}

/// The diamond is the meeting of four half-planes, at every parameter.
proof fn planes_are_the_diamond(x0: int, y0: int, dx: int, dy: int, n: int, d: int)
    ensures
        in_diamond(d * x0 + n * dx, d * y0 + n * dy, d) <==> plane_holds(x0 + y0, dx + dy, n, d)
            && plane_holds(x0 - y0, dx - dy, n, d) && plane_holds(-x0 + y0, -dx + dy, n, d)
            && plane_holds(-x0 - y0, -dx - dy, n, d),
{
    assert((x0 + y0) * d + n * (dx + dy) == (d * x0 + n * dx) + (d * y0 + n * dy)) by (nonlinear_arith);
    assert((x0 - y0) * d + n * (dx - dy) == (d * x0 + n * dx) - (d * y0 + n * dy)) by (nonlinear_arith);
    assert((-x0 + y0) * d + n * (-dx + dy) == -(d * x0 + n * dx) + (d * y0 + n * dy))
        by (nonlinear_arith);
    assert((-x0 - y0) * d + n * (-dx - dy) == -(d * x0 + n * dx) - (d * y0 + n * dy))
        by (nonlinear_arith);
}

/// Between two distinct rationals lies a third.
proof fn midpoint_is_between(low: Frac, high: Frac) -> (mid: (int, int))
    requires
        low.denominator > 0,
        high.denominator > 0,
        low.below(high),
    ensures
        mid.1 > 0,
        between(low, high, mid.0, mid.1),
{
    let (a, b, c, e) = (
        low.numerator as int,
        low.denominator as int,
        high.numerator as int,
        high.denominator as int,
    );
    let n = a * e + c * b;
    let d = 2 * (b * e);
    assert(b * e > 0) by (nonlinear_arith)
        requires
            b > 0,
            e > 0,
    ;
    assert(a * (2 * (b * e)) < (a * e + c * b) * b) by (nonlinear_arith)
        requires
            a * e < c * b,
            b > 0,
    ;
    assert((a * e + c * b) * e < c * (2 * (b * e))) by (nonlinear_arith)
        requires
            a * e < c * b,
            e > 0,
    ;
    (n, d)
}

/// Whether a segment covers a pixel under the diamond-exit rule.
pub fn line_covers_pixel(
    from: (Subpixel, Subpixel),
    to: (Subpixel, Subpixel),
    pixel_x: i64,
    pixel_y: i64,
) -> (covered: bool)
    requires
        line_fits(from, to, pixel_x as int, pixel_y as int),
    ensures
        covered == exits_diamond(from, to, pixel_x as int, pixel_y as int),
{
    let centre_x: i64 = pixel_x * SUBPIXEL_ONE + SUBPIXEL_HALF;
    let centre_y: i64 = pixel_y * SUBPIXEL_ONE + SUBPIXEL_HALF;
    let x0: i64 = from.0.0 - centre_x;
    let y0: i64 = from.1.0 - centre_y;
    let dx: i64 = to.0.0 - from.0.0;
    let dy: i64 = to.1.0 - from.1.0;
    let zero = Frac { numerator: 0, denominator: 1 };
    let one = Frac { numerator: 1, denominator: 1 };
    proof {
        assert forall|n: int, d: int| #[trigger]
            inside_at(from, to, pixel_x as int, pixel_y as int, n, d) <==> plane_holds(
                x0 + y0,
                dx + dy,
                n,
                d,
            ) && plane_holds(x0 - y0, dx - dy, n, d) && plane_holds(-x0 + y0, -dx + dy, n, d)
                && plane_holds(-x0 - y0, -dx - dy, n, d) by {
            planes_are_the_diamond(x0 as int, y0 as int, dx as int, dy as int, n, d);
        }
        assert forall|n: int, d: int| 0 <= n < d implies #[trigger] from_low(zero, one, n, d) by {}
    }
    let (low, high) = match narrow(zero, one, x0 + y0, dx + dy) {
        Some(interval) => interval,
        None => {
            return false;
        },
    };
    let (low, high) = match narrow(low, high, x0 - y0, dx - dy) {
        Some(interval) => interval,
        None => {
            return false;
        },
    };
    let (low, high) = match narrow(low, high, -x0 + y0, -dx + dy) {
        Some(interval) => interval,
        None => {
            return false;
        },
    };
    let (low, high) = match narrow(low, high, -x0 - y0, -dx - dy) {
        Some(interval) => interval,
        None => {
            return false;
        },
    };
    let inside_at_end = x0 + y0 + (dx + dy) < SUBPIXEL_HALF && x0 - y0 + (dx - dy) < SUBPIXEL_HALF
        && -x0 + y0 + (-dx + dy) < SUBPIXEL_HALF && -x0 - y0 + (-dx - dy) < SUBPIXEL_HALF;
    if !low.less(high) {
        proof {
            assert forall|n: int, d: int| 0 <= n < d implies !(#[trigger] inside_at(
                from,
                to,
                pixel_x as int,
                pixel_y as int,
                n,
                d,
            )) by {
                assert(from_low(zero, one, n, d));
                if from_low(low, high, n, d) {
                    below_then_at_most(
                        n,
                        d,
                        high.numerator as int,
                        high.denominator as int,
                        low.numerator as int,
                        low.denominator as int,
                    );
                }
            }
        }
        return false;
    }
    proof {
        let (n, d) = midpoint_is_between(low, high);
        assert(between(zero, one, n, d));
        assert(0 * d < n * 1 && n * 1 < 1 * d) by {
            assert(zero.numerator == 0 && zero.denominator == 1);
            assert(one.numerator == 1 && one.denominator == 1);
        }
        assert(inside_at(from, to, pixel_x as int, pixel_y as int, n, d));
        assert(0 <= n < d);
    }
    !inside_at_end
}

/// Two segments that meet inside a pixel's diamond light the pixel exactly once: the first ends
/// inside and does not light it, the second starts inside and lights it exactly when it leaves.
pub proof fn segments_meeting_in_a_diamond_light_it_once(
    a: (Subpixel, Subpixel),
    b: (Subpixel, Subpixel),
    c: (Subpixel, Subpixel),
    pixel_x: int,
    pixel_y: int,
)
    requires
        in_diamond(b.0.0 - centre(pixel_x), b.1.0 - centre(pixel_y), 1),
    ensures
        !exits_diamond(a, b, pixel_x, pixel_y),
        exits_diamond(b, c, pixel_x, pixel_y) <==> !in_diamond(
            c.0.0 - centre(pixel_x),
            c.1.0 - centre(pixel_y),
            1,
        ),
{
    assert(inside_at(b, c, pixel_x, pixel_y, 0, 1));
}

/// The half-open square of a point on one axis.
pub open spec fn point_spans(centre: int, size: int, at: int) -> bool {
    centre - size * SUBPIXEL_HALF <= at < centre + size * SUBPIXEL_HALF
}

/// A pixel's centre on an axis, from a point of the raster grid.
pub open spec fn centre_from(pixel: int, from: int) -> int {
    pixel * SUBPIXEL_ONE + SUBPIXEL_HALF - from
}

/// The square of a segment's length.
pub open spec fn length_squared(from: (int, int), to: (int, int)) -> int {
    (to.0 - from.0) * (to.0 - from.0) + (to.1 - from.1) * (to.1 - from.1)
}

/// Where the foot of a pixel's centre on a segment is, in parts of the square of its length.
pub open spec fn foot(from: (int, int), to: (int, int), pixel: (int, int)) -> int {
    centre_from(pixel.0, from.0) * (to.0 - from.0) + centre_from(pixel.1, from.1) * (to.1 - from.1)
}

/// How far along a segment a pixel's centre is, as a fraction: its foot on the segment, held between the two ends. A
/// segment of no length is at its start.
pub fn line_parameter(
    from: (Subpixel, Subpixel),
    to: (Subpixel, Subpixel),
    pixel_x: i64,
    pixel_y: i64,
) -> (parameter: (i64, i64))
    requires
        point_on_grid(from),
        point_on_grid(to),
        -0x1_0000_0000 <= pixel_x <= 0x1_0000_0000,
        -0x1_0000_0000 <= pixel_y <= 0x1_0000_0000,
    ensures
        0 <= parameter.0 <= parameter.1,
        0 < parameter.1,
        ({
            let whole = length_squared(point(from), point(to));
            let at = foot(point(from), point(to), (pixel_x as int, pixel_y as int));
            &&& whole == 0 ==> parameter == (0i64, 1i64)
            &&& whole != 0 ==> parameter.1 == whole && parameter.0 == (if at < 0 {
                0
            } else if at > whole {
                whole
            } else {
                at
            })
        }),
{
    let (dx, dy): (i64, i64) = (to.0.0 - from.0.0, to.1.0 - from.1.0);
    proof {
        a_length_fits(dx as int, dy as int);
    }
    let whole: i64 = dx * dx + dy * dy;
    if whole == 0 {
        return (0, 1);
    }
    let px: i64 = pixel_x * SUBPIXEL_ONE + SUBPIXEL_HALF - from.0.0;
    let py: i64 = pixel_y * SUBPIXEL_ONE + SUBPIXEL_HALF - from.1.0;
    proof {
        a_product_fits(px as int, dx as int);
        a_product_fits(py as int, dy as int);
    }
    let at: i128 = px as i128 * dx as i128 + py as i128 * dy as i128;
    if at < 0 {
        (0, whole)
    } else if at > whole as i128 {
        (whole, whole)
    } else {
        (at as i64, whole)
    }
}

proof fn a_length_fits(dx: int, dy: int)
    requires
        -0x40_0000 <= dx <= 0x40_0000,
        -0x40_0000 <= dy <= 0x40_0000,
    ensures
        0 <= dx * dx <= 0x1000_0000_0000,
        0 <= dy * dy <= 0x1000_0000_0000,
        dx * dx + dy * dy >= 0,
{
    assert(0 <= dx * dx <= 0x40_0000 * 0x40_0000) by (nonlinear_arith)
        requires
            -0x40_0000 <= dx <= 0x40_0000,
    ;
    assert(0 <= dy * dy <= 0x40_0000 * 0x40_0000) by (nonlinear_arith)
        requires
            -0x40_0000 <= dy <= 0x40_0000,
    ;
}

proof fn a_product_fits(far: int, near: int)
    requires
        -0x200_0000_0000 <= far <= 0x200_0000_0000,
        -0x40_0000 <= near <= 0x40_0000,
    ensures
        -0x8000_0000_0000_0000 <= far * near <= 0x8000_0000_0000_0000,
{
    assert(-0x200_0000_0000 * 0x40_0000 <= far * near <= 0x200_0000_0000 * 0x40_0000) by (nonlinear_arith)
        requires
            -0x200_0000_0000 <= far <= 0x200_0000_0000,
            -0x40_0000 <= near <= 0x40_0000,
    ;
}

/// A pixel whose centre is an end of a segment is at that end.
pub proof fn a_line_is_parametrised_from_end_to_end(from: (int, int), to: (int, int), pixel: (int, int))
    requires
        centre_from(pixel.0, 0) == to.0,
        centre_from(pixel.1, 0) == to.1,
    ensures
        foot(from, to, pixel) == length_squared(from, to),
        foot(to, from, pixel) == 0,
{
    assert(centre_from(pixel.0, from.0) == to.0 - from.0);
    assert(centre_from(pixel.1, from.1) == to.1 - from.1);
    assert(0 * (from.0 - to.0) + 0 * (from.1 - to.1) == 0);
}

/// The smallest and the largest a point is drawn, by their bits: one pixel and sixty-four.
pub const MIN_POINT_SIZE: u32 = 0x3F80_0000;

pub const MAX_POINT_SIZE: u32 = 0x4280_0000;

/// The size a point is drawn at: nothing for a size that is not a positive number, else held between the
/// smallest and the largest and rounded, halves away from zero.
pub open spec fn drawn_size(requested: u32) -> int {
    if !finite(requested) || reaches(0, requested) {
        0
    } else if below(requested, MIN_POINT_SIZE) {
        rounded_away(MIN_POINT_SIZE, 0)
    } else if below(MAX_POINT_SIZE, requested) {
        rounded_away(MAX_POINT_SIZE, 0)
    } else {
        rounded_away(requested, 0)
    }
}

/// The point size a vertex stage asked for, clamped and rounded.
pub fn point_size(requested: u32) -> (size: u32)
    ensures
        size == drawn_size(requested),
        size <= 64,
{
    if !is_finite(requested) || at_least(0, requested) {
        return 0;
    }
    proof {
        the_sizes_are_their_bits();
    }
    if less(requested, MIN_POINT_SIZE) {
        return 1;
    }
    if less(MAX_POINT_SIZE, requested) {
        return 64;
    }
    proof {
        a_size_in_range(requested);
    }
    let size: i64 = round_away(requested, 0);
    size as u32
}

proof fn the_sizes_are_their_bits()
    ensures
        rounded_away(MIN_POINT_SIZE, 0) == 1,
        rounded_away(MAX_POINT_SIZE, 0) == 64,
{
    vstd::arithmetic::power2::lemma2_to64();
    assert(significand(MIN_POINT_SIZE) == 0x80_0000 && exponent(MIN_POINT_SIZE) == -23);
    assert(significand(MAX_POINT_SIZE) == 0x80_0000 && exponent(MAX_POINT_SIZE) == -17);
    assert(pow2(23) == 0x80_0000 && pow2(17) == 0x2_0000);
    lemma_fundamental_div_mod_converse(0x180_0000, 0x100_0000, 1, 0x80_0000);
    lemma_fundamental_div_mod_converse(0x102_0000, 0x4_0000, 64, 0x2_0000);
}

/// Rounding a whole number of no fewer than one and no more than sixty-four parts gives one to sixty-four.
proof fn a_quotient_of(whole: int, scale: int)
    requires
        1 <= scale <= whole <= 64 * scale,
    ensures
        1 <= (2 * whole + scale) / (2 * scale) <= 64,
{
    lemma_fundamental_div_mod(2 * whole + scale, 2 * scale);
    let (q, r) = ((2 * whole + scale) / (2 * scale), (2 * whole + scale) % (2 * scale));
    assert(1 <= q <= 64) by (nonlinear_arith)
        requires
            2 * whole + scale == 2 * scale * q + r,
            0 <= r < 2 * scale,
            1 <= scale <= whole <= 64 * scale,
    ;
}

proof fn a_size_in_range(requested: u32)
    requires
        finite(requested),
        !reaches(0, requested),
        !below(requested, MIN_POINT_SIZE),
        !below(MAX_POINT_SIZE, requested),
    ensures
        1 <= rounded_away(requested, 0) <= 64,
{
    vstd::arithmetic::power2::lemma2_to64();
    let (whole, power) = (significand(requested), exponent(requested));
    assert(0x3F80_0000 <= requested <= 0x4280_0000);
    assert(-23 <= power <= -17 && 0x80_0000 <= whole < 0x100_0000);
    if power == -17 {
        assert(whole == 0x80_0000);
    }
    let scale = pow2((-power) as nat) as int;
    assert(power == -23 || power == -22 || power == -21 || power == -20 || power == -19 || power == -18
        || power == -17);
    assert(pow2(17) == 0x2_0000 && pow2(18) == 0x4_0000 && pow2(19) == 0x8_0000 && pow2(20) == 0x10_0000
        && pow2(21) == 0x20_0000 && pow2(22) == 0x40_0000 && pow2(23) == 0x80_0000);
    a_quotient_of(whole, scale);
}


/// Whether a point of `size` pixels centred at `centre` covers a sample. A size of zero covers
/// nothing.
pub fn point_covers(centre: (Subpixel, Subpixel), size: u32, sample: (Subpixel, Subpixel)) -> (covered:
    bool)
    requires
        i64::MIN <= centre.0.0 - size * SUBPIXEL_HALF && centre.0.0 + size * SUBPIXEL_HALF <= i64::MAX,
        i64::MIN <= centre.1.0 - size * SUBPIXEL_HALF && centre.1.0 + size * SUBPIXEL_HALF <= i64::MAX,
    ensures
        covered == (point_spans(centre.0.0 as int, size as int, sample.0.0 as int) && point_spans(
            centre.1.0 as int,
            size as int,
            sample.1.0 as int,
        )),
{
    if size == 0 {
        return false;
    }
    let half: i64 = (size as i64 * SUBPIXEL_ONE) / 2;
    let low_x: i64 = centre.0.0 - half;
    let low_y: i64 = centre.1.0 - half;
    let high_x: i64 = low_x + size as i64 * SUBPIXEL_ONE;
    let high_y: i64 = low_y + size as i64 * SUBPIXEL_ONE;
    sample.0.0 >= low_x && sample.0.0 < high_x && sample.1.0 >= low_y && sample.1.0 < high_y
}

/// Two points of the same size set side by side tile: no sample is in both squares, and every sample
/// of the joint span is in one.
pub proof fn adjacent_points_tile(centre: int, size: int, at: int)
    requires
        size >= 0,
    ensures
        !(point_spans(centre, size, at) && point_spans(centre + size * SUBPIXEL_ONE, size, at)),
        centre - size * SUBPIXEL_HALF <= at < centre + 3 * size * SUBPIXEL_HALF ==> point_spans(
            centre,
            size,
            at,
        ) || point_spans(centre + size * SUBPIXEL_ONE, size, at),
{
}

// ---------------------------------------------------------------------------------------------
// Laws of assembly and of lines and points.
// ---------------------------------------------------------------------------------------------
/// The vertices of primitive `i` of an unbroken stream, by their positions in it: a list takes its vertices by threes, by
/// twos or one by one, a strip a window that moves by one vertex, every other triangle wound the other way so that all
/// face alike, and a fan its first vertex and two neighbours.
pub proof fn primitives_take_their_own_vertices(topology: Topology, stream: Seq<Option<u32>>, i: int)
    requires
        unbroken(stream),
        0 <= i < shapes(topology, stream).len(),
    ensures
        ({
            let at = |position: int| stream[position]->Some_0;
            match shapes(topology, stream)[i] {
                Shape::Triangle(a, b, c, slot) => match topology {
                    Topology::TriangleList => 3 * i + 2 < stream.len() && a == at(3 * i) && b == at(3 * i + 1) && c
                        == at(3 * i + 2) && slot == 0,
                    Topology::TriangleStrip => i + 2 < stream.len() && c == at(i + 2) && (if i % 2 == 0 {
                        a == at(i) && b == at(i + 1) && slot == 0
                    } else {
                        a == at(i + 1) && b == at(i) && slot == 1
                    }),
                    Topology::TriangleFan => i + 2 < stream.len() && a == at(0) && b == at(i + 1) && c == at(i + 2)
                        && slot == 1,
                    _ => false,
                },
                Shape::Line(a, b) => match topology {
                    Topology::LineList => 2 * i + 1 < stream.len() && a == at(2 * i) && b == at(2 * i + 1),
                    Topology::LineStrip => i + 1 < stream.len() && a == at(i) && b == at(i + 1),
                    _ => false,
                },
                Shape::Point(a) => topology is PointList && i < stream.len() && a == at(i),
            }
        }),
    decreases stream.len(),
{
    let shorter = stream.drop_last();
    assert forall|j: int| 0 <= j < shorter.len() implies (#[trigger] shorter[j]) is Some by {
        assert(shorter[j] == stream[j]);
    }
    an_unbroken_stream_fills_its_topology(topology, shorter);
    an_unbroken_stream_fills_its_topology(topology, stream);
    assert(stream[stream.len() - 1] is Some);
    if i < shapes(topology, shorter).len() {
        primitives_take_their_own_vertices(topology, shorter, i);
        assert(shapes(topology, stream)[i] == shapes(topology, shorter)[i]);
    } else {
        let run = current_run(stream);
        let n = run.len() as int;
        assert(completed(topology, run) == Some(shapes(topology, stream)[i]));
        assert(run[0] == stream[0]->Some_0);
        assert(run[n - 1] == stream[n - 1]->Some_0);
        if n >= 2 {
            assert(run[n - 2] == stream[n - 2]->Some_0);
        }
        if n >= 3 {
            assert(run[n - 3] == stream[n - 3]->Some_0);
        }
    }
}

/// How many primitives an unbroken stream makes: as many whole ones as a list has vertices for, and for a strip or a fan
/// one for every vertex after those that start it.
pub proof fn no_vertex_is_wasted(topology: Topology, stream: Seq<Option<u32>>)
    requires
        unbroken(stream),
    ensures
        ({
            let (n, made) = (stream.len() as int, shapes(topology, stream).len() as int);
            match topology {
                Topology::TriangleList => 3 * made <= n < 3 * (made + 1),
                Topology::LineList => 2 * made <= n < 2 * (made + 1),
                Topology::PointList => made == n,
                Topology::TriangleStrip => n >= 2 ==> made + 2 == n,
                Topology::TriangleFan => n >= 2 ==> made + 2 == n,
                Topology::LineStrip => n >= 1 ==> made + 1 == n,
            }
        }),
{
    an_unbroken_stream_fills_its_topology(topology, stream);
}

/// The vertex at a position of a draw is the index stored there, or the position itself without indices, moved by the
/// base; the largest index of its width is a restart, and one that is not stored or moves out of range is refused.
pub proof fn an_index_names_its_vertex(indices: Indices<'_>, position: int, base: i32)
    requires
        0 <= position <= u32::MAX,
    ensures
        ({
            let named = indices.vertex_at(position, base);
            let moved = |raw: int|
                if 0 <= raw + base <= 0xffff_ffff {
                    named matches Ok(Some(vertex)) && vertex == raw + base
                } else {
                    named is Err
                };
            match indices {
                Indices::Sequential => moved(position),
                Indices::U16(values) => if position >= values@.len() {
                    named is Err
                } else if values@[position] == 0xffff {
                    named == Ok::<Option<u32>, Error>(None)
                } else {
                    moved(values@[position] as int)
                },
                Indices::U32(values) => if position >= values@.len() {
                    named is Err
                } else if values@[position] == 0xffff_ffff {
                    named == Ok::<Option<u32>, Error>(None)
                } else {
                    moved(values@[position] as int)
                },
            }
        }),
{
}

/// A level or an upright line between two pixel centres lights every pixel from the first up to the last, and not the
/// last: the diamond of that one is entered and not left.
pub proof fn a_straight_line_lights_all_but_its_end(x: int, y: int, length: int, step: int, upright: bool)
    requires
        length > 0,
        0 <= step <= length,
        i64::MIN <= 256 * x && 256 * (x + length) + 128 <= i64::MAX,
        i64::MIN <= 256 * y && 256 * (y + length) + 128 <= i64::MAX,
    ensures
        ({
            let at = |u: int, v: int| (Subpixel((256 * u + 128) as i64), Subpixel((256 * v + 128) as i64));
            let (from, to) = (
                at(x, y),
                if upright {
                    at(x, y + length)
                } else {
                    at(x + length, y)
                },
            );
            exits_diamond(
                from,
                to,
                if upright {
                    x
                } else {
                    x + step
                },
                if upright {
                    y + step
                } else {
                    y
                },
            ) <==> step < length
        }),
{
    let at = |u: int, v: int| (Subpixel((256 * u + 128) as i64), Subpixel((256 * v + 128) as i64));
    let (from, to) = (
        at(x, y),
        if upright {
            at(x, y + length)
        } else {
            at(x + length, y)
        },
    );
    let (px, py) = if upright {
        (x, y + step)
    } else {
        (x + step, y)
    };
    if step < length {
        assert(length * (-256 * step) + step * (256 * length) == 0) by (nonlinear_arith);
        assert(length * 0 + step * 0 == 0) by (nonlinear_arith);
        assert(inside_at(from, to, px, py, step, length)) by {
            if upright {
                assert(from.0.0 - centre(px) == 0 && to.0.0 - from.0.0 == 0);
                assert(from.1.0 - centre(py) == -256 * step && to.1.0 - from.1.0 == 256 * length);
            } else {
                assert(from.1.0 - centre(py) == 0 && to.1.0 - from.1.0 == 0);
                assert(from.0.0 - centre(px) == -256 * step && to.0.0 - from.0.0 == 256 * length);
            }
        }
    }
}

/// The diamond of a pixel is every place less than half a pixel from its centre, counted along both axes, and its rim is
/// not part of it.
pub proof fn a_diamond_is_half_a_pixel_around(x: int, y: int, pixel_x: int, pixel_y: int)
    ensures
        in_diamond(x - centre(pixel_x), y - centre(pixel_y), 1) <==> ({
            let (u, v) = (x - (256 * pixel_x + 128), y - (256 * pixel_y + 128));
            u + v < 128 && u - v < 128 && v - u < 128 && -u - v < 128
        }),
{
}

/// A point is a square as wide as its size in pixels around its centre, its near edges part of it and its far ones not.
pub proof fn a_point_is_a_half_open_square(middle: int, size: int, at: int)
    requires
        size >= 0,
    ensures
        point_spans(middle, size, at) <==> -256 * size <= 2 * (at - middle) < 256 * size,
{
}

/// The size a point is drawn at is the whole number nearest to the one asked for, held between one and sixty-four, and
/// nothing where that is no number above nothing.
pub proof fn a_point_is_drawn_at_the_nearest_size(requested: u32)
    ensures
        ({
            let (size, one) = (drawn_size(requested), pow2(149) as int);
            &&& !finite(requested) || number(requested) <= 0 ==> size == 0
            &&& finite(requested) && 0 < number(requested) < one ==> size == 1
            &&& finite(requested) && number(requested) > 64 * one ==> size == 64
            &&& finite(requested) && one <= number(requested) <= 64 * one ==> -one <= 2 * (number(requested) - size
                * one) < one
        }),
{
    the_sizes_are_their_bits();
    sizes_are_numbers();
    if finite(requested) {
        order_is_by_number(0, requested);
        assert(number(0) == 0);
        order_is_by_number(requested, MIN_POINT_SIZE);
        order_is_by_number(MAX_POINT_SIZE, requested);
        signs_are_by_number(requested);
        rounding_is_by_number(requested, 0);
        vstd::arithmetic::power2::lemma2_to64();
        assert(number(requested) * pow2(0) == number(requested)) by (nonlinear_arith)
            requires
                pow2(0) == 1,
        ;
    }
}

proof fn sizes_are_numbers()
    ensures
        number(MIN_POINT_SIZE) == pow2(149),
        number(MAX_POINT_SIZE) == 64 * pow2(149),
        pow2(149) > 0,
{
    vstd::arithmetic::power2::lemma2_to64();
    vstd::arithmetic::power2::lemma_pow2_pos(149);
    assert(MIN_POINT_SIZE as int / 0x80_0000 % 0x100 == 127);
    assert(MAX_POINT_SIZE as int / 0x80_0000 % 0x100 == 133);
    vstd::arithmetic::power2::lemma_pow2_adds(23, 126);
    vstd::arithmetic::power2::lemma_pow2_adds(23, 132);
    vstd::arithmetic::power2::lemma_pow2_adds(6, 149);
    assert(pow2(23) == 0x80_0000 && pow2(6) == 64);
}

/// How far along a line a pixel is, is where the foot of its centre falls: the way from there to the centre is square to
/// the line, and past an end it is that end.
pub proof fn a_line_is_parametrised_by_its_foot(
    from: (Subpixel, Subpixel),
    to: (Subpixel, Subpixel),
    pixel_x: i64,
    pixel_y: i64,
    parameter: (i64, i64),
)
    requires
        point_on_grid(from),
        point_on_grid(to),
        from.0 != to.0 || from.1 != to.1,
        -0x1_0000_0000 <= pixel_x <= 0x1_0000_0000,
        -0x1_0000_0000 <= pixel_y <= 0x1_0000_0000,
        call_ensures(line_parameter, (from, to, pixel_x, pixel_y), parameter),
    ensures
        ({
            let (dx, dy) = (to.0.0 - from.0.0, to.1.0 - from.1.0);
            let (cx, cy) = (256 * pixel_x + 128 - from.0.0, 256 * pixel_y + 128 - from.1.0);
            let along = cx * dx + cy * dy;
            &&& parameter.1 == dx * dx + dy * dy
            &&& 0 <= along <= parameter.1 ==> parameter.0 == along
            &&& along < 0 ==> parameter.0 == 0
            &&& along > parameter.1 ==> parameter.0 == parameter.1
        }),
{
    let (dx, dy) = (to.0.0 - from.0.0, to.1.0 - from.1.0);
    assert(dx * dx + dy * dy > 0) by (nonlinear_arith)
        requires
            dx != 0 || dy != 0,
    ;
}


/// A draw is refused before its vertices are looked at where it restarts primitives that share no vertex, or asks for
/// more indices than are stored; a draw without indices never asks for too many.
pub proof fn a_draw_has_its_indices(topology: Topology, indices: Indices<'_>, count: u32, restart: bool)
    ensures
        draw_fault(topology, indices, count, restart) is None <==> {
            &&& restart ==> topology is TriangleStrip || topology is TriangleFan || topology is LineStrip
            &&& match indices {
                Indices::Sequential => true,
                Indices::U16(values) => count <= values@.len(),
                Indices::U32(values) => count <= values@.len(),
            }
        },
{
}


/// The primitives of a draw are numbered as they are finished, from none on, and each has the vertices its shape has.
pub proof fn primitives_are_numbered_in_order(
    into: Seq<Primitive>,
    topology: Topology,
    stream: Seq<Option<u32>>,
    i: int,
)
    requires
        assembled(into, topology, stream),
        0 <= i < into.len(),
    ensures
        into.len() == shapes(topology, stream).len(),
        match (into[i], shapes(topology, stream)[i]) {
            (Primitive::Triangle { vertices, provoking, index }, Shape::Triangle(first, second, third, slot)) => {
                &&& index == i && provoking == slot
                &&& vertices@ =~= seq![first, second, third]
            },
            (Primitive::Line { vertices, index }, Shape::Line(from, to)) => index == i && vertices@ =~= seq![from, to],
            (Primitive::Point { vertex, index }, Shape::Point(own)) => index == i && vertex == own,
            _ => false,
        },
{
    assert(into[i].ordinal() == i);
}

} // verus!
