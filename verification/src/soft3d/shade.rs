//! From primitives to fragments: what survives staging, which pixels of a tile are shaded and in what
//! order, and what a shaded fragment writes.
//!
//! Projection and interpolation are floating-point work of the caller; the projected vertices come in as
//! arguments, and the fragments to shade go out as lists.
use super::clip::{Clipped, Varyings};
use super::error::Error;
use super::fixed::{fits, point_on_grid, quantise, quantised, edge_is_bounded, Subpixel,
    MAX_RASTER_EXTENT, SUBPIXEL_HALF, SUBPIXEL_ONE};
use super::frame::{Pipeline, Stats};
use super::geometry::{exits_diamond, line_covers_pixel, point_covers, point_spans,
    inside_at, centre, magnitude, Primitive};
use super::interpreter::Outputs;
use super::pass::{AttachmentBlend, DepthFormat};
use super::raster::{
    built, covered_mask, culled, sample_point, setup, submitted_area, window_fault, bins_into, coverage, Bins, Cull,
    PixelBox, SamplePosition, Setup,
};
use super::shader::{body_stores_depth, stores_depth};
use super::state::{keeping_keeps, tested, CompareOp, StencilFace, StencilOp, Stored};
use super::value::{Datum, Val};
use crate::bits::{at_least, below, equal, finite, is_finite, less, nan, number, order_is_by_number, reaches, same};
use crate::grid::cell;
use vstd::prelude::*;

verus! {

/// A vertex in window space, its coordinates binary32 values by their bits.
#[derive(Clone, Copy, PartialEq, Eq, Structural, Debug)]
pub struct Projected {
    pub x: u32,
    pub y: u32,
    pub depth: u32,
    pub inverse_w: u32,
}

/// Why a clip-space position has no projection: it is not finite, or it is on or behind the eye plane.
pub open spec fn projection_refusal(position: Seq<u32>) -> Option<Error> {
    if !finite(position[0]) || !finite(position[1]) || !finite(position[2]) || !finite(position[3]) {
        Some(Error::NonFinite)
    } else if reaches(0, position[3]) {
        Some(Error::InvalidTransform)
    } else {
        None
    }
}

/// Why a clip-space position has no projection.
pub fn refuse_projection(position: [u32; 4]) -> (refusal: Option<Error>)
    ensures
        refusal == projection_refusal(position@),
{
    if !is_finite(position[0]) || !is_finite(position[1]) || !is_finite(position[2]) || !is_finite(
        position[3],
    ) {
        return Some(Error::NonFinite);
    }
    if at_least(0, position[3]) {
        return Some(Error::InvalidTransform);
    }
    None
}

/// Which of a primitive's vertices its flat attributes come from: the provoking one of the primitive as assembled.
pub fn flat_vertex(primitive: &Primitive) -> (which: usize)
    ensures
        which == primitive.shape().provoking_slot(),
{
    match primitive {
        Primitive::Triangle { provoking, .. } => *provoking,
        Primitive::Line { .. } => 0,
        Primitive::Point { .. } => 0,
    }
}

// ---------------------------------------------------------------------------------------------
// Staging triangles.
// ---------------------------------------------------------------------------------------------
/// A triangle that survived setup, with what the fragment stage needs.
#[derive(Clone, Copy, Debug)]
pub struct Binned {
    pub setup: Setup,
    pub smooth: [Varyings; 3],
    pub noperspective: [Varyings; 3],
    pub flat: Varyings,
}

/// What becomes of one triangle of a clipped primitive's fan.
pub ghost enum Member {
    Fault(Error),
    /// No area, or no pixel of the target.
    Skipped,
    Culled,
    Staged(Binned),
}

/// A projected vertex as a window position.
pub open spec fn window_of(vertex: Projected) -> (u32, u32) {
    (vertex.x, vertex.y)
}

/// What becomes of triangle `index` of the fan of a clipped primitive.
pub open spec fn fan_member(
    clipped: Clipped,
    projected: Seq<Result<Projected, Error>>,
    cull: Cull,
    width: u32,
    height: u32,
    index: int,
) -> Member {
    match (projected[0], projected[index + 1], projected[index + 2]) {
        (Err(error), _, _) => Member::Fault(error),
        (_, Err(error), _) => Member::Fault(error),
        (_, _, Err(error)) => Member::Fault(error),
        (Ok(a), Ok(b), Ok(c)) => {
            let window = seq![window_of(a), window_of(b), window_of(c)];
            let made = built(
                window,
                seq![a.inverse_w, b.inverse_w, c.inverse_w],
                seq![a.depth, b.depth, c.depth],
                width,
                height,
            );
            let corner = |slot: int|
                clipped.vertices@[if slot == 0 {
                    0
                } else {
                    index + made.source@[slot]
                }];
            if window_fault(window) is Some {
                Member::Fault(Error::InvalidTransform)
            } else if submitted_area(window) == 0 {
                Member::Skipped
            } else if (cull is Front && made.facing is Front) || (cull is Back && made.facing is Back) {
                Member::Culled
            } else if made.bounds.empty() {
                Member::Skipped
            } else {
                Member::Staged(
                    Binned {
                        setup: made,
                        smooth: [corner(0).smooth, corner(1).smooth, corner(2).smooth],
                        noperspective: [
                            corner(0).noperspective,
                            corner(1).noperspective,
                            corner(2).noperspective,
                        ],
                        flat: clipped.flat,
                    },
                )
            }
        },
    }
}

/// What becomes of the first `count` triangles of a fan.
pub ghost struct Fan {
    pub staged: Seq<Binned>,
    pub culled: nat,
    pub fault: Option<Error>,
}

/// What becomes of the first `count` triangles of a fan, one after the other until one is refused.
pub open spec fn fan(
    clipped: Clipped,
    projected: Seq<Result<Projected, Error>>,
    cull: Cull,
    width: u32,
    height: u32,
    count: nat,
) -> Fan
    decreases count,
{
    if count == 0 {
        Fan { staged: Seq::empty(), culled: 0, fault: None }
    } else {
        let before = fan(clipped, projected, cull, width, height, (count - 1) as nat);
        if before.fault is Some {
            before
        } else {
            match fan_member(clipped, projected, cull, width, height, count - 1) {
                Member::Fault(error) => Fan { fault: Some(error), ..before },
                Member::Skipped => before,
                Member::Culled => Fan { culled: before.culled + 1, ..before },
                Member::Staged(binned) => Fan { staged: before.staged.push(binned), ..before },
            }
        }
    }
}

proof fn a_refused_fan_stays(
    clipped: Clipped,
    projected: Seq<Result<Projected, Error>>,
    cull: Cull,
    width: u32,
    height: u32,
    from: nat,
    to: nat,
)
    requires
        from <= to,
        fan(clipped, projected, cull, width, height, from).fault is Some,
    ensures
        fan(clipped, projected, cull, width, height, to) == fan(
            clipped,
            projected,
            cull,
            width,
            height,
            from,
        ),
    decreases to - from,
{
    if from < to {
        a_refused_fan_stays(clipped, projected, cull, width, height, from, (to - 1) as nat);
    }
}

/// What staging one triangle of a fan comes to.
#[derive(Debug)]
enum Staging {
    Skipped,
    Culled,
    Staged(Binned),
}

fn stage_member(
    clipped: &Clipped,
    projected: &[Result<Projected, Error>],
    cull: Cull,
    width: u32,
    height: u32,
    index: usize,
) -> (outcome: Result<Staging, Error>)
    requires
        projected@.len() == clipped.vertices@.len(),
        index + 2 < clipped.vertices@.len(),
    ensures
        match outcome {
            Err(error) => fan_member(*clipped, projected@, cull, width, height, index as int)
                == Member::Fault(error),
            Ok(Staging::Skipped) => fan_member(*clipped, projected@, cull, width, height, index as int)
                == Member::Skipped,
            Ok(Staging::Culled) => fan_member(*clipped, projected@, cull, width, height, index as int)
                == Member::Culled,
            Ok(Staging::Staged(binned)) => fan_member(
                *clipped,
                projected@,
                cull,
                width,
                height,
                index as int,
            ) == Member::Staged(binned) && binned.setup.wf(),
        },
{
    let a = match projected[0] {
        Err(error) => {
            return Err(error);
        },
        Ok(found) => found,
    };
    let b = match projected[index + 1] {
        Err(error) => {
            return Err(error);
        },
        Ok(found) => found,
    };
    let c = match projected[index + 2] {
        Err(error) => {
            return Err(error);
        },
        Ok(found) => found,
    };
    let window = [(a.x, a.y), (b.x, b.y), (c.x, c.y)];
    let inverse_w: [u32; 3] = [a.inverse_w, b.inverse_w, c.inverse_w];
    let depth: [u32; 3] = [a.depth, b.depth, c.depth];
    assert(window@ =~= seq![window_of(a), window_of(b), window_of(c)]);
    assert(inverse_w@ =~= seq![a.inverse_w, b.inverse_w, c.inverse_w]);
    assert(depth@ =~= seq![a.depth, b.depth, c.depth]);
    let made = match setup(window, inverse_w, depth, width, height) {
        Err(fault) => {
            return Err(fault.refusal());
        },
        Ok(None) => {
            return Ok(Staging::Skipped);
        },
        Ok(Some(found)) => found,
    };
    if culled(made.facing, cull) {
        return Ok(Staging::Culled);
    }
    if made.bounds.is_empty() {
        return Ok(Staging::Skipped);
    }
    let first = clipped.vertices[0];
    let second = clipped.vertices[index + made.source[1]];
    let third = clipped.vertices[index + made.source[2]];
    Ok(
        Staging::Staged(
            Binned {
                setup: made,
                smooth: [first.smooth, second.smooth, third.smooth],
                noperspective: [first.noperspective, second.noperspective, third.noperspective],
                flat: clipped.flat,
            },
        ),
    )
}

/// Stage the triangles of a clipped primitive. `projected` holds one projection per vertex. A primitive of
/// which nothing is left counts as culled, and one that was cut counts as clipped.
pub fn stage_triangle(
    clipped: &Clipped,
    projected: &[Result<Projected, Error>],
    cull: Cull,
    width: u32,
    height: u32,
    staged: &mut Vec<Binned>,
    stats: &mut Stats,
) -> (outcome: Result<(), Error>)
    requires
        projected@.len() == clipped.vertices@.len(),
        old(stats).culled + clipped.vertices@.len() < u32::MAX,
        old(stats).clipped < u32::MAX,
        forall|i: int| 0 <= i < old(staged)@.len() ==> (#[trigger] old(staged)@[i]).setup.wf(),
    ensures
        ({
            let whole = fan(
                *clipped,
                projected@,
                cull,
                width,
                height,
                clipped.triangles() as nat,
            );
            &&& match outcome {
                Ok(_) => whole.fault is None,
                Err(error) => whole.fault == Some(error),
            }
            &&& final(staged)@ == old(staged)@ + whole.staged
            &&& *final(stats) == (Stats {
                culled: (old(stats).culled + whole.culled + (if clipped.vertices@.len() == 0 {
                    1int
                } else {
                    0
                })) as u32,
                clipped: (old(stats).clipped + (if clipped.vertices@.len() > 3 {
                    1int
                } else {
                    0
                })) as u32,
                ..*old(stats)
            })
        }),
        forall|i: int| 0 <= i < final(staged)@.len() ==> (#[trigger] final(staged)@[i]).setup.wf(),
{
    let count: usize = clipped.triangle_count();
    if clipped.is_empty() {
        stats.culled = stats.culled + 1;
        assert(staged@ =~= old(staged)@ + Seq::<Binned>::empty());
        return Ok(());
    }
    if clipped.vertices.len() > 3 {
        stats.clipped = stats.clipped + 1;
    }
    let ghost start = *stats;
    let mut index: usize = 0;
    assert(staged@ =~= old(staged)@ + Seq::<Binned>::empty());
    while index < count
        invariant
            index <= count,
            count == clipped.triangles(),
            clipped.vertices@.len() > 0,
            projected@.len() == clipped.vertices@.len(),
            old(stats).culled + clipped.vertices@.len() < u32::MAX,
            start == (Stats {
                clipped: (old(stats).clipped + (if clipped.vertices@.len() > 3 {
                    1int
                } else {
                    0
                })) as u32,
                ..*old(stats)
            }),
            ({
                let done = fan(*clipped, projected@, cull, width, height, index as nat);
                &&& done.fault is None
                &&& done.culled <= index
                &&& staged@ == old(staged)@ + done.staged
                &&& *stats == (Stats { culled: (start.culled + done.culled) as u32, ..start })
            }),
            forall|i: int| 0 <= i < staged@.len() ==> (#[trigger] staged@[i]).setup.wf(),
        decreases count - index,
    {
        let ghost done = fan(*clipped, projected@, cull, width, height, index as nat);
        match stage_member(clipped, projected, cull, width, height, index) {
            Err(error) => {
                proof {
                    a_refused_fan_stays(
                        *clipped,
                        projected@,
                        cull,
                        width,
                        height,
                        (index + 1) as nat,
                        count as nat,
                    );
                }
                return Err(error);
            },
            Ok(Staging::Skipped) => {},
            Ok(Staging::Culled) => {
                stats.culled = stats.culled + 1;
            },
            Ok(Staging::Staged(binned)) => {
                staged.push(binned);
                assert(staged@ =~= old(staged)@ + done.staged.push(binned));
            },
        }
        index = index + 1;
    }
    Ok(())
}

/// Which of the first `count` triangles touch a tile, in order.
pub open spec fn touching(triangles: Seq<Binned>, x: int, y: int, count: nat) -> Seq<u32>
    decreases count,
{
    if count == 0 {
        Seq::empty()
    } else {
        let before = touching(triangles, x, y, (count - 1) as nat);
        let bounds = triangles[count - 1].setup.bounds;
        if !bounds.empty() && bins_into(bounds.x0 as int, bounds.x1 as int, x) && bins_into(
            bounds.y0 as int,
            bounds.y1 as int,
            y,
        ) {
            before.push((count - 1) as u32)
        } else {
            before
        }
    }
}

/// Put the staged triangles of a draw into the bins of the tiles they touch, by their place in the list.
pub fn bin_triangles(bins: &mut Bins, triangles: &[Binned])
    requires
        old(bins).wf(),
        triangles@.len() <= u32::MAX,
        forall|i: int|
            0 <= i < triangles@.len() ==> (#[trigger] triangles@[i]).setup.bounds.x1 <= u32::MAX
                && triangles@[i].setup.bounds.y1 <= u32::MAX,
    ensures
        final(bins).wf(),
        final(bins).columns() == old(bins).columns(),
        final(bins).rows() == old(bins).rows(),
        final(bins).bounds() == old(bins).bounds(),
        forall|x: int, y: int|
            0 <= x < old(bins).columns() && 0 <= y < old(bins).rows() ==> final(bins).bin(
                #[trigger] cell(x, y, old(bins).columns()),
            ) == old(bins).bin(cell(x, y, old(bins).columns())) + touching(
                triangles@,
                x,
                y,
                triangles@.len(),
            ),
{
    let mut next: usize = 0;
    let ghost columns = bins.columns();
    let ghost rows = bins.rows();
    assert forall|x: int, y: int| 0 <= x < columns && 0 <= y < rows implies bins.bin(
        #[trigger] cell(x, y, columns),
    ) == old(bins).bin(cell(x, y, columns)) + touching(triangles@, x, y, 0) by {
        assert(bins.bin(cell(x, y, columns)) =~= bins.bin(cell(x, y, columns)) + Seq::<u32>::empty());
    }
    while next < triangles.len()
        invariant
            next <= triangles@.len() <= u32::MAX,
            bins.wf(),
            columns == old(bins).columns(),
            rows == old(bins).rows(),
            bins.columns() == columns,
            bins.rows() == rows,
            bins.bounds() == old(bins).bounds(),
            forall|i: int|
                0 <= i < triangles@.len() ==> (#[trigger] triangles@[i]).setup.bounds.x1 <= u32::MAX
                    && triangles@[i].setup.bounds.y1 <= u32::MAX,
            forall|x: int, y: int|
                0 <= x < columns && 0 <= y < rows ==> bins.bin(#[trigger] cell(x, y, columns)) == old(
                    bins,
                ).bin(cell(x, y, columns)) + touching(triangles@, x, y, next as nat),
        decreases triangles@.len() - next,
    {
        let ghost before = *bins;
        assert(triangles@[next as int].setup.bounds.x1 <= u32::MAX);
        bins.insert(next as u32, &triangles[next].setup.bounds);
        assert forall|x: int, y: int| 0 <= x < columns && 0 <= y < rows implies bins.bin(
            #[trigger] cell(x, y, columns),
        ) == old(bins).bin(cell(x, y, columns)) + touching(triangles@, x, y, (next + 1) as nat) by {
            let start = old(bins).bin(cell(x, y, columns));
            assert((start + touching(triangles@, x, y, next as nat)).push(next as u32) =~= start + touching(
                triangles@,
                x,
                y,
                next as nat,
            ).push(next as u32));
        }
        next = next + 1;
    }
}

// ---------------------------------------------------------------------------------------------
// Staging lines and points.
// ---------------------------------------------------------------------------------------------
/// A line ready to be sampled.
#[derive(Clone, Copy, Debug)]
pub struct Segment {
    pub from: (Subpixel, Subpixel),
    pub to: (Subpixel, Subpixel),
    pub depth: [u32; 2],
    pub inverse_w: [u32; 2],
    pub smooth: [Varyings; 2],
    pub noperspective: [Varyings; 2],
    pub flat: Varyings,
}

/// A point of the raster grid from a projected vertex, or the refusal of one that is not on it.
pub open spec fn placed(vertex: Projected) -> Result<(Subpixel, Subpixel), Error> {
    match (quantised(vertex.x), quantised(vertex.y)) {
        (Ok(x), Ok(y)) => Ok((x, y)),
        _ => Err(Error::InvalidTransform),
    }
}

fn place(vertex: Projected) -> (point: Result<(Subpixel, Subpixel), Error>)
    ensures
        point == placed(vertex),
        point matches Ok(found) ==> point_on_grid(found),
{
    match quantise(vertex.x) {
        Err(_) => Err(Error::InvalidTransform),
        Ok(x) => match quantise(vertex.y) {
            Err(_) => Err(Error::InvalidTransform),
            Ok(y) => Ok((x, y)),
        },
    }
}

/// The segment of a clipped line, from its first two vertices.
pub open spec fn segment_of(clipped: Clipped, first: Projected, second: Projected) -> Segment {
    Segment {
        from: placed(first)->Ok_0,
        to: placed(second)->Ok_0,
        depth: [first.depth, second.depth],
        inverse_w: [first.inverse_w, second.inverse_w],
        smooth: [clipped.vertices@[0].smooth, clipped.vertices@[1].smooth],
        noperspective: [clipped.vertices@[0].noperspective, clipped.vertices@[1].noperspective],
        flat: clipped.flat,
    }
}

/// What staging a clipped line comes to: nothing where fewer than two vertices are left.
pub open spec fn line_staged(clipped: Clipped, projected: Seq<Result<Projected, Error>>) -> Result<
    Option<Segment>,
    Error,
> {
    if clipped.vertices@.len() < 2 {
        Ok(None)
    } else {
        match (projected[0], projected[1]) {
            (Err(error), _) => Err(error),
            (_, Err(error)) => Err(error),
            (Ok(first), Ok(second)) => if placed(first) is Err || placed(second) is Err {
                Err(Error::InvalidTransform)
            } else {
                Ok(Some(segment_of(clipped, first, second)))
            },
        }
    }
}

/// Stage a clipped line. A line of which nothing is left counts as culled.
pub fn stage_line(
    clipped: &Clipped,
    projected: &[Result<Projected, Error>],
    segments: &mut Vec<Segment>,
    stats: &mut Stats,
) -> (outcome: Result<(), Error>)
    requires
        projected@.len() == clipped.vertices@.len(),
        old(stats).culled < u32::MAX,
    ensures
        match line_staged(*clipped, projected@) {
            Err(error) => outcome == Err::<(), Error>(error) && final(segments)@ == old(segments)@
                && *final(stats) == *old(stats),
            Ok(None) => outcome is Ok && final(segments)@ == old(segments)@ && *final(stats) == (Stats {
                culled: (old(stats).culled + 1) as u32,
                ..*old(stats)
            }),
            Ok(Some(segment)) => outcome is Ok && final(segments)@ == old(segments)@.push(segment)
                && *final(stats) == *old(stats) && point_on_grid(segment.from) && point_on_grid(segment.to),
        },
{
    if clipped.vertices.len() < 2 {
        stats.culled = stats.culled + 1;
        return Ok(());
    }
    let first = match projected[0] {
        Err(error) => {
            return Err(error);
        },
        Ok(found) => found,
    };
    let second = match projected[1] {
        Err(error) => {
            return Err(error);
        },
        Ok(found) => found,
    };
    let from = match place(first) {
        Err(error) => {
            return Err(error);
        },
        Ok(found) => found,
    };
    let to = match place(second) {
        Err(error) => {
            return Err(error);
        },
        Ok(found) => found,
    };
    let (a, b) = (clipped.vertices[0], clipped.vertices[1]);
    segments.push(
        Segment {
            from,
            to,
            depth: [first.depth, second.depth],
            inverse_w: [first.inverse_w, second.inverse_w],
            smooth: [a.smooth, b.smooth],
            noperspective: [a.noperspective, b.noperspective],
            flat: clipped.flat,
        },
    );
    Ok(())
}

/// A point ready to be sampled.
#[derive(Clone, Copy, Debug)]
pub struct Dot {
    pub centre: (Subpixel, Subpixel),
    pub size: u32,
    pub depth: u32,
    pub smooth: Varyings,
    pub noperspective: Varyings,
    pub flat: Varyings,
}

/// Stage a point. `inside` is whether its centre is in the clip volume: a point is in it or out of it, and there is no
/// partial case. Every varying of it is its vertex's own, whatever its qualifier.
pub fn stage_point(
    inside: bool,
    projected: Result<Projected, Error>,
    size: u32,
    smooth: Varyings,
    noperspective: Varyings,
    flat: Varyings,
    points: &mut Vec<Dot>,
    stats: &mut Stats,
) -> (outcome: Result<(), Error>)
    requires
        old(stats).culled < u32::MAX,
    ensures
        if !inside {
            outcome is Ok && final(points)@ == old(points)@ && *final(stats) == (Stats {
                culled: (old(stats).culled + 1) as u32,
                ..*old(stats)
            })
        } else {
            *final(stats) == *old(stats) && match projected {
                Err(error) => outcome == Err::<(), Error>(error) && final(points)@ == old(points)@,
                Ok(vertex) => match placed(vertex) {
                    Err(error) => outcome == Err::<(), Error>(error) && final(points)@ == old(points)@,
                    Ok(centre) => {
                        &&& outcome is Ok
                        &&& point_on_grid(centre)
                        &&& final(points)@ == old(points)@.push(
                            (Dot { centre, size, depth: vertex.depth, smooth, noperspective, flat }),
                        )
                    },
                },
            }
        },
{
    if !inside {
        stats.culled = stats.culled + 1;
        return Ok(());
    }
    let vertex = match projected {
        Err(error) => {
            return Err(error);
        },
        Ok(found) => found,
    };
    let centre = match place(vertex) {
        Err(error) => {
            return Err(error);
        },
        Ok(found) => found,
    };
    points.push(Dot { centre, size, depth: vertex.depth, smooth, noperspective, flat });
    Ok(())
}

// ---------------------------------------------------------------------------------------------
// Which pixels are shaded.
// ---------------------------------------------------------------------------------------------
/// A pixel to shade, and which of its samples are covered.
#[derive(Clone, Copy, PartialEq, Eq, Structural, Debug)]
pub struct Lit {
    /// Which primitive of the draw covers it.
    pub primitive: u32,
    pub x: i64,
    pub y: i64,
    pub coverage: u32,
}

/// The pixels of one row from `x0` up to `x` of which some sample is covered.
pub open spec fn row_lit(
    primitive: u32,
    mask: spec_fn(int, int) -> u32,
    y: int,
    x0: int,
    x: int,
) -> Seq<Lit>
    decreases x - x0,
{
    if x <= x0 {
        Seq::empty()
    } else {
        let before = row_lit(primitive, mask, y, x0, x - 1);
        if mask(x - 1, y) != 0 {
            before.push(Lit { primitive, x: (x - 1) as i64, y: y as i64, coverage: mask(x - 1, y) })
        } else {
            before
        }
    }
}

/// The covered pixels of the rows from `y0` up to `y`, row by row.
pub open spec fn rows_lit(
    primitive: u32,
    mask: spec_fn(int, int) -> u32,
    x0: int,
    x1: int,
    y0: int,
    y: int,
) -> Seq<Lit>
    decreases y - y0,
{
    if y <= y0 {
        Seq::empty()
    } else {
        rows_lit(primitive, mask, x0, x1, y0, y - 1) + row_lit(primitive, mask, y - 1, x0, x1)
    }
}

proof fn a_row_lists_its_pixels(
    primitive: u32,
    mask: spec_fn(int, int) -> u32,
    y: int,
    x0: int,
    x: int,
    at: int,
)
    requires
        i64::MIN <= x0 && x <= i64::MAX,
        i64::MIN <= y <= i64::MAX,
    ensures
        row_lit(primitive, mask, y, x0, x).contains(
            Lit { primitive, x: at as i64, y: y as i64, coverage: mask(at, y) },
        ) || !(x0 <= at < x && mask(at, y) != 0),
    decreases x - x0,
{
    if x0 < x {
        let before = row_lit(primitive, mask, y, x0, x - 1);
        let all = row_lit(primitive, mask, y, x0, x);
        let lit = Lit { primitive, x: at as i64, y: y as i64, coverage: mask(at, y) };
        a_row_lists_its_pixels(primitive, mask, y, x0, x - 1, at);
        if x0 <= at < x && mask(at, y) != 0 {
            if at == x - 1 {
                assert(all[before.len() as int] == lit);
            } else {
                let i = choose|i: int| 0 <= i < before.len() && before[i] == lit;
                assert(all[i] == lit);
            }
        }
    }
}

/// Every covered pixel of an area is listed.
pub proof fn every_covered_pixel_is_listed(
    primitive: u32,
    mask: spec_fn(int, int) -> u32,
    x0: int,
    x1: int,
    y0: int,
    y: int,
    at_x: int,
    at_y: int,
)
    requires
        i64::MIN <= x0 && x1 <= i64::MAX,
        i64::MIN <= y0 && y <= i64::MAX,
        x0 <= at_x < x1,
        y0 <= at_y < y,
        mask(at_x, at_y) != 0,
    ensures
        rows_lit(primitive, mask, x0, x1, y0, y).contains(
            Lit { primitive, x: at_x as i64, y: at_y as i64, coverage: mask(at_x, at_y) },
        ),
    decreases y - y0,
{
    let lit = Lit { primitive, x: at_x as i64, y: at_y as i64, coverage: mask(at_x, at_y) };
    let before = rows_lit(primitive, mask, x0, x1, y0, y - 1);
    let row = row_lit(primitive, mask, y - 1, x0, x1);
    let all = rows_lit(primitive, mask, x0, x1, y0, y);
    if at_y == y - 1 {
        a_row_lists_its_pixels(primitive, mask, at_y, x0, x1, at_x);
        let i = choose|i: int| 0 <= i < row.len() && row[i] == lit;
        assert(all[before.len() + i] == lit);
    } else {
        every_covered_pixel_is_listed(primitive, mask, x0, x1, y0, y - 1, at_x, at_y);
        let i = choose|i: int| 0 <= i < before.len() && before[i] == lit;
        assert(all[i] == lit);
    }
}

/// A rectangle fragments are held to.
#[derive(Clone, Copy, PartialEq, Eq, Structural, Debug)]
pub struct Scissor {
    pub x: i32,
    pub y: i32,
    pub width: u32,
    pub height: u32,
}

/// The pixels a pass may shade: all of the target, or those of its scissor. A scissor larger than the target
/// is the target, and an empty one is no pixel.
pub open spec fn shadeable(scissor: Option<Scissor>, width: u32, height: u32) -> PixelBox {
    match scissor {
        None => PixelBox { x0: 0, y0: 0, x1: width as i64, y1: height as i64 },
        Some(held) => PixelBox {
            x0: held.x as i64,
            y0: held.y as i64,
            x1: (held.x + held.width) as i64,
            y1: (held.y + held.height) as i64,
        }.clamp(width, height),
    }
}

/// The pixels a pass may shade.
pub fn scissor_box(scissor: Option<Scissor>, width: u32, height: u32) -> (area: PixelBox)
    ensures
        area == shadeable(scissor, width, height),
        forall|x: int, y: int|
            #[trigger] area.has(x, y) <==> 0 <= x < width && 0 <= y < height && (scissor matches Some(held)
                ==> held.x <= x < held.x + held.width && held.y <= y < held.y + held.height),
{
    match scissor {
        None => PixelBox { x0: 0, y0: 0, x1: width as i64, y1: height as i64 },
        Some(held) => {
            let area = PixelBox {
                x0: held.x as i64,
                y0: held.y as i64,
                x1: held.x as i64 + held.width as i64,
                y1: held.y as i64 + held.height as i64,
            };
            area.clamped(width, height)
        },
    }
}

/// The pixels two rectangles share.
pub open spec fn common(a: PixelBox, b: PixelBox) -> PixelBox {
    PixelBox {
        x0: if a.x0 > b.x0 {
            a.x0
        } else {
            b.x0
        },
        y0: if a.y0 > b.y0 {
            a.y0
        } else {
            b.y0
        },
        x1: if a.x1 < b.x1 {
            a.x1
        } else {
            b.x1
        },
        y1: if a.y1 < b.y1 {
            a.y1
        } else {
            b.y1
        },
    }
}

fn shared(a: &PixelBox, b: &PixelBox) -> (both: PixelBox)
    ensures
        both == common(*a, *b),
        forall|x: int, y: int| #[trigger] both.has(x, y) <==> a.has(x, y) && b.has(x, y),
{
    let x0: i64 = if a.x0 > b.x0 {
        a.x0
    } else {
        b.x0
    };
    let y0: i64 = if a.y0 > b.y0 {
        a.y0
    } else {
        b.y0
    };
    let x1: i64 = if a.x1 < b.x1 {
        a.x1
    } else {
        b.x1
    };
    let y1: i64 = if a.y1 < b.y1 {
        a.y1
    } else {
        b.y1
    };
    PixelBox { x0, y0, x1, y1 }
}

/// The nearest of the first `count` depths, none of them a NaN; infinitely far where there is none.
pub open spec fn nearest_of(depths: Seq<u32>, count: nat) -> u32
    decreases count,
{
    if count == 0 {
        0x7F80_0000
    } else {
        let held = nearest_of(depths, (count - 1) as nat);
        if below(depths[count - 1], held) {
            depths[count - 1]
        } else {
            held
        }
    }
}

/// Whether a triangle is behind everything a tile holds: under a test that only lets nearer fragments
/// through, its nearest vertex is beyond the tile's furthest depth.
pub open spec fn hidden(setup: Setup, far: u32, compare: CompareOp) -> bool {
    (compare is Less || compare is LessOrEqual) && below(far, nearest_of(setup.depth@, 3))
}

fn is_hidden(setup: &Setup, far: u32, compare: CompareOp) -> (behind: bool)
    ensures
        behind == hidden(*setup, far, compare),
{
    let orders = match compare {
        CompareOp::Less | CompareOp::LessOrEqual => true,
        _ => false,
    };
    if !orders {
        return false;
    }
    let mut nearest: u32 = 0x7F80_0000;
    let mut next: usize = 0;
    while next < 3
        invariant
            next <= 3,
            nearest == nearest_of(setup.depth@, next as nat),
        decreases 3 - next,
    {
        if less(setup.depth[next], nearest) {
            nearest = setup.depth[next];
        }
        next = next + 1;
    }
    less(far, nearest)
}

/// Rejecting a hidden triangle changes no picture: a fragment of it that is no nearer than its nearest
/// vertex fails the depth test against every depth the tile holds.
pub proof fn a_hidden_triangle_draws_nothing(
    setup: Setup,
    far: u32,
    compare: CompareOp,
    depth: u32,
    stored: u32,
)
    requires
        hidden(setup, far, compare),
        !below(depth, nearest_of(setup.depth@, 3)),
        !below(far, stored),
    ensures
        !compare.passes(depth, stored),
{
}

/// Whether a comparison orders the depths of a format as it orders the depths before they are stored. Two
/// depths of an integer format may be equal once stored, which a test that admits equal ones would notice.
pub open spec fn orders(compare: CompareOp, format: DepthFormat) -> bool {
    compare is Less || compare is LessOrEqual && (format is Depth32F || format is Depth32FStencil8)
}

/// Whether a refused fragment leaves its stencil value alone.
pub open spec fn leaves_stencil(stencil: Option<StencilFace>) -> bool {
    match stencil {
        None => true,
        Some(face) => face.on_fail is Keep && face.on_depth_fail is Keep,
    }
}

/// Whether a draw's depth test refuses, without a trace, every fragment that is further than the stored
/// depths: its depths are the interpolated ones, neither biased nor written by the fragment stage, and a
/// refused fragment changes no stencil value.
pub open spec fn assured(pipeline: Pipeline, depth: Option<DepthFormat>) -> bool {
    match depth {
        None => false,
        Some(format) => orders(pipeline.depth_compare, format) && !biases(pipeline.bias) && leaves_stencil(
            pipeline.stencil,
        ) && !body_stores_depth(pipeline.fragment.body@, 0),
    }
}

/// Whether a draw's depth test refuses, without a trace, every fragment that is further than the stored
/// depths.
pub fn is_assured(pipeline: &Pipeline, depth: Option<DepthFormat>) -> (sure: bool)
    ensures
        sure == assured(*pipeline, depth),
{
    let format = match depth {
        None => {
            return false;
        },
        Some(format) => format,
    };
    let exact = match format {
        DepthFormat::Depth32F | DepthFormat::Depth32FStencil8 => true,
        _ => false,
    };
    let ordered = match pipeline.depth_compare {
        CompareOp::Less => true,
        CompareOp::LessOrEqual => exact,
        _ => false,
    };
    let untraced = match pipeline.stencil {
        None => true,
        Some(face) => match (face.on_fail, face.on_depth_fail) {
            (StencilOp::Keep, StencilOp::Keep) => true,
            _ => false,
        },
    };
    ordered && untraced && !is_biased(pipeline) && !stores_depth(&pipeline.fragment.body)
}

/// Whether the one sample of a pixel is its centre, so that the depth there is a depth of the triangle that
/// covers it.
pub open spec fn centred(positions: Seq<SamplePosition>) -> bool {
    positions.len() == 1 && positions[0].x == SUBPIXEL_HALF && positions[0].y == SUBPIXEL_HALF
}

/// Whether the one sample of a pixel is its centre.
pub fn is_centred(positions: &[SamplePosition]) -> (one: bool)
    ensures
        one == centred(positions@),
{
    positions.len() == 1 && positions[0].x == SUBPIXEL_HALF && positions[0].y == SUBPIXEL_HALF
}

/// Rejecting a hidden triangle of an assured draw leaves no trace: a fragment of it that is no nearer than
/// its nearest vertex fails the test of every sample in the tile, and neither depth nor stencil changes.
/// `reading` is the number a stored depth reads back as; storing a depth keeps its order.
pub proof fn a_rejected_fragment_leaves_no_trace(
    setup: Setup,
    far: u32,
    pipeline: Pipeline,
    format: DepthFormat,
    depth: u32,
    incoming: Stored,
    reading: u32,
    stored: Stored,
    value: u8,
)
    requires
        assured(pipeline, Some(format)),
        hidden(setup, far, pipeline.depth_compare),
        !below(depth, nearest_of(setup.depth@, 3)),
        !below(far, reading),
        match (incoming, stored) {
            (Stored::Float(new), Stored::Float(old)) => (format is Depth32F || format is Depth32FStencil8)
                && new == depth && old == reading,
            (Stored::Steps(new), Stored::Steps(old)) => !(format is Depth32F || format is Depth32FStencil8)
                && !nan(depth) && !nan(reading) && (below(reading, depth) ==> old <= new),
            _ => false,
        },
    ensures
        ({
            let stencil = match pipeline.stencil {
                Some(face) => Some((face, value)),
                None => None,
            };
            let outcome = tested(pipeline.depth_compare, pipeline.depth_write, incoming, stored, stencil);
            &&& !outcome.passed
            &&& outcome.depth is None
            &&& outcome.stencil is None || outcome.stencil == Some(value)
        }),
{
    if let Some(face) = pipeline.stencil {
        keeping_keeps(face, value);
    }
    a_nearest_is_a_number(setup.depth@, 3);
}

proof fn a_nearest_is_a_number(depths: Seq<u32>, count: nat)
    ensures
        !nan(nearest_of(depths, count)),
    decreases count,
{
    if count > 0 {
        a_nearest_is_a_number(depths, (count - 1) as nat);
    }
}

/// The sample mask of a triangle over the pixels.
pub open spec fn triangle_mask(setup: Setup, positions: Seq<SamplePosition>) -> spec_fn(int, int) -> u32 {
    |x: int, y: int| covered_mask(setup, x, y, positions, positions.len())
}

/// The pixels of a tile that the first `count` triangles of its bin shade, triangle by triangle.
pub open spec fn tile_lit(
    triangles: Seq<Binned>,
    bin: Seq<u32>,
    area: PixelBox,
    far: u32,
    compare: CompareOp,
    positions: Seq<SamplePosition>,
    count: nat,
) -> Seq<Lit>
    decreases count,
{
    if count == 0 {
        Seq::empty()
    } else {
        let before = tile_lit(triangles, bin, area, far, compare, positions, (count - 1) as nat);
        let triangle = triangles[bin[count - 1] as int].setup;
        if hidden(triangle, far, compare) {
            before
        } else {
            let part = common(triangle.bounds, area);
            before + rows_lit(
                bin[count - 1],
                triangle_mask(triangle, positions),
                part.x0 as int,
                part.x1 as int,
                part.y0 as int,
                part.y1 as int,
            )
        }
    }
}

/// The first `count` triangles of a bin that are not hidden.
pub open spec fn shown(triangles: Seq<Binned>, bin: Seq<u32>, far: u32, compare: CompareOp, count: nat) -> Seq<
    u32,
>
    decreases count,
{
    if count == 0 {
        Seq::empty()
    } else {
        let before = shown(triangles, bin, far, compare, (count - 1) as nat);
        if hidden(triangles[bin[count - 1] as int].setup, far, compare) {
            before
        } else {
            before.push(bin[count - 1])
        }
    }
}

/// Hierarchical rejection skips the hidden triangles of a tile and does nothing else: what is shaded is
/// what the others alone shade with the bound out of reach.
pub proof fn rejection_skips_hidden_triangles_alone(
    triangles: Seq<Binned>,
    bin: Seq<u32>,
    area: PixelBox,
    far: u32,
    compare: CompareOp,
    positions: Seq<SamplePosition>,
    count: nat,
)
    requires
        count <= bin.len(),
    ensures
        ({
            let rest = shown(triangles, bin, far, compare, count);
            tile_lit(triangles, bin, area, far, compare, positions, count) == tile_lit(
                triangles,
                rest,
                area,
                0x7F80_0000,
                compare,
                positions,
                rest.len(),
            )
        }),
    decreases count,
{
    if count > 0 {
        rejection_skips_hidden_triangles_alone(
            triangles,
            bin,
            area,
            far,
            compare,
            positions,
            (count - 1) as nat,
        );
        let before = shown(triangles, bin, far, compare, (count - 1) as nat);
        let rest = shown(triangles, bin, far, compare, count);
        if !hidden(triangles[bin[count - 1] as int].setup, far, compare) {
            a_prefix_shades_the_same(
                triangles,
                before,
                rest,
                area,
                0x7F80_0000,
                compare,
                positions,
                before.len(),
            );
            assert(rest[rest.len() - 1] == bin[count - 1]);
        }
    }
}

proof fn a_prefix_shades_the_same(
    triangles: Seq<Binned>,
    bin: Seq<u32>,
    longer: Seq<u32>,
    area: PixelBox,
    far: u32,
    compare: CompareOp,
    positions: Seq<SamplePosition>,
    count: nat,
)
    requires
        count <= bin.len() <= longer.len(),
        forall|i: int| 0 <= i < bin.len() ==> bin[i] == #[trigger] longer[i],
    ensures
        tile_lit(triangles, bin, area, far, compare, positions, count) == tile_lit(
            triangles,
            longer,
            area,
            far,
            compare,
            positions,
            count,
        ),
    decreases count,
{
    if count > 0 {
        a_prefix_shades_the_same(
            triangles,
            bin,
            longer,
            area,
            far,
            compare,
            positions,
            (count - 1) as nat,
        );
        assert(bin[count - 1] == longer[count - 1]);
    }
}

/// Whether every sample position is inside its pixel and has a bit.
pub open spec fn positions_usable(positions: Seq<SamplePosition>) -> bool {
    forall|i: int|
        0 <= i < positions.len() ==> 0 <= (#[trigger] positions[i]).x <= SUBPIXEL_ONE && 0
            <= positions[i].y <= SUBPIXEL_ONE && positions[i].index < 32
}

proof fn samples_of_a_pixel_fit(setup: Setup, x: int, y: int, position: SamplePosition)
    requires
        setup.wf(),
        0 <= x < MAX_RASTER_EXTENT,
        0 <= y < MAX_RASTER_EXTENT,
        0 <= position.x <= SUBPIXEL_ONE,
        0 <= position.y <= SUBPIXEL_ONE,
    ensures
        fits(sample_point(x, y, position).0),
        fits(sample_point(x, y, position).1),
        setup.samples_at(sample_point(x, y, position)),
{
    let at = sample_point(x, y, position);
    edge_is_bounded(setup.corner(0), setup.corner(1), at);
    edge_is_bounded(setup.corner(1), setup.corner(2), at);
    edge_is_bounded(setup.corner(2), setup.corner(0), at);
}

/// The pixels of one triangle in a rectangle of the target.
fn triangle_lit(
    primitive: u32,
    triangle: &Setup,
    part: &PixelBox,
    positions: &[SamplePosition],
    out: &mut Vec<Lit>,
)
    requires
        triangle.wf(),
        positions_usable(positions@),
        part.x0 >= 0 && part.y0 >= 0,
        part.x1 <= MAX_RASTER_EXTENT && part.y1 <= MAX_RASTER_EXTENT,
    ensures
        final(out)@ == old(out)@ + rows_lit(
            primitive,
            triangle_mask(*triangle, positions@),
            part.x0 as int,
            part.x1 as int,
            part.y0 as int,
            part.y1 as int,
        ),
{
    let ghost mask = triangle_mask(*triangle, positions@);
    let (x0, x1, y0, y1): (i64, i64, i64, i64) = (part.x0, part.x1, part.y0, part.y1);
    let mut y: i64 = y0;
    assert(out@ =~= old(out)@ + rows_lit(primitive, mask, x0 as int, x1 as int, y0 as int, y as int));
    while y < y1
        invariant
            triangle.wf(),
            positions_usable(positions@),
            0 <= x0,
            0 <= y0 <= y,
            x1 <= MAX_RASTER_EXTENT,
            y1 <= MAX_RASTER_EXTENT,
            y <= y1 || y == y0,
            mask == triangle_mask(*triangle, positions@),
            out@ == old(out)@ + rows_lit(primitive, mask, x0 as int, x1 as int, y0 as int, y as int),
        decreases y1 - y,
    {
        let mut x: i64 = x0;
        let ghost rows = out@;
        assert(out@ =~= rows + row_lit(primitive, mask, y as int, x0 as int, x as int));
        while x < x1
            invariant
                triangle.wf(),
                positions_usable(positions@),
                0 <= x0 <= x,
                0 <= y < y1,
                x1 <= MAX_RASTER_EXTENT,
                y1 <= MAX_RASTER_EXTENT,
                x <= x1 || x == x0,
                mask == triangle_mask(*triangle, positions@),
                out@ == rows + row_lit(primitive, mask, y as int, x0 as int, x as int),
            decreases x1 - x,
        {
            proof {
                assert forall|i: int| 0 <= i < positions@.len() implies (#[trigger] positions@[i]).index < 32
                    && fits(sample_point(x as int, y as int, positions@[i]).0) && fits(
                    sample_point(x as int, y as int, positions@[i]).1,
                ) && triangle.samples_at(sample_point(x as int, y as int, positions@[i])) by {
                    samples_of_a_pixel_fit(*triangle, x as int, y as int, positions@[i]);
                }
            }
            let covered: u32 = coverage(triangle, x, y, positions);
            let ghost before = out@;
            assert(covered == mask(x as int, y as int));
            if covered != 0 {
                out.push(Lit { primitive, x, y, coverage: covered });
            }
            assert(out@ =~= rows + row_lit(primitive, mask, y as int, x0 as int, x + 1));
            x = x + 1;
        }
        assert(out@ =~= old(out)@ + rows_lit(primitive, mask, x0 as int, x1 as int, y0 as int, y + 1)) by {
            if x1 < x0 {
                assert(row_lit(primitive, mask, y as int, x0 as int, x1 as int) =~= Seq::<Lit>::empty());
            }
        }
        y = y + 1;
    }
    if y1 < y0 {
        assert(rows_lit(primitive, mask, x0 as int, x1 as int, y0 as int, y1 as int) =~= Seq::<Lit>::empty());
    }
}

/// The pixels of a tile to shade: the triangles of its bin in order, each over the pixels of its own bounds
/// that are in the tile and in the scissor, but for the triangles hidden behind what the tile holds.
pub fn shade_tile(
    triangles: &[Binned],
    bin: &[u32],
    tile: &PixelBox,
    held: &PixelBox,
    far: u32,
    compare: CompareOp,
    positions: &[SamplePosition],
) -> (fragments: Vec<Lit>)
    requires
        positions_usable(positions@),
        tile.x0 >= 0 && tile.y0 >= 0,
        tile.x1 <= MAX_RASTER_EXTENT && tile.y1 <= MAX_RASTER_EXTENT,
        forall|i: int| 0 <= i < triangles@.len() ==> (#[trigger] triangles@[i]).setup.wf(),
        forall|i: int| 0 <= i < bin@.len() ==> (#[trigger] bin@[i]) < triangles@.len(),
    ensures
        fragments@ == tile_lit(
            triangles@,
            bin@,
            common(*tile, *held),
            far,
            compare,
            positions@,
            bin@.len(),
        ),
{
    let area = shared(tile, held);
    let mut fragments: Vec<Lit> = Vec::new();
    let mut next: usize = 0;
    while next < bin.len()
        invariant
            next <= bin@.len(),
            positions_usable(positions@),
            area == common(*tile, *held),
            area.x0 >= 0 && area.y0 >= 0,
            area.x1 <= MAX_RASTER_EXTENT && area.y1 <= MAX_RASTER_EXTENT,
            forall|i: int| 0 <= i < triangles@.len() ==> (#[trigger] triangles@[i]).setup.wf(),
            forall|i: int| 0 <= i < bin@.len() ==> (#[trigger] bin@[i]) < triangles@.len(),
            fragments@ == tile_lit(triangles@, bin@, area, far, compare, positions@, next as nat),
        decreases bin@.len() - next,
    {
        let index: u32 = bin[next];
        let triangle = &triangles[index as usize].setup;
        assert(triangles@[index as int].setup.wf());
        if !is_hidden(triangle, far, compare) {
            let part = shared(&triangle.bounds, &area);
            triangle_lit(index, triangle, &part, positions, &mut fragments);
        }
        next = next + 1;
    }
    fragments
}

// ---------------------------------------------------------------------------------------------
// Lines and points.
// ---------------------------------------------------------------------------------------------
/// Every sample of a pixel, of a pass of fewer than thirty-two.
pub open spec fn every_sample(samples: u32) -> u32 {
    ((1u32 << samples) - 1) as u32
}

/// Every sample of a pixel.
pub fn full_coverage(samples: u32) -> (mask: u32)
    requires
        samples < 32,
    ensures
        mask == every_sample(samples),
{
    assert((1u32 << samples) >= 1) by (bit_vector)
        requires
            samples < 32,
    ;
    (1u32 << samples) - 1
}

/// Whether a line covers a pixel, as a mask.
pub open spec fn line_mask(from: (Subpixel, Subpixel), to: (Subpixel, Subpixel)) -> spec_fn(int, int) -> u32 {
    |x: int, y: int|
        if exits_diamond(from, to, x, y) {
            1u32
        } else {
            0u32
        }
}

/// The whole pixel a coordinate is in.
pub open spec fn pixel_of(coordinate: Subpixel) -> int {
    coordinate.0 as int / SUBPIXEL_ONE as int
}

/// The pixels of a target a line is looked for in: those of its ends and between, and one more all round.
pub open spec fn line_area(
    from: (Subpixel, Subpixel),
    to: (Subpixel, Subpixel),
    held: PixelBox,
) -> PixelBox {
    common(
        PixelBox {
            x0: ((if pixel_of(from.0) < pixel_of(to.0) {
                pixel_of(from.0)
            } else {
                pixel_of(to.0)
            }) - 1) as i64,
            y0: ((if pixel_of(from.1) < pixel_of(to.1) {
                pixel_of(from.1)
            } else {
                pixel_of(to.1)
            }) - 1) as i64,
            x1: ((if pixel_of(from.0) > pixel_of(to.0) {
                pixel_of(from.0)
            } else {
                pixel_of(to.0)
            }) + 2) as i64,
            y1: ((if pixel_of(from.1) > pixel_of(to.1) {
                pixel_of(from.1)
            } else {
                pixel_of(to.1)
            }) + 2) as i64,
        },
        held,
    )
}

/// The pixels a line shades, row by row: those it covers under the diamond-exit rule.
pub fn line_fragments(primitive: u32, segment: &Segment, held: &PixelBox) -> (fragments: Vec<Lit>)
    requires
        point_on_grid(segment.from),
        point_on_grid(segment.to),
        held.x0 >= 0 && held.y0 >= 0,
        held.x1 <= MAX_RASTER_EXTENT && held.y1 <= MAX_RASTER_EXTENT,
    ensures
        ({
            let area = line_area(segment.from, segment.to, *held);
            fragments@ == rows_lit(
                primitive,
                line_mask(segment.from, segment.to),
                area.x0 as int,
                area.x1 as int,
                area.y0 as int,
                area.y1 as int,
            )
        }),
{
    let (from, to) = (segment.from, segment.to);
    let (fx, fy): (i64, i64) = (from.0.pixel(), from.1.pixel());
    let (tx, ty): (i64, i64) = (to.0.pixel(), to.1.pixel());
    let around = PixelBox {
        x0: (if fx < tx {
            fx
        } else {
            tx
        }) - 1,
        y0: (if fy < ty {
            fy
        } else {
            ty
        }) - 1,
        x1: (if fx > tx {
            fx
        } else {
            tx
        }) + 2,
        y1: (if fy > ty {
            fy
        } else {
            ty
        }) + 2,
    };
    let area = shared(&around, held);
    assert(area == line_area(from, to, *held));
    let ghost mask = line_mask(from, to);
    let (x0, x1, y0, y1): (i64, i64, i64, i64) = (area.x0, area.x1, area.y0, area.y1);
    let mut fragments: Vec<Lit> = Vec::new();
    let mut y: i64 = y0;
    while y < y1
        invariant
            point_on_grid(from),
            point_on_grid(to),
            0 <= x0,
            0 <= y0 <= y,
            x1 <= MAX_RASTER_EXTENT,
            y1 <= MAX_RASTER_EXTENT,
            y <= y1 || y == y0,
            mask == line_mask(from, to),
            fragments@ == rows_lit(primitive, mask, x0 as int, x1 as int, y0 as int, y as int),
        decreases y1 - y,
    {
        let mut x: i64 = x0;
        let ghost rows = fragments@;
        assert(fragments@ =~= rows + row_lit(primitive, mask, y as int, x0 as int, x as int));
        while x < x1
            invariant
                point_on_grid(from),
                point_on_grid(to),
                0 <= x0 <= x,
                0 <= y < y1,
                x1 <= MAX_RASTER_EXTENT,
                y1 <= MAX_RASTER_EXTENT,
                x <= x1 || x == x0,
                mask == line_mask(from, to),
                fragments@ == rows + row_lit(primitive, mask, y as int, x0 as int, x as int),
            decreases x1 - x,
        {
            if line_covers_pixel(from, to, x, y) {
                fragments.push(Lit { primitive, x, y, coverage: 1 });
            }
            assert(fragments@ =~= rows + row_lit(primitive, mask, y as int, x0 as int, x + 1));
            x = x + 1;
        }
        assert(fragments@ =~= rows_lit(primitive, mask, x0 as int, x1 as int, y0 as int, y + 1)) by {
            if x1 < x0 {
                assert(row_lit(primitive, mask, y as int, x0 as int, x1 as int) =~= Seq::<Lit>::empty());
            }
        }
        y = y + 1;
    }
    if y1 < y0 {
        assert(rows_lit(primitive, mask, x0 as int, x1 as int, y0 as int, y1 as int) =~= Seq::<Lit>::empty());
    }
    fragments
}

/// The mask of a point over the pixels, from the first `count` sample positions.
pub open spec fn point_covered(
    centre: (Subpixel, Subpixel),
    size: u32,
    x: int,
    y: int,
    positions: Seq<SamplePosition>,
    count: nat,
) -> u32
    decreases count,
{
    if count == 0 {
        0
    } else {
        let before = point_covered(centre, size, x, y, positions, (count - 1) as nat);
        let at = sample_point(x, y, positions[count - 1]);
        if point_spans(centre.0.0 as int, size as int, at.0) && point_spans(
            centre.1.0 as int,
            size as int,
            at.1,
        ) {
            before | (1u32 << positions[count - 1].index)
        } else {
            before
        }
    }
}

/// The mask of a point over the pixels.
pub open spec fn point_mask(
    centre: (Subpixel, Subpixel),
    size: u32,
    positions: Seq<SamplePosition>,
) -> spec_fn(int, int) -> u32 {
    |x: int, y: int| point_covered(centre, size, x, y, positions, positions.len())
}

/// The pixels of a target a point is looked for in.
pub open spec fn point_area(centre: (Subpixel, Subpixel), size: u32, held: PixelBox) -> PixelBox {
    common(
        PixelBox {
            x0: (pixel_of(centre.0) - size) as i64,
            y0: (pixel_of(centre.1) - size) as i64,
            x1: (pixel_of(centre.0) + size + 1) as i64,
            y1: (pixel_of(centre.1) + size + 1) as i64,
        },
        held,
    )
}

fn point_coverage(
    centre: (Subpixel, Subpixel),
    size: u32,
    x: i64,
    y: i64,
    positions: &[SamplePosition],
) -> (mask: u32)
    requires
        point_on_grid(centre),
        positions_usable(positions@),
        0 <= x < MAX_RASTER_EXTENT,
        0 <= y < MAX_RASTER_EXTENT,
    ensures
        mask == point_covered(centre, size, x as int, y as int, positions@, positions@.len()),
{
    let mut mask: u32 = 0;
    let mut next: usize = 0;
    while next < positions.len()
        invariant
            next <= positions@.len(),
            point_on_grid(centre),
            positions_usable(positions@),
            0 <= x < MAX_RASTER_EXTENT,
            0 <= y < MAX_RASTER_EXTENT,
            mask == point_covered(centre, size, x as int, y as int, positions@, next as nat),
        decreases positions@.len() - next,
    {
        let position = positions[next];
        assert(0 <= positions@[next as int].x <= SUBPIXEL_ONE);
        let at = (
            Subpixel(x * SUBPIXEL_ONE + position.x),
            Subpixel(y * SUBPIXEL_ONE + position.y),
        );
        if point_covers(centre, size, at) {
            mask = mask | (1u32 << position.index);
        }
        next = next + 1;
    }
    mask
}

/// The pixels a point shades, row by row: those of which a sample is in its square.
pub fn point_fragments(
    primitive: u32,
    centre: (Subpixel, Subpixel),
    size: u32,
    held: &PixelBox,
    positions: &[SamplePosition],
) -> (fragments: Vec<Lit>)
    requires
        point_on_grid(centre),
        positions_usable(positions@),
        held.x0 >= 0 && held.y0 >= 0,
        held.x1 <= MAX_RASTER_EXTENT && held.y1 <= MAX_RASTER_EXTENT,
    ensures
        ({
            let area = point_area(centre, size, *held);
            fragments@ == rows_lit(
                primitive,
                point_mask(centre, size, positions@),
                area.x0 as int,
                area.x1 as int,
                area.y0 as int,
                area.y1 as int,
            )
        }),
{
    let (cx, cy): (i64, i64) = (centre.0.pixel(), centre.1.pixel());
    let around = PixelBox {
        x0: cx - size as i64,
        y0: cy - size as i64,
        x1: cx + size as i64 + 1,
        y1: cy + size as i64 + 1,
    };
    let area = shared(&around, held);
    assert(area == point_area(centre, size, *held));
    let ghost mask = point_mask(centre, size, positions@);
    let (x0, x1, y0, y1): (i64, i64, i64, i64) = (area.x0, area.x1, area.y0, area.y1);
    let mut fragments: Vec<Lit> = Vec::new();
    let mut y: i64 = y0;
    while y < y1
        invariant
            point_on_grid(centre),
            positions_usable(positions@),
            0 <= x0,
            0 <= y0 <= y,
            x1 <= MAX_RASTER_EXTENT,
            y1 <= MAX_RASTER_EXTENT,
            y <= y1 || y == y0,
            mask == point_mask(centre, size, positions@),
            fragments@ == rows_lit(primitive, mask, x0 as int, x1 as int, y0 as int, y as int),
        decreases y1 - y,
    {
        let mut x: i64 = x0;
        let ghost rows = fragments@;
        assert(fragments@ =~= rows + row_lit(primitive, mask, y as int, x0 as int, x as int));
        while x < x1
            invariant
                point_on_grid(centre),
                positions_usable(positions@),
                0 <= x0 <= x,
                0 <= y < y1,
                x1 <= MAX_RASTER_EXTENT,
                y1 <= MAX_RASTER_EXTENT,
                x <= x1 || x == x0,
                mask == point_mask(centre, size, positions@),
                fragments@ == rows + row_lit(primitive, mask, y as int, x0 as int, x as int),
            decreases x1 - x,
        {
            let covered: u32 = point_coverage(centre, size, x, y, positions);
            assert(covered == mask(x as int, y as int));
            if covered != 0 {
                fragments.push(Lit { primitive, x, y, coverage: covered });
            }
            assert(fragments@ =~= rows + row_lit(primitive, mask, y as int, x0 as int, x + 1));
            x = x + 1;
        }
        assert(fragments@ =~= rows_lit(primitive, mask, x0 as int, x1 as int, y0 as int, y + 1)) by {
            if x1 < x0 {
                assert(row_lit(primitive, mask, y as int, x0 as int, x1 as int) =~= Seq::<Lit>::empty());
            }
        }
        y = y + 1;
    }
    if y1 < y0 {
        assert(rows_lit(primitive, mask, x0 as int, x1 as int, y0 as int, y1 as int) =~= Seq::<Lit>::empty());
    }
    fragments
}

proof fn a_mean_is_between(from: int, to: int, n: int, d: int, low: int, high: int)
    requires
        0 <= n < d,
        d * low < d * from + n * (to - from) < d * high,
    ensures
        from < high || to < high,
        low < from || low < to,
{
    assert(d * from + n * (to - from) == (d - n) * from + n * to) by (nonlinear_arith);
    if from >= high && to >= high {
        assert((d - n) * from >= (d - n) * high && n * to >= n * high) by (nonlinear_arith)
            requires
                from >= high,
                to >= high,
                0 <= n < d,
        ;
        assert((d - n) * high + n * high == d * high) by (nonlinear_arith);
    }
    if from <= low && to <= low {
        assert((d - n) * from <= (d - n) * low && n * to <= n * low) by (nonlinear_arith)
            requires
                from <= low,
                to <= low,
                0 <= n < d,
        ;
        assert((d - n) * low + n * low == d * low) by (nonlinear_arith);
    }
}

/// No pixel a line covers is looked past: it is in the area the line is looked for in.
pub proof fn a_covered_pixel_is_looked_for(
    from: (Subpixel, Subpixel),
    to: (Subpixel, Subpixel),
    held: PixelBox,
    x: int,
    y: int,
)
    requires
        point_on_grid(from),
        point_on_grid(to),
        held.has(x, y),
        exits_diamond(from, to, x, y),
    ensures
        line_area(from, to, held).has(x, y),
{
    let (n, d) = choose|n: int, d: int| 0 <= n < d && #[trigger] inside_at(from, to, x, y, n, d);
    let (ax, bx, ay, by) = (from.0.0 as int, to.0.0 as int, from.1.0 as int, to.1.0 as int);
    let (cx, cy) = (centre(x), centre(y));
    let (px, py) = (d * (ax - cx) + n * (bx - ax), d * (ay - cy) + n * (by - ay));
    assert(magnitude(px) + magnitude(py) < SUBPIXEL_HALF * d);
    assert(d * (ax - cx) == d * ax - d * cx && d * (ay - cy) == d * ay - d * cy) by (nonlinear_arith);
    assert(d * (cx - 128) == d * cx - 128 * d && d * (cx + 128) == d * cx + 128 * d) by (nonlinear_arith);
    assert(d * (cy - 128) == d * cy - 128 * d && d * (cy + 128) == d * cy + 128 * d) by (nonlinear_arith);
    a_mean_is_between(ax, bx, n, d, cx - 128, cx + 128);
    a_mean_is_between(ay, by, n, d, cy - 128, cy + 128);
}

proof fn a_spanned_pixel_is_near(centre: int, size: int, x: int, offset: int)
    requires
        size >= 1,
        0 <= offset <= SUBPIXEL_ONE,
        point_spans(centre, size, x * SUBPIXEL_ONE + offset),
        offset < SUBPIXEL_ONE,
    ensures
        centre / (SUBPIXEL_ONE as int) - size <= x <= centre / (SUBPIXEL_ONE as int) + size,
{
}

/// No pixel a point covers is looked past, whichever of its samples is covered.
pub proof fn a_pointed_pixel_is_looked_for(
    centre: (Subpixel, Subpixel),
    size: u32,
    held: PixelBox,
    x: int,
    y: int,
    position: SamplePosition,
)
    requires
        point_on_grid(centre),
        0 <= position.x < SUBPIXEL_ONE,
        0 <= position.y < SUBPIXEL_ONE,
        held.has(x, y),
        point_spans(centre.0.0 as int, size as int, sample_point(x, y, position).0),
        point_spans(centre.1.0 as int, size as int, sample_point(x, y, position).1),
    ensures
        point_area(centre, size, held).has(x, y),
{
    if size >= 1 {
        a_spanned_pixel_is_near(centre.0.0 as int, size as int, x, position.x as int);
        a_spanned_pixel_is_near(centre.1.0 as int, size as int, y, position.y as int);
    }
}

// ---------------------------------------------------------------------------------------------
// What a fragment writes.
// ---------------------------------------------------------------------------------------------
/// Whether a pipeline biases depth at all.
pub open spec fn biases(bias: (u32, u32, u32)) -> bool {
    !same(bias.0, 0) || !same(bias.1, 0)
}

/// Whether a pipeline biases depth at all.
pub fn is_biased(pipeline: &Pipeline) -> (biased: bool)
    ensures
        biased == biases(pipeline.bias),
{
    !equal(pipeline.bias.0, 0) || !equal(pipeline.bias.1, 0)
}

/// Count a shaded fragment and answer the depth it goes on with: the one its stage wrote, or the
/// interpolated one. A discarded fragment goes no further.
pub fn finish_fragment(outputs: &Outputs, depth: u32, stats: &mut Stats) -> (kept: Option<u32>)
    requires
        old(stats).fragments < u32::MAX,
        old(stats).discarded < u32::MAX,
    ensures
        kept == (if outputs.discarded {
            None
        } else {
            match outputs.depth {
                Some(written) => Some(written),
                None => Some(depth),
            }
        }),
        *final(stats) == (Stats {
            fragments: (old(stats).fragments + 1) as u32,
            discarded: (old(stats).discarded + (if outputs.discarded {
                1int
            } else {
                0
            })) as u32,
            ..*old(stats)
        }),
{
    stats.fragments = stats.fragments + 1;
    if outputs.discarded {
        stats.discarded = stats.discarded + 1;
        return None;
    }
    match outputs.depth {
        Some(written) => Some(written),
        None => Some(depth),
    }
}

/// What a fragment writes to one attachment.
#[derive(Clone, Copy, PartialEq, Eq, Structural, Debug)]
pub enum Value {
    /// An identity, which the caller stores in the first channel with an opaque alpha.
    Identity(u32),
    Colour(u32, u32, u32, u32),
}

/// One write of a fragment.
#[derive(Clone, Copy, PartialEq, Eq, Structural, Debug)]
pub struct Write {
    pub attachment: usize,
    pub value: Value,
    pub blend: AttachmentBlend,
    pub sample_mask: u32,
    pub alpha_to_coverage: bool,
}

/// The first value written to a colour attachment, from one on.
pub open spec fn colour_written(written: Seq<(u32, Val)>, attachment: int, from: nat) -> Option<Datum>
    decreases written.len() - from,
{
    if from >= written.len() {
        None
    } else if written[from as int].0 == attachment {
        Some(written[from as int].1@)
    } else {
        colour_written(written, attachment, from + 1)
    }
}

/// The first identity written to an attachment, from one on, or zero where there is none.
pub open spec fn identity_written(written: Seq<(u32, u32)>, attachment: int, from: nat) -> u32
    decreases written.len() - from,
{
    if from >= written.len() {
        0
    } else if written[from as int].0 == attachment {
        written[from as int].1
    } else {
        identity_written(written, attachment, from + 1)
    }
}

/// What a fragment writes to one attachment, given whether it holds identities: an identity attachment is
/// always written, a colour one only where the stage wrote it.
pub open spec fn value_for(outputs: Outputs, integer: bool, attachment: int) -> Option<Value> {
    if integer {
        Some(Value::Identity(identity_written(outputs.integer@, attachment, 0)))
    } else {
        match colour_written(outputs.colour@, attachment, 0) {
            Some(value) => Some(Value::Colour(value.word(0), value.word(1), value.word(2), value.word(3))),
            None => None,
        }
    }
}

/// The writes of a fragment to the first `count` attachments.
pub open spec fn writes(
    integer: Seq<bool>,
    outputs: Outputs,
    pipeline: Pipeline,
    count: nat,
) -> Seq<Write>
    decreases count,
{
    if count == 0 {
        Seq::empty()
    } else {
        let before = writes(integer, outputs, pipeline, (count - 1) as nat);
        match value_for(outputs, integer[count - 1], count - 1) {
            None => before,
            Some(value) => before.push(
                Write {
                    attachment: (count - 1) as usize,
                    value,
                    blend: pipeline.blend@[count - 1],
                    sample_mask: (match outputs.sample_mask {
                        Some(mask) => mask,
                        None => u32::MAX,
                    }) & pipeline.sample_mask,
                    alpha_to_coverage: pipeline.alpha_to_coverage && !integer[count - 1],
                },
            ),
        }
    }
}

fn find_identity(written: &Vec<(u32, u32)>, attachment: usize) -> (identity: u32)
    ensures
        identity == identity_written(written@, attachment as int, 0),
{
    let mut next: usize = 0;
    while next < written.len()
        invariant
            next <= written@.len(),
            identity_written(written@, attachment as int, 0) == identity_written(
                written@,
                attachment as int,
                next as nat,
            ),
        decreases written@.len() - next,
    {
        if written[next].0 as usize == attachment {
            return written[next].1;
        }
        next = next + 1;
    }
    0
}

fn find_colour(written: &Vec<(u32, Val)>, attachment: usize) -> (value: Option<Value>)
    ensures
        value == (match colour_written(written@, attachment as int, 0) {
            Some(found) => Some(
                Value::Colour(found.word(0), found.word(1), found.word(2), found.word(3)),
            ),
            None => None,
        }),
{
    let mut next: usize = 0;
    while next < written.len()
        invariant
            next <= written@.len(),
            colour_written(written@, attachment as int, 0) == colour_written(
                written@,
                attachment as int,
                next as nat,
            ),
        decreases written@.len() - next,
    {
        if written[next].0 as usize == attachment {
            let found = &written[next].1;
            return Some(
                Value::Colour(found.f32_at(0), found.f32_at(1), found.f32_at(2), found.f32_at(3)),
            );
        }
        next = next + 1;
    }
    None
}

/// What a fragment writes, attachment by attachment, each at most once and in order. An attachment the
/// stage did not write is left alone; the stage's sample mask and the pipeline's are both applied.
pub fn write_outputs(integer: &[bool], outputs: &Outputs, pipeline: &Pipeline) -> (list: Vec<Write>)
    requires
        pipeline.blend@.len() >= integer@.len(),
    ensures
        list@ == writes(integer@, *outputs, *pipeline, integer@.len()),
        forall|i: int| 0 <= i < list@.len() ==> (#[trigger] list@[i]).attachment < integer@.len(),
        forall|i: int, j: int|
            0 <= i < j < list@.len() ==> (#[trigger] list@[i]).attachment < (#[trigger] list@[j]).attachment,
{
    let own: u32 = match outputs.sample_mask {
        Some(mask) => mask,
        None => 0xffff_ffff,
    };
    let mut list: Vec<Write> = Vec::new();
    let mut next: usize = 0;
    while next < integer.len()
        invariant
            next <= integer@.len(),
            pipeline.blend@.len() >= integer@.len(),
            own == (match outputs.sample_mask {
                Some(mask) => mask,
                None => u32::MAX,
            }),
            list@ == writes(integer@, *outputs, *pipeline, next as nat),
            forall|i: int| 0 <= i < list@.len() ==> (#[trigger] list@[i]).attachment < next,
            forall|i: int, j: int|
                0 <= i < j < list@.len() ==> (#[trigger] list@[i]).attachment
                    < (#[trigger] list@[j]).attachment,
        decreases integer@.len() - next,
    {
        let value = if integer[next] {
            Some(Value::Identity(find_identity(&outputs.integer, next)))
        } else {
            find_colour(&outputs.colour, next)
        };
        if let Some(found) = value {
            list.push(
                Write {
                    attachment: next,
                    value: found,
                    blend: pipeline.blend[next],
                    sample_mask: own & pipeline.sample_mask,
                    alpha_to_coverage: pipeline.alpha_to_coverage && !integer[next],
                },
            );
        }
        next = next + 1;
    }
    list
}

// ---------------------------------------------------------------------------------------------
// Laws of staging.
// ---------------------------------------------------------------------------------------------
/// Whether a corner of a staged triangle is a vertex of the primitive: it stands where the vertex is projected to, and
/// carries the vertex's depth, its reciprocal `w` and its own varyings.
pub open spec fn corner_is(
    staged: Binned,
    slot: int,
    clipped: Clipped,
    projected: Seq<Result<Projected, Error>>,
    vertex: int,
) -> bool {
    match projected[vertex] {
        Ok(at) => {
            &&& quantised(at.x) matches Ok(x) && staged.setup.vertex@[slot].0 == x
            &&& quantised(at.y) matches Ok(y) && staged.setup.vertex@[slot].1 == y
            &&& staged.setup.depth@[slot] == at.depth
            &&& staged.setup.inverse_w@[slot] == at.inverse_w
            &&& staged.smooth@[slot] == clipped.vertices@[vertex].smooth
            &&& staged.noperspective@[slot] == clipped.vertices@[vertex].noperspective
        },
        Err(_) => false,
    }
}

/// Whether a staged triangle is the one of a fan through its first vertex and two neighbours, each corner with all that
/// belongs to its vertex, in an order that winds it to a positive area.
pub open spec fn is_of_the_fan(
    staged: Binned,
    clipped: Clipped,
    projected: Seq<Result<Projected, Error>>,
    index: int,
) -> bool {
    let (a, b, c) = (0int, index + 1, index + 2);
    &&& corner_is(staged, 0, clipped, projected, a)
    &&& {
        ||| corner_is(staged, 1, clipped, projected, b) && corner_is(staged, 2, clipped, projected, c)
            && staged.setup.source@ == seq![0usize, 1usize, 2usize]
        ||| corner_is(staged, 1, clipped, projected, c) && corner_is(staged, 2, clipped, projected, b)
            && staged.setup.source@ == seq![0usize, 2usize, 1usize]
    }
    &&& staged.flat == clipped.flat
    &&& ({
        let (p, q, r) = (staged.setup.vertex@[0], staged.setup.vertex@[1], staged.setup.vertex@[2]);
        (r.0.0 - p.0.0) * (q.1.0 - p.1.0) - (r.1.0 - p.1.0) * (q.0.0 - p.0.0) > 0
    })
}

/// A staged triangle has every vertex's varyings beside the corner that vertex is projected to, so that what is
/// interpolated at a corner is what the vertex there was given.
pub proof fn a_staged_corner_is_its_vertex(
    clipped: Clipped,
    projected: Seq<Result<Projected, Error>>,
    cull: Cull,
    width: u32,
    height: u32,
    index: int,
    staged: Binned,
)
    requires
        0 <= index,
        index + 2 < clipped.vertices@.len(),
        projected.len() == clipped.vertices@.len(),
        fan_member(clipped, projected, cull, width, height, index) == Member::Staged(staged),
    ensures
        is_of_the_fan(staged, clipped, projected, index),
        cull is Front ==> staged.setup.facing is Back,
        cull is Back ==> staged.setup.facing is Front,
        staged.setup.facing is Front <==> staged.setup.source@ == seq![0usize, 1usize, 2usize],
{
    let a = projected[0]->Ok_0;
    let b = projected[index + 1]->Ok_0;
    let c = projected[index + 2]->Ok_0;
    let window = seq![window_of(a), window_of(b), window_of(c)];
    let area = submitted_area(window);
    assert(window_fault(window) is None);
    let (p, q, r) = (
        super::raster::window_point(window[0]),
        super::raster::window_point(window[1]),
        super::raster::window_point(window[2]),
    );
    let (d, e, f, g) = (q.0 - p.0, r.1 - p.1, q.1 - p.1, r.0 - p.0);
    assert(area == g * f - e * d);
    assert(d * e == e * d && f * g == g * f) by (nonlinear_arith);
    assert(d * e - f * g == -(g * f - e * d));
    if area < 0 {
        assert(staged.setup.source@ =~= seq![0usize, 2usize, 1usize]);
        assert(staged.setup.source@[1] == 2);
    } else {
        assert(staged.setup.source@ =~= seq![0usize, 1usize, 2usize]);
        assert(staged.setup.source@[1] == 1);
    }
}

/// Every triangle a fan stages is one of the fan's, and they are staged in the fan's order: for each there is its place
/// in the fan, and the places ascend.
pub proof fn every_staged_triangle_is_of_the_fan(
    clipped: Clipped,
    projected: Seq<Result<Projected, Error>>,
    cull: Cull,
    width: u32,
    height: u32,
    count: nat,
) -> (places: Seq<int>)
    requires
        count + 2 <= clipped.vertices@.len() || count == 0,
        projected.len() == clipped.vertices@.len(),
    ensures
        ({
            let staged = fan(clipped, projected, cull, width, height, count).staged;
            &&& places.len() == staged.len()
            &&& forall|k: int|
                0 <= k < staged.len() ==> 0 <= #[trigger] places[k] < count && is_of_the_fan(
                    staged[k],
                    clipped,
                    projected,
                    places[k],
                )
            &&& forall|k: int, m: int| 0 <= k < m < staged.len() ==> #[trigger] places[k] < #[trigger] places[m]
        }),
    decreases count,
{
    if count == 0 {
        Seq::empty()
    } else {
        let before = every_staged_triangle_is_of_the_fan(
            clipped,
            projected,
            cull,
            width,
            height,
            (count - 1) as nat,
        );
        let done = fan(clipped, projected, cull, width, height, (count - 1) as nat);
        if done.fault is None {
            if let Member::Staged(staged) = fan_member(clipped, projected, cull, width, height, count - 1) {
                a_staged_corner_is_its_vertex(clipped, projected, cull, width, height, count - 1, staged);
                before.push(count - 1)
            } else {
                before
            }
        } else {
            before
        }
    }
}

/// With culling off no triangle with an area and a pixel of the target is left out: each of the fan is staged, unless
/// the primitive is refused.
pub proof fn nothing_visible_is_left_out(
    clipped: Clipped,
    projected: Seq<Result<Projected, Error>>,
    width: u32,
    height: u32,
    index: int,
)
    requires
        0 <= index,
        index + 2 < clipped.vertices@.len(),
        projected.len() == clipped.vertices@.len(),
    ensures
        !(fan_member(clipped, projected, Cull::Nothing, width, height, index) is Culled),
        fan_member(clipped, projected, Cull::Nothing, width, height, index) matches Member::Staged(staged) ==> {
            &&& fan_member(clipped, projected, Cull::Front, width, height, index) == if staged.setup.facing is Front {
                Member::Culled
            } else {
                Member::Staged(staged)
            }
            &&& fan_member(clipped, projected, Cull::Back, width, height, index) == if staged.setup.facing is Back {
                Member::Culled
            } else {
                Member::Staged(staged)
            }
        },
{
}

/// A staged line runs from its first vertex to its second, each end with all that belongs to its vertex.
pub proof fn a_staged_line_keeps_its_ends(clipped: Clipped, projected: Seq<Result<Projected, Error>>, end: int)
    requires
        clipped.vertices@.len() >= 2,
        projected.len() == clipped.vertices@.len(),
        line_staged(clipped, projected) is Ok,
        end == 0 || end == 1,
    ensures
        line_staged(clipped, projected)->Ok_0 matches Some(segment) && {
            let at = projected[end]->Ok_0;
            let place = if end == 0 {
                segment.from
            } else {
                segment.to
            };
            &&& projected[end] is Ok
            &&& quantised(at.x) == Ok::<Subpixel, super::fixed::FixedFault>(place.0)
            &&& quantised(at.y) == Ok::<Subpixel, super::fixed::FixedFault>(place.1)
            &&& segment.depth@[end] == at.depth
            &&& segment.inverse_w@[end] == at.inverse_w
            &&& segment.smooth@[end] == clipped.vertices@[end].smooth
            &&& segment.noperspective@[end] == clipped.vertices@[end].noperspective
            &&& segment.flat == clipped.flat
        },
{
}

// ---------------------------------------------------------------------------------------------
// Laws of what is shaded.
// ---------------------------------------------------------------------------------------------
proof fn a_row_is_lit_by_its_mask(primitive: u32, mask: spec_fn(int, int) -> u32, y: int, x0: int, x: int, i: int)
    requires
        i64::MIN <= x0 && x <= i64::MAX,
        i64::MIN <= y <= i64::MAX,
        0 <= i < row_lit(primitive, mask, y, x0, x).len(),
    ensures
        ({
            let lit = row_lit(primitive, mask, y, x0, x)[i];
            lit.primitive == primitive && x0 <= lit.x < x && lit.y == y && lit.coverage == mask(lit.x as int, y)
                && lit.coverage != 0
        }),
    decreases x - x0,
{
    if x0 < x {
        let before = row_lit(primitive, mask, y, x0, x - 1);
        if i < before.len() {
            a_row_is_lit_by_its_mask(primitive, mask, y, x0, x - 1, i);
        }
    }
}

/// Every pixel that is listed is one of the area, for the primitive it is listed for, with the samples that primitive
/// covers there.
pub proof fn a_listed_pixel_is_covered(
    primitive: u32,
    mask: spec_fn(int, int) -> u32,
    x0: int,
    x1: int,
    y0: int,
    y: int,
    i: int,
)
    requires
        i64::MIN <= x0 && x1 <= i64::MAX,
        i64::MIN <= y0 && y <= i64::MAX,
        0 <= i < rows_lit(primitive, mask, x0, x1, y0, y).len(),
    ensures
        ({
            let lit = rows_lit(primitive, mask, x0, x1, y0, y)[i];
            lit.primitive == primitive && x0 <= lit.x < x1 && y0 <= lit.y < y && lit.coverage == mask(
                lit.x as int,
                lit.y as int,
            ) && lit.coverage != 0
        }),
    decreases y - y0,
{
    if y0 < y {
        let before = rows_lit(primitive, mask, x0, x1, y0, y - 1);
        if i < before.len() {
            a_listed_pixel_is_covered(primitive, mask, x0, x1, y0, y - 1, i);
        } else {
            a_row_is_lit_by_its_mask(primitive, mask, y - 1, x0, x1, i - before.len());
        }
    }
}

/// A sample of a pixel is in the mask of a triangle exactly where the triangle covers the place of that sample: the
/// pixel's corner, two hundred and fifty-six parts to a pixel, and the sample's offset in it.
pub proof fn a_mask_is_by_sample(setup: Setup, x: int, y: int, positions: Seq<SamplePosition>, count: nat, index: u32)
    requires
        count <= positions.len(),
        positions_usable(positions),
        index < 32,
    ensures
        super::raster::bit(covered_mask(setup, x, y, positions, count), index) <==> exists|k: int|
            0 <= k < count && (#[trigger] positions[k]).index == index && setup.covers(
                (256 * x + positions[k].x, 256 * y + positions[k].y),
            ),
    decreases count,
{
    if count == 0 {
        super::raster::setting_a_bit(0, 0, index);
    } else {
        a_mask_is_by_sample(setup, x, y, positions, (count - 1) as nat, index);
        let last = positions[count - 1];
        let before = covered_mask(setup, x, y, positions, (count - 1) as nat);
        super::raster::setting_a_bit(before, last.index, index);
        if super::raster::bit(before, index) {
            let k = choose|k: int|
                0 <= k < count - 1 && (#[trigger] positions[k]).index == index && setup.covers(
                    (256 * x + positions[k].x, 256 * y + positions[k].y),
                );
            assert(positions[k].index == index);
        }
    }
}

/// Whether a pixel of a triangle is shaded in a tile: some sample of it is covered, and it is in the triangle's box and
/// in the area.
pub open spec fn is_lit(triangle: Setup, area: PixelBox, positions: Seq<SamplePosition>, x: int, y: int) -> bool {
    &&& triangle.bounds.x0 <= x < triangle.bounds.x1 && triangle.bounds.y0 <= y < triangle.bounds.y1
    &&& area.x0 <= x < area.x1 && area.y0 <= y < area.y1
    &&& covered_mask(triangle, x, y, positions, positions.len()) != 0
}

/// What a tile shades is, triangle by triangle in the order of its bin, every covered pixel of the triangle in the area,
/// with the samples covered there, and nothing else; a hidden triangle's are left out.
pub proof fn a_tile_shades_its_triangles(
    triangles: Seq<Binned>,
    bin: Seq<u32>,
    area: PixelBox,
    far: u32,
    compare: CompareOp,
    positions: Seq<SamplePosition>,
    count: nat,
    i: int,
)
    requires
        count <= bin.len(),
        0 <= i < tile_lit(triangles, bin, area, far, compare, positions, count).len(),
    ensures
        ({
            let lit = tile_lit(triangles, bin, area, far, compare, positions, count)[i];
            exists|k: int|
                {
                    let triangle = triangles[#[trigger] bin[k] as int].setup;
                    &&& 0 <= k < count && lit.primitive == bin[k] && !hidden(triangle, far, compare)
                    &&& is_lit(triangle, area, positions, lit.x as int, lit.y as int)
                    &&& lit.coverage == covered_mask(
                        triangle,
                        lit.x as int,
                        lit.y as int,
                        positions,
                        positions.len(),
                    )
                }
        }),
    decreases count,
{
    if count > 0 {
        let before = tile_lit(triangles, bin, area, far, compare, positions, (count - 1) as nat);
        if i < before.len() {
            a_tile_shades_its_triangles(
                triangles,
                bin,
                area,
                far,
                compare,
                positions,
                (count - 1) as nat,
                i,
            );
        } else {
            let triangle = triangles[bin[count - 1] as int].setup;
            let part = common(triangle.bounds, area);
            a_listed_pixel_is_covered(
                bin[count - 1],
                triangle_mask(triangle, positions),
                part.x0 as int,
                part.x1 as int,
                part.y0 as int,
                part.y1 as int,
                i - before.len(),
            );
            assert(bin[count - 1] == bin[count - 1]);
        }
    }
}

/// No covered pixel of a triangle that is not hidden is left out of its tile.
pub proof fn a_tile_leaves_no_covered_pixel_out(
    triangles: Seq<Binned>,
    bin: Seq<u32>,
    area: PixelBox,
    far: u32,
    compare: CompareOp,
    positions: Seq<SamplePosition>,
    count: nat,
    k: int,
    x: int,
    y: int,
)
    requires
        0 <= k < count <= bin.len(),
        !hidden(triangles[bin[k] as int].setup, far, compare),
        is_lit(triangles[bin[k] as int].setup, area, positions, x, y),
    ensures
        tile_lit(triangles, bin, area, far, compare, positions, count).contains(
            Lit {
                primitive: bin[k],
                x: x as i64,
                y: y as i64,
                coverage: covered_mask(triangles[bin[k] as int].setup, x, y, positions, positions.len()),
            },
        ),
    decreases count,
{
    let triangle = triangles[bin[k] as int].setup;
    let lit = Lit {
        primitive: bin[k],
        x: x as i64,
        y: y as i64,
        coverage: covered_mask(triangle, x, y, positions, positions.len()),
    };
    let before = tile_lit(triangles, bin, area, far, compare, positions, (count - 1) as nat);
    let all = tile_lit(triangles, bin, area, far, compare, positions, count);
    if k < count - 1 {
        a_tile_leaves_no_covered_pixel_out(
            triangles,
            bin,
            area,
            far,
            compare,
            positions,
            (count - 1) as nat,
            k,
            x,
            y,
        );
        let i = choose|i: int| 0 <= i < before.len() && before[i] == lit;
        assert(all[i] == lit);
    } else {
        let part = common(triangle.bounds, area);
        let rows = rows_lit(
            bin[k],
            triangle_mask(triangle, positions),
            part.x0 as int,
            part.x1 as int,
            part.y0 as int,
            part.y1 as int,
        );
        every_covered_pixel_is_listed(
            bin[k],
            triangle_mask(triangle, positions),
            part.x0 as int,
            part.x1 as int,
            part.y0 as int,
            part.y1 as int,
            x,
            y,
        );
        let i = choose|i: int| 0 <= i < rows.len() && rows[i] == lit;
        assert(all[before.len() + i] == lit);
    }
}

/// A pass shades the pixels that are in the target and in its scissor.
pub proof fn a_scissor_holds_by_pixel(scissor: Option<Scissor>, width: u32, height: u32, x: int, y: int)
    ensures
        ({
            let area = shadeable(scissor, width, height);
            (area.x0 <= x < area.x1 && area.y0 <= y < area.y1) <==> 0 <= x < width && 0 <= y < height && (
            scissor matches Some(held) ==> held.x <= x < held.x + held.width && held.y <= y < held.y + held.height)
        }),
{
}

/// A tile's list of triangles is those whose box shares a pixel's tile with it, each once and in order.
pub proof fn a_bin_lists_what_touches_it(triangles: Seq<Binned>, x: int, y: int, count: nat, k: int)
    requires
        count <= triangles.len() <= u32::MAX,
        0 <= k < count,
        0 <= x && 0 <= y,
    ensures
        ({
            let bounds = triangles[k].setup.bounds;
            let shares = exists|u: int, v: int|
                #![trigger bounds.has(u, v)]
                bounds.has(u, v) && u / 32 == x && v / 32 == y;
            0 <= bounds.x0 && 0 <= bounds.y0 ==> (touching(triangles, x, y, count).contains(k as u32) <==> shares)
        }),
        forall|i: int, j: int|
            0 <= i < j < touching(triangles, x, y, count).len() ==> #[trigger] touching(triangles, x, y, count)[i]
                < #[trigger] touching(triangles, x, y, count)[j],
{
    let bounds = triangles[k].setup.bounds;
    a_bin_is_ascending(triangles, x, y, count);
    a_listed_triangle_touches(triangles, x, y, count, k);
    if 0 <= bounds.x0 && 0 <= bounds.y0 && !bounds.empty() {
        super::raster::binning_is_by_pixels(bounds.x0 as int, bounds.x1 as int, x);
        super::raster::binning_is_by_pixels(bounds.y0 as int, bounds.y1 as int, y);
        if bins_into(bounds.x0 as int, bounds.x1 as int, x) && bins_into(bounds.y0 as int, bounds.y1 as int, y) {
            let u = choose|p: int|
                bounds.x0 <= p < bounds.x1 && #[trigger] (p / super::raster::TILE as int) == x;
            let v = choose|p: int|
                bounds.y0 <= p < bounds.y1 && #[trigger] (p / super::raster::TILE as int) == y;
            assert(bounds.has(u, v) && u / 32 == x && v / 32 == y);
        }
        if exists|u: int, v: int|
            #![trigger bounds.has(u, v)]
            bounds.has(u, v) && u / 32 == x && v / 32 == y {
            let (u, v) = choose|u: int, v: int|
                #![trigger bounds.has(u, v)]
                bounds.has(u, v) && u / 32 == x && v / 32 == y;
            assert(u / super::raster::TILE as int == x && v / super::raster::TILE as int == y);
        }
    }
}

proof fn a_bin_is_ascending(triangles: Seq<Binned>, x: int, y: int, count: nat)
    requires
        count <= triangles.len() <= u32::MAX,
    ensures
        ({
            let bin = touching(triangles, x, y, count);
            &&& forall|i: int| 0 <= i < bin.len() ==> #[trigger] bin[i] < count
            &&& forall|i: int, j: int| 0 <= i < j < bin.len() ==> #[trigger] bin[i] < #[trigger] bin[j]
        }),
    decreases count,
{
    if count > 0 {
        a_bin_is_ascending(triangles, x, y, (count - 1) as nat);
        let before = touching(triangles, x, y, (count - 1) as nat);
        let bin = touching(triangles, x, y, count);
        assert forall|i: int| 0 <= i < bin.len() implies #[trigger] bin[i] < count by {
            if i < before.len() {
                assert(bin[i] == before[i]);
            }
        }
        assert forall|i: int, j: int| 0 <= i < j < bin.len() implies #[trigger] bin[i] < #[trigger] bin[j] by {
            assert(bin[i] == before[i]);
            if j < before.len() {
                assert(bin[j] == before[j]);
            }
        }
    }
}

proof fn a_listed_triangle_touches(triangles: Seq<Binned>, x: int, y: int, count: nat, k: int)
    requires
        count <= triangles.len() <= u32::MAX,
        0 <= k < count,
    ensures
        ({
            let bounds = triangles[k].setup.bounds;
            touching(triangles, x, y, count).contains(k as u32) <==> !bounds.empty() && bins_into(
                bounds.x0 as int,
                bounds.x1 as int,
                x,
            ) && bins_into(bounds.y0 as int, bounds.y1 as int, y)
        }),
    decreases count,
{
    let before = touching(triangles, x, y, (count - 1) as nat);
    let bin = touching(triangles, x, y, count);
    a_bin_is_ascending(triangles, x, y, (count - 1) as nat);
    if k < count - 1 {
        a_listed_triangle_touches(triangles, x, y, (count - 1) as nat, k);
        if before.contains(k as u32) {
            let i = choose|i: int| 0 <= i < before.len() && before[i] == k as u32;
            assert(bin[i] == k as u32);
        }
        if bin.contains(k as u32) {
            let i = choose|i: int| 0 <= i < bin.len() && bin[i] == k as u32;
            if i == before.len() {
                assert(bin[i] == (count - 1) as u32);
            }
            assert(before[i] == k as u32);
        }
    } else {
        if bin.contains(k as u32) {
            let i = choose|i: int| 0 <= i < bin.len() && bin[i] == k as u32;
            if i < before.len() {
                assert(before[i] < count - 1);
            }
        }
        if bin.len() > before.len() {
            assert(bin[before.len() as int] == k as u32);
        }
    }
}

/// The nearest of a triangle's depths is one of them and none is nearer.
pub proof fn the_nearest_is_nearest(depths: Seq<u32>, count: nat, i: int)
    requires
        0 <= i < count <= depths.len(),
        forall|k: int| 0 <= k < count ==> finite(#[trigger] depths[k]),
    ensures
        number(nearest_of(depths, count)) <= number(depths[i]),
        exists|k: int| 0 <= k < count && nearest_of(depths, count) == #[trigger] depths[k],
    decreases count,
{
    let held = nearest_of(depths, (count - 1) as nat);
    let last = depths[count - 1];
    assert(finite(last));
    a_nearest_is_a_number(depths, (count - 1) as nat);
    order_is_by_number(last, held);
    if count == 1 {
        assert(crate::bits::rank(last) < crate::bits::rank(0x7F80_0000));
    } else if i < count - 1 {
        the_nearest_is_nearest(depths, (count - 1) as nat, i);
    } else {
        the_nearest_is_nearest(depths, (count - 1) as nat, 0);
    }
    if !below(last, held) {
        let k = choose|k: int| 0 <= k < count - 1 && held == #[trigger] depths[k];
        assert(depths[k] == held);
    } else {
        assert(depths[count - 1] == nearest_of(depths, count));
    }
}

/// A hidden triangle is one all of whose corners are further than the tile's furthest depth, under a test that only lets
/// nearer fragments through.
pub proof fn a_hidden_triangle_is_behind(setup: Setup, far: u32, compare: CompareOp)
    requires
        !nan(far),
        forall|k: int| 0 <= k < 3 ==> finite(#[trigger] setup.depth@[k]),
    ensures
        hidden(setup, far, compare) <==> (compare is Less || compare is LessOrEqual) && forall|k: int|
            0 <= k < 3 ==> number(#[trigger] setup.depth@[k]) > number(far),
{
    the_nearest_is_nearest(setup.depth@, 3, 0);
    the_nearest_is_nearest(setup.depth@, 3, 1);
    the_nearest_is_nearest(setup.depth@, 3, 2);
    a_nearest_is_a_number(setup.depth@, 3);
    order_is_by_number(far, nearest_of(setup.depth@, 3));
    let k = choose|k: int| 0 <= k < 3 && nearest_of(setup.depth@, 3) == #[trigger] setup.depth@[k];
    assert(number(setup.depth@[k]) == number(nearest_of(setup.depth@, 3)));
}

// ---------------------------------------------------------------------------------------------
// Laws of what a fragment writes.
// ---------------------------------------------------------------------------------------------
proof fn the_first_colour_is_written(written: Seq<(u32, Val)>, attachment: int, from: nat)
    ensures
        match colour_written(written, attachment, from) {
            Some(value) => exists|i: int|
                from <= i < written.len() && (#[trigger] written[i]).0 == attachment && written[i].1@ == value && forall|
                    j: int,
                |
                    from <= j < i ==> (#[trigger] written[j]).0 != attachment,
            None => forall|i: int| from <= i < written.len() ==> (#[trigger] written[i]).0 != attachment,
        },
    decreases written.len() - from,
{
    if from < written.len() {
        the_first_colour_is_written(written, attachment, from + 1);
        if written[from as int].0 == attachment {
            assert(written[from as int].1@ == colour_written(written, attachment, from)->Some_0);
        } else if let Some(value) = colour_written(written, attachment, from + 1) {
            let i = choose|i: int|
                from + 1 <= i < written.len() && (#[trigger] written[i]).0 == attachment && written[i].1@ == value
                    && forall|j: int| from + 1 <= j < i ==> (#[trigger] written[j]).0 != attachment;
            assert(written[i].0 == attachment);
        }
    }
}

/// What a fragment writes to a colour attachment is the first value its stage stored there, by its four components, and
/// nothing where it stored none.
pub proof fn a_colour_is_the_first_stored(outputs: Outputs, attachment: int, i: int)
    requires
        0 <= i < outputs.colour@.len(),
        outputs.colour@[i].0 == attachment,
        forall|j: int| 0 <= j < i ==> (#[trigger] outputs.colour@[j]).0 != attachment,
        outputs.colour@[i].1@.words.len() == 4,
    ensures
        ({
            let words = outputs.colour@[i].1@.words;
            value_for(outputs, false, attachment) == Some(Value::Colour(words[0], words[1], words[2], words[3]))
        }),
{
    the_first_colour_is_found(outputs.colour@, attachment, 0, i);
}

proof fn the_first_colour_is_found(written: Seq<(u32, Val)>, attachment: int, from: nat, i: int)
    requires
        from <= i < written.len(),
        written[i].0 == attachment,
        forall|j: int| from <= j < i ==> (#[trigger] written[j]).0 != attachment,
    ensures
        colour_written(written, attachment, from) == Some(written[i].1@),
    decreases i - from,
{
    if from < i {
        assert(written[from as int].0 != attachment);
        the_first_colour_is_found(written, attachment, from + 1, i);
    }
}

/// A colour attachment nothing was stored to is left alone; an identity attachment is written in any case, with the first
/// identity stored to it, or none.
pub proof fn an_attachment_is_written_or_left_alone(outputs: Outputs, attachment: int)
    ensures
        (forall|j: int| 0 <= j < outputs.colour@.len() ==> (#[trigger] outputs.colour@[j]).0 != attachment)
            ==> value_for(outputs, false, attachment) is None,
        value_for(outputs, true, attachment) matches Some(Value::Identity(identity)) && {
            ||| identity == 0 && forall|j: int|
                0 <= j < outputs.integer@.len() ==> (#[trigger] outputs.integer@[j]).0 != attachment
            ||| exists|i: int|
                0 <= i < outputs.integer@.len() && (#[trigger] outputs.integer@[i]) == (attachment as u32, identity)
                    && attachment == attachment as u32 && forall|j: int|
                    0 <= j < i ==> (#[trigger] outputs.integer@[j]).0 != attachment
        },
{
    the_first_colour_is_written(outputs.colour@, attachment, 0);
    the_first_identity_is_written(outputs.integer@, attachment, 0);
}

proof fn the_first_identity_is_written(written: Seq<(u32, u32)>, attachment: int, from: nat)
    ensures
        ({
            let identity = identity_written(written, attachment, from);
            ||| identity == 0 && forall|j: int| from <= j < written.len() ==> (#[trigger] written[j]).0 != attachment
            ||| exists|i: int|
                from <= i < written.len() && (#[trigger] written[i]) == (attachment as u32, identity) && attachment
                    == attachment as u32 && forall|j: int| from <= j < i ==> (#[trigger] written[j]).0 != attachment
        }),
    decreases written.len() - from,
{
    if from < written.len() {
        the_first_identity_is_written(written, attachment, from + 1);
        let identity = identity_written(written, attachment, from);
        if written[from as int].0 == attachment {
            assert(written[from as int] == (attachment as u32, identity));
        } else if exists|i: int|
            from + 1 <= i < written.len() && (#[trigger] written[i]) == (attachment as u32, identity) && attachment
                == attachment as u32 && forall|j: int|
                from + 1 <= j < i ==> (#[trigger] written[j]).0 != attachment {
            let i = choose|i: int|
                from + 1 <= i < written.len() && (#[trigger] written[i]) == (attachment as u32, identity) && attachment
                    == attachment as u32 && forall|j: int|
                    from + 1 <= j < i ==> (#[trigger] written[j]).0 != attachment;
            assert(written[i] == (attachment as u32, identity));
        }
    }
}

/// A write is for its own attachment, with that attachment's blend state, the samples both masks keep, and coverage
/// narrowed by alpha for a colour alone.
pub proof fn a_write_has_its_own_state(integer: Seq<bool>, outputs: Outputs, pipeline: Pipeline, count: nat, i: int)
    requires
        count <= integer.len(),
        integer.len() <= usize::MAX,
        0 <= i < writes(integer, outputs, pipeline, count).len(),
    ensures
        ({
            let write = writes(integer, outputs, pipeline, count)[i];
            let attachment = write.attachment as int;
            &&& attachment < count
            &&& value_for(outputs, integer[attachment], attachment) == Some(write.value)
            &&& write.blend == pipeline.blend@[attachment]
            &&& outputs.sample_mask is None ==> write.sample_mask == pipeline.sample_mask
            &&& outputs.sample_mask matches Some(mask) ==> write.sample_mask == mask & pipeline.sample_mask
            &&& write.alpha_to_coverage == (pipeline.alpha_to_coverage && !integer[attachment])
        }),
    decreases count,
{
    if count > 0 {
        let before = writes(integer, outputs, pipeline, (count - 1) as nat);
        if i < before.len() {
            a_write_has_its_own_state(integer, outputs, pipeline, (count - 1) as nat, i);
        } else {
            let mask = pipeline.sample_mask;
            assert(0xffff_ffffu32 & mask == mask) by (bit_vector);
        }
    }
}

/// Every attachment a fragment has a value for is written.
pub proof fn every_value_is_written(integer: Seq<bool>, outputs: Outputs, pipeline: Pipeline, count: nat, attachment: int)
    requires
        0 <= attachment < count <= integer.len(),
        integer.len() <= usize::MAX,
        value_for(outputs, integer[attachment], attachment) is Some,
    ensures
        exists|i: int|
            0 <= i < writes(integer, outputs, pipeline, count).len() && (#[trigger] writes(
                integer,
                outputs,
                pipeline,
                count,
            )[i]).attachment == attachment,
    decreases count,
{
    let before = writes(integer, outputs, pipeline, (count - 1) as nat);
    let list = writes(integer, outputs, pipeline, count);
    if attachment < count - 1 {
        every_value_is_written(integer, outputs, pipeline, (count - 1) as nat, attachment);
        let i = choose|i: int| 0 <= i < before.len() && (#[trigger] before[i]).attachment == attachment;
        assert(list[i].attachment == attachment);
    } else {
        assert(list[before.len() as int].attachment == attachment);
    }
}

/// A point lights exactly the samples in its square: a bit of its mask is that of a sample no further from the centre
/// than half the size along both axes, the near edges with it and the far ones without.
pub proof fn a_point_lights_its_square(
    middle: (Subpixel, Subpixel),
    size: u32,
    x: int,
    y: int,
    positions: Seq<SamplePosition>,
    count: nat,
    index: u32,
)
    requires
        count <= positions.len(),
        positions_usable(positions),
        index < 32,
    ensures
        super::raster::bit(point_covered(middle, size, x, y, positions, count), index) <==> exists|k: int|
            0 <= k < count && (#[trigger] positions[k]).index == index && {
                let (u, v) = (256 * x + positions[k].x - middle.0.0, 256 * y + positions[k].y - middle.1.0);
                -128 * size <= u < 128 * size && -128 * size <= v < 128 * size
            },
    decreases count,
{
    if count == 0 {
        super::raster::setting_a_bit(0, 0, index);
    } else {
        a_point_lights_its_square(middle, size, x, y, positions, (count - 1) as nat, index);
        let last = positions[count - 1];
        let before = point_covered(middle, size, x, y, positions, (count - 1) as nat);
        super::raster::setting_a_bit(before, last.index, index);
        if super::raster::bit(before, index) {
            let k = choose|k: int|
                0 <= k < count - 1 && (#[trigger] positions[k]).index == index && {
                    let (u, v) = (256 * x + positions[k].x - middle.0.0, 256 * y + positions[k].y - middle.1.0);
                    -128 * size <= u < 128 * size && -128 * size <= v < 128 * size
                };
            assert(positions[k].index == index);
        }
    }
}


/// A position projects where every coordinate of it is a finite number and it is before the eye; one that is not finite
/// is told from one that is behind.
pub proof fn a_position_before_the_eye_projects(position: Seq<u32>)
    ensures
        projection_refusal(position) is None <==> finite(position[0]) && finite(position[1]) && finite(position[2])
            && finite(position[3]) && number(position[3]) > 0,
        projection_refusal(position) == Some(Error::InvalidTransform) ==> finite(position[0]) && finite(position[1])
            && finite(position[2]) && finite(position[3]) && number(position[3]) <= 0,
{
    assert(number(0) == 0);
    if finite(position[3]) {
        order_is_by_number(0, position[3]);
    }
}

/// Full coverage has the bit of each sample, and no other.
pub proof fn full_coverage_is_every_sample(samples: u32, sample: u32)
    requires
        samples < 32,
        sample < 32,
    ensures
        super::raster::bit(every_sample(samples), sample) <==> sample < samples,
{
    assert((1u32 << samples) >= 1 && ((((1u32 << samples) - 1) as u32) & (1u32 << sample) != 0 <==> sample < samples))
        by (bit_vector)
        requires
            samples < 32,
            sample < 32,
    ;
}

/// A line lights the first sample of each pixel whose diamond it leaves, and nothing of any other.
pub proof fn a_line_lights_the_diamonds_it_leaves(
    from: (Subpixel, Subpixel),
    to: (Subpixel, Subpixel),
    x: int,
    y: int,
    sample: u32,
)
    requires
        sample < 32,
    ensures
        super::raster::bit(line_mask(from, to)(x, y), sample) <==> sample == 0 && exits_diamond(from, to, x, y),
{
    super::raster::setting_a_bit(0, 0, sample);
    assert(0u32 | (1u32 << 0u32) == 1u32) by (bit_vector);
}

/// A depth is biased where either part of the bias is some number other than nothing.
pub proof fn a_bias_is_some_number(bias: (u32, u32, u32))
    requires
        !nan(bias.0) && !nan(bias.1),
    ensures
        biases(bias) <==> number(bias.0) != 0 || number(bias.1) != 0,
{
    assert(number(0) == 0);
    order_is_by_number(bias.0, 0);
    order_is_by_number(bias.1, 0);
}


/// The one sample of a centred pass is in the middle of its pixel, as far from each side as from the one across.
pub proof fn a_centred_sample_is_in_the_middle(positions: Seq<SamplePosition>, x: int, y: int)
    requires
        positions.len() == 1,
    ensures
        centred(positions) <==> {
            let (u, v) = sample_point(x, y, positions[0]);
            u - 256 * x == 256 * (x + 1) - u && v - 256 * y == 256 * (y + 1) - v
        },
        !centred(positions.push(positions[0])) && !centred(Seq::empty()),
{
}

/// A draw of which anything is rejected early keeps the depths its triangles have: no bias moves them and no statement
/// of its fragment stage stores another, and the pass has a depth attachment.
pub proof fn an_assured_draw_keeps_its_depths(pipeline: Pipeline, depth: Option<DepthFormat>, i: int)
    requires
        assured(pipeline, depth),
    ensures
        depth is Some,
        !nan(pipeline.bias.0) && number(pipeline.bias.0) == 0,
        !nan(pipeline.bias.1) && number(pipeline.bias.1) == 0,
        0 <= i < pipeline.fragment.body@.len() ==> !super::shader::statement_stores_depth(pipeline.fragment.body@[i]),
        pipeline.depth_compare is Less || pipeline.depth_compare is LessOrEqual,
{
    if !nan(pipeline.bias.0) && !nan(pipeline.bias.1) {
        a_bias_is_some_number(pipeline.bias);
    }
    if 0 <= i < pipeline.fragment.body@.len() {
        super::shader::a_depth_is_found_wherever_it_stands(pipeline.fragment.body@, i);
    }
}

/// A draw with a plain less-than test, no bias, no stencil and a fragment stage that stores no depth is assured in every
/// format of depth.
pub proof fn a_plain_draw_is_assured(pipeline: Pipeline, format: DepthFormat)
    requires
        pipeline.depth_compare is Less,
        pipeline.stencil is None,
        !nan(pipeline.bias.0) && number(pipeline.bias.0) == 0,
        !nan(pipeline.bias.1) && number(pipeline.bias.1) == 0,
        forall|i: int|
            0 <= i < pipeline.fragment.body@.len() ==> !super::shader::statement_stores_depth(
                #[trigger] pipeline.fragment.body@[i],
            ),
    ensures
        assured(pipeline, Some(format)),
{
    a_bias_is_some_number(pipeline.bias);
    if pipeline.fragment.body@.len() > 0 {
        super::shader::a_depth_is_found_wherever_it_stands(pipeline.fragment.body@, 0);
    }
}


/// What two boxes have in common are the pixels that are in both.
pub proof fn what_is_common_is_in_both(a: PixelBox, b: PixelBox, x: int, y: int)
    ensures
        common(a, b).has(x, y) <==> a.has(x, y) && b.has(x, y),
{
}

} // verus!
