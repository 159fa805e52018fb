//! Running a plan: the draws in order, each instance of one assembled, staged and shaded before the next.
//!
//! The stages and everything in floating point are the caller's work. Between two pieces of it the
//! execution says what is next; in every phase one kind of call is taken.
use super::clip::{Clipped, Varyings};
use super::error::Error;
use super::fixed::{point_on_grid, MAX_RASTER_EXTENT};
use super::frame::{
    attachments_refusal, check_attachments, check_draw, draw_mismatch, draw_refusal,
    Draw, Pipeline, Prepared, Stats,
};
use super::geometry;
use super::geometry::{assemble, draw_fault, stream, Indices, Primitive};
use super::interpreter::Outputs;
use super::pass::{furthest_in, furthest_of, Colour, DepthFormat, DepthStencil};
use super::raster::{tile_pixels, tiles_for, Bins, Cull, PixelBox, SamplePosition, Setup};
use super::shade;
use super::shade::{
    assured, centred, common, fan, is_assured, is_centred, line_area, line_mask, line_staged, placed, point_area, point_mask,
    positions_usable, row_lit, rows_lit, scissor_box, shadeable, tile_lit, touching,
    Binned, Dot, Lit, Projected, Scissor, Segment,
};
use crate::bits::{below, less};
use crate::grid::{cell, cell_is_stored, every_index_is_a_cell};
use vstd::prelude::*;

verus! {

/// The bit pattern of positive infinity: no depth is further.
pub const INFINITELY_FAR: u32 = 0x7F80_0000;

/// What an execution does next.
#[derive(Clone, Copy, PartialEq, Eq, Structural, Debug)]
pub enum Phase {
    /// A draw is to be checked against the pass.
    Draw,
    /// An instance of the draw is to be assembled.
    Instance,
    /// The primitives are to be staged, one after the other.
    Staging,
    /// The staged triangles are to be shaded, tile by tile.
    Tiles,
    /// The staged lines are to be shaded.
    Lines,
    /// The staged points are to be shaded.
    Points,
    /// Every draw is done.
    Finished,
}

/// A plan that is being run against the attachments of a pass.
#[derive(Debug)]
pub struct Execution {
    pub width: u32,
    pub height: u32,
    pub samples: u32,
    /// How many colour attachments the pass has.
    pub attachments: usize,
    /// How the pass stores depth, where it has a depth attachment.
    pub depth: Option<DepthFormat>,
    /// Whether no draw so far can have moved a stored depth back, so that the bounds of the tiles hold.
    pub nearing: bool,
    /// The pixels that may be shaded.
    pub held: PixelBox,
    pub stats: Stats,
    pub phase: Phase,
    pub draw: usize,
    pub instance: u32,
    /// The primitives of the instance.
    pub primitives: Vec<Primitive>,
    /// Which primitive, tile, line or point of the phase is next.
    pub next: usize,
    pub triangles: Vec<Binned>,
    pub segments: Vec<Segment>,
    pub points: Vec<Dot>,
    /// The vertices a strip or fan under assembly still needs.
    pub run: Vec<u32>,
}

/// What assembling an instance of a draw comes to.
pub open spec fn assembled(
    draw: Draw,
    indices: Indices<'_>,
    outcome: Result<(), Error>,
    primitives: Seq<Primitive>,
) -> bool {
    match draw_fault(draw.topology, indices, draw.count, draw.restart) {
        Some(fault) => outcome == Err::<(), Error>(fault) && primitives.len() == 0,
        None => match outcome {
            Ok(_) => {
                &&& forall|i: int|
                    0 <= i < draw.count ==> (#[trigger] indices.vertex_at(i, draw.base_vertex)) is Ok
                &&& geometry::assembled(
                    primitives,
                    draw.topology,
                    stream(indices, draw.count as nat, draw.base_vertex),
                )
            },
            Err(fault) => exists|i: int|
                {
                    &&& 0 <= i < draw.count
                    &&& #[trigger] indices.vertex_at(i, draw.base_vertex) == Err::<
                        Option<u32>,
                        Error,
                    >(fault)
                    &&& forall|j: int|
                        0 <= j < i ==> (#[trigger] indices.vertex_at(j, draw.base_vertex)) is Ok
                    &&& geometry::assembled(
                        primitives,
                        draw.topology,
                        stream(indices, i as nat, draw.base_vertex),
                    )
                },
        },
    }
}

/// Whether the bins hold the staged triangles, each in the tiles it touches.
pub open spec fn binned(bins: Bins, triangles: Seq<Binned>) -> bool {
    forall|x: int, y: int|
        0 <= x < bins.columns() && 0 <= y < bins.rows() ==> bins.bin(
            #[trigger] cell(x, y, bins.columns()),
        ) == touching(triangles, x, y, triangles.len())
}

/// Whether every bin is empty.
pub open spec fn unfilled(bins: Bins) -> bool {
    forall|i: int| 0 <= i < bins.columns() * bins.rows() ==> (#[trigger] bins.bin(i)).len() == 0
}

/// Whether the first `count` draws of a plan move no stored depth back: each writes no depth, or tests it
/// with a comparison that only admits nearer or equal ones.
pub open spec fn only_nearer(plan: Prepared, count: int) -> bool {
    forall|d: int|
        0 <= d < count ==> moves_none_back(plan.pipelines@[(#[trigger] plan.draws@[d]).pipeline as int])
}

/// Whether the draws of a pipeline move no stored depth back.
pub open spec fn moves_none_back(pipeline: Pipeline) -> bool {
    !pipeline.depth_write || pipeline.depth_compare.nears()
}

impl Execution {
    /// Whether a draw is under way.
    pub open spec fn drawing(self) -> bool {
        !(self.phase is Draw) && !(self.phase is Finished)
    }

    /// What every step keeps: the grid of the plan is the target's, the draw and the instance are ones the
    /// plan has, and everything staged is on the raster grid.
    pub open spec fn wf(self, plan: Prepared) -> bool {
        &&& plan.wf()
        &&& plan.bins.columns() == tiles_for(self.width)
        &&& plan.bins.rows() == tiles_for(self.height)
        &&& self.width <= MAX_RASTER_EXTENT
        &&& self.height <= MAX_RASTER_EXTENT
        &&& self.nearing == only_nearer(
            plan,
            self.draw + if self.drawing() {
                1int
            } else {
                0
            },
        )
        &&& 0 <= self.held.x0 && self.held.x1 <= self.width
        &&& 0 <= self.held.y0 && self.held.y1 <= self.height
        &&& self.draw <= plan.draws@.len()
        &&& self.phase is Finished ==> self.draw == plan.draws@.len()
        &&& self.drawing() ==> self.draw < plan.draws@.len() && self.instance
            < plan.draws@[self.draw as int].instances
        &&& forall|i: int|
            0 <= i < self.triangles@.len() ==> (#[trigger] self.triangles@[i]).setup.wf()
                && self.triangles@[i].setup.bounds.x1 <= self.width && self.triangles@[i].setup.bounds.y1
                <= self.height
        &&& forall|i: int|
            0 <= i < self.segments@.len() ==> point_on_grid((#[trigger] self.segments@[i]).from)
                && point_on_grid(self.segments@[i].to)
        &&& forall|i: int|
            0 <= i < self.points@.len() ==> point_on_grid((#[trigger] self.points@[i]).centre)
        &&& match self.phase {
            Phase::Staging => self.next <= self.primitives@.len() && unfilled(plan.bins),
            Phase::Tiles => self.next <= plan.bins.columns() * plan.bins.rows() && binned(
                plan.bins,
                self.triangles@,
            ) && self.triangles@.len() <= u32::MAX,
            Phase::Lines => self.next <= self.segments@.len(),
            Phase::Points => self.next <= self.points@.len(),
            _ => true,
        }
    }

    /// The pipeline of the draw that is under way.
    pub open spec fn pipeline(self, plan: Prepared) -> Pipeline {
        plan.pipelines@[plan.draws@[self.draw as int].pipeline as int]
    }

    /// How many things the phase has to go through.
    pub open spec fn due(self, plan: Prepared) -> int {
        match self.phase {
            Phase::Staging => self.primitives@.len() as int,
            Phase::Tiles => plan.bins.columns() * plan.bins.rows(),
            Phase::Lines => self.segments@.len() as int,
            Phase::Points => self.points@.len() as int,
            _ => 0,
        }
    }

    /// Start running a plan against the attachments of a pass.
    pub fn begin(
        plan: &mut Prepared,
        colour: &[Colour],
        depth_stencil: &Option<DepthStencil>,
        scissor: Option<Scissor>,
        ceiling: u32,
    ) -> (begun: Result<Execution, Error>)
        requires
            old(plan).wf(),
            colour@.len() > 0 ==> colour@[0].width <= MAX_RASTER_EXTENT && colour@[0].height
                <= MAX_RASTER_EXTENT,
        ensures
            final(plan).pipelines == old(plan).pipelines,
            final(plan).maps == old(plan).maps,
            final(plan).draws == old(plan).draws,
            match begun {
                Ok(run) => {
                    &&& attachments_refusal(colour@, *depth_stencil, ceiling) is None
                    &&& run.wf(*final(plan))
                    &&& run.width == colour@[0].width
                    &&& run.height == colour@[0].height
                    &&& run.samples == colour@[0].samples
                    &&& run.attachments == colour@.len()
                    &&& run.depth == (match *depth_stencil {
                        Some(buffer) => Some(buffer.format),
                        None => None,
                    })
                    &&& run.nearing
                    &&& run.held == shadeable(scissor, run.width, run.height)
                    &&& run.stats == (Stats {
                        primitives: 0,
                        clipped: 0,
                        culled: 0,
                        fragments: 0,
                        samples_written: 0,
                        discarded: 0,
                    })
                    &&& run.phase is Draw
                    &&& run.draw == 0
                    &&& run.instance == 0
                    &&& run.next == 0
                    &&& run.primitives@.len() == 0
                    &&& run.triangles@.len() == 0
                    &&& run.segments@.len() == 0
                    &&& run.points@.len() == 0
                    &&& unfilled(final(plan).bins)
                    &&& final(plan).bins.bounds() == Seq::new(
                        (tiles_for(run.width) * tiles_for(run.height)) as nat,
                        |i: int| crate::bits::ONE,
                    )
                },
                Err(error) => attachments_refusal(colour@, *depth_stencil, ceiling) == Some(error)
                    && *final(plan) == *old(plan),
            },
    {
        let (width, height, samples): (u32, u32, u32) = match check_attachments(colour, depth_stencil, ceiling) {
            Err(error) => {
                return Err(error);
            },
            Ok(shape) => shape,
        };
        proof {
            tiles_are_counted(width, height);
        }
        plan.bins.resize(width, height);
        plan.bins.reset_depth();
        let held = scissor_box(scissor, width, height);
        Ok(
            Execution {
                width,
                height,
                samples,
                attachments: colour.len(),
                depth: match depth_stencil {
                    Some(buffer) => Some(buffer.format),
                    None => None,
                },
                nearing: true,
                held,
                stats: Stats::new(),
                phase: Phase::Draw,
                draw: 0,
                instance: 0,
                primitives: Vec::new(),
                next: 0,
                triangles: Vec::new(),
                segments: Vec::new(),
                points: Vec::new(),
                run: Vec::new(),
            },
        )
    }

    /// Check the next draw against the pass; past the last one the execution is finished.
    pub fn start_draw(&mut self, plan: &Prepared) -> (outcome: Result<(), Error>)
        requires
            old(self).wf(*plan),
            old(self).phase is Draw,
        ensures
            final(self).wf(*plan),
            outcome is Ok ==> final(self).ahead(*old(self), *plan),
            if old(self).draw >= plan.draws@.len() {
                outcome is Ok && *final(self) == (Execution { phase: Phase::Finished, ..*old(self) })
            } else {
                match draw_mismatch(old(self).pipeline(*plan), old(self).samples, old(self).attachments as nat) {
                    Some(error) => outcome == Err::<(), Error>(error) && *final(self) == *old(self),
                    None => outcome is Ok && *final(self) == (Execution {
                        phase: Phase::Instance,
                        instance: 0,
                        nearing: old(self).nearing && moves_none_back(old(self).pipeline(*plan)),
                        ..*old(self)
                    }),
                }
            },
    {
        if self.draw >= plan.draws.len() {
            self.phase = Phase::Finished;
            return Ok(());
        }
        let draw = plan.draws[self.draw];
        assert(draw_refusal(plan.draws@[self.draw as int], plan.pipelines@.len()) is None);
        let pipeline = &plan.pipelines[draw.pipeline as usize];
        match check_draw(pipeline, self.samples, self.attachments) {
            Some(error) => Err(error),
            None => {
                self.nearing = self.nearing && (!pipeline.depth_write || pipeline.depth_compare.only_nears());
                self.instance = 0;
                self.phase = Phase::Instance;
                Ok(())
            },
        }
    }

    /// Which instance the vertex stage is told it shades.
    pub fn instance_index(&self, plan: &Prepared) -> (index: u32)
        requires
            self.wf(*plan),
            self.drawing(),
            plan.draws@[self.draw as int].first_instance + self.instance <= u32::MAX,
        ensures
            index == plan.draws@[self.draw as int].first_instance + self.instance,
    {
        plan.draws[self.draw].first_instance + self.instance
    }

    /// Assemble the instance: its primitives are to be staged, and nothing is staged yet.
    pub fn start_instance(&mut self, plan: &mut Prepared, indices: Indices<'_>) -> (outcome: Result<(), Error>)
        requires
            old(self).wf(*old(plan)),
            old(self).phase is Instance,
            old(self).stats.primitives + old(plan).draws@[old(self).draw as int].count <= u32::MAX,
        ensures
            final(plan).pipelines == old(plan).pipelines,
            final(plan).maps == old(plan).maps,
            final(plan).draws == old(plan).draws,
            final(plan).bins.bounds() == old(plan).bins.bounds(),
            final(self).wf(*final(plan)),
            assembled(
                old(plan).draws@[old(self).draw as int],
                indices,
                outcome,
                final(self).primitives@,
            ),
            final(self).same_pass(*old(self)),
            final(self).draw == old(self).draw,
            final(self).instance == old(self).instance,
            match outcome {
                Err(_) => *final(plan) == *old(plan) && *final(self) == (Execution {
                    primitives: final(self).primitives,
                    run: final(self).run,
                    ..*old(self)
                }),
                Ok(_) => {
                    &&& final(self).phase is Staging
                    &&& final(self).ahead(*old(self), *final(plan))
                    &&& final(self).next == 0
                    &&& final(self).triangles@.len() == 0
                    &&& final(self).segments@.len() == 0
                    &&& final(self).points@.len() == 0
                    &&& final(self).stats == (Stats {
                        primitives: (old(self).stats.primitives + final(self).primitives@.len()) as u32,
                        ..old(self).stats
                    })
                },
            },
    {
        let draw = plan.draws[self.draw];
        match assemble(
            draw.topology,
            indices,
            draw.count,
            draw.base_vertex,
            draw.restart,
            &mut self.primitives,
            &mut self.run,
        ) {
            Err(error) => {
                return Err(error);
            },
            Ok(_) => {},
        }
        self.stats.primitives = self.stats.primitives + self.primitives.len() as u32;
        plan.bins.clear();
        self.triangles.clear();
        self.segments.clear();
        self.points.clear();
        self.next = 0;
        self.phase = Phase::Staging;
        Ok(())
    }

    /// Whether two states are of one pass.
    pub open spec fn same_pass(self, other: Execution) -> bool {
        &&& self.width == other.width
        &&& self.height == other.height
        &&& self.samples == other.samples
        &&& self.attachments == other.attachments
        &&& self.depth == other.depth
        &&& self.nearing == other.nearing
        &&& self.held == other.held
    }

    /// The next primitive to stage.
    pub fn primitive(&self) -> (primitive: Option<Primitive>)
        ensures
            primitive == (if self.next < self.primitives@.len() {
                Some(self.primitives@[self.next as int])
            } else {
                None
            }),
    {
        if self.next < self.primitives.len() {
            Some(self.primitives[self.next])
        } else {
            None
        }
    }

    /// Whether the execution stands at a primitive to stage.
    pub open spec fn at_primitive(self) -> bool {
        self.phase is Staging && self.next < self.primitives@.len()
    }

    fn after_this(&self) -> (after: usize)
        requires
            self.next < self.primitives@.len(),
        ensures
            after == self.next + 1,
    {
        let count: usize = self.primitives.len();
        assert(self.next < count);
        self.next + 1
    }

    /// Stage the triangle that is next, clipped and projected.
    pub fn stage_triangle(
        &mut self,
        plan: &Prepared,
        clipped: &Clipped,
        projected: &[Result<Projected, Error>],
    ) -> (outcome: Result<(), Error>)
        requires
            old(self).wf(*plan),
            old(self).at_primitive(),
            projected@.len() == clipped.vertices@.len(),
            old(self).stats.culled + clipped.vertices@.len() < u32::MAX,
            old(self).stats.clipped < u32::MAX,
        ensures
            final(self).wf(*plan),
            final(self).ahead(*old(self), *plan),
            ({
                let whole = fan(
                    *clipped,
                    projected@,
                    old(self).pipeline(*plan).state.cull,
                    old(self).width,
                    old(self).height,
                    clipped.triangles() as nat,
                );
                &&& match outcome {
                    Ok(_) => whole.fault is None,
                    Err(error) => whole.fault == Some(error),
                }
                &&& final(self).triangles@ == old(self).triangles@ + whole.staged
                &&& final(self).stats == (Stats {
                    culled: (old(self).stats.culled + whole.culled + (if clipped.vertices@.len() == 0 {
                        1int
                    } else {
                        0
                    })) as u32,
                    clipped: (old(self).stats.clipped + (if clipped.vertices@.len() > 3 {
                        1int
                    } else {
                        0
                    })) as u32,
                    ..old(self).stats
                })
            }),
            *final(self) == (Execution {
                triangles: final(self).triangles,
                stats: final(self).stats,
                next: (old(self).next + 1) as usize,
                ..*old(self)
            }),
    {
        let draw = plan.draws[self.draw];
        assert(draw_refusal(plan.draws@[self.draw as int], plan.pipelines@.len()) is None);
        let cull = plan.pipelines[draw.pipeline as usize].state.cull;
        let after: usize = self.after_this();
        let outcome = shade::stage_triangle(
            clipped,
            projected,
            cull,
            self.width,
            self.height,
            &mut self.triangles,
            &mut self.stats,
        );
        self.next = after;
        proof {
            let count = clipped.triangles() as nat;
            let whole = fan(*clipped, projected@, cull, self.width, self.height, count);
            assert forall|i: int| 0 <= i < self.triangles@.len() implies (#[trigger] self.triangles@[i]).setup.bounds.x1
                <= self.width && self.triangles@[i].setup.bounds.y1 <= self.height by {
                if i < old(self).triangles@.len() {
                    assert(self.triangles@[i] == old(self).triangles@[i]);
                } else {
                    a_staged_triangle_is_in_the_target(
                        *clipped,
                        projected@,
                        cull,
                        self.width,
                        self.height,
                        count,
                        i - old(self).triangles@.len(),
                    );
                }
            }
        }
        outcome
    }

    /// Stage the line that is next, clipped and projected.
    pub fn stage_line(
        &mut self,
        plan: &Prepared,
        clipped: &Clipped,
        projected: &[Result<Projected, Error>],
    ) -> (outcome: Result<(), Error>)
        requires
            old(self).wf(*plan),
            old(self).at_primitive(),
            projected@.len() == clipped.vertices@.len(),
            old(self).stats.culled < u32::MAX,
        ensures
            final(self).wf(*plan),
            final(self).ahead(*old(self), *plan),
            match line_staged(*clipped, projected@) {
                Err(error) => outcome == Err::<(), Error>(error) && final(self).segments@ == old(
                    self,
                ).segments@ && final(self).stats == old(self).stats,
                Ok(None) => outcome is Ok && final(self).segments@ == old(self).segments@
                    && final(self).stats == (Stats {
                    culled: (old(self).stats.culled + 1) as u32,
                    ..old(self).stats
                }),
                Ok(Some(segment)) => outcome is Ok && final(self).segments@ == old(self).segments@.push(
                    segment,
                ) && final(self).stats == old(self).stats,
            },
            *final(self) == (Execution {
                segments: final(self).segments,
                stats: final(self).stats,
                next: (old(self).next + 1) as usize,
                ..*old(self)
            }),
    {
        let after: usize = self.after_this();
        let outcome = shade::stage_line(clipped, projected, &mut self.segments, &mut self.stats);
        self.next = after;
        outcome
    }

    /// Stage the point that is next. `inside` is whether its centre is in the clip volume.
    pub fn stage_point(
        &mut self,
        plan: &Prepared,
        inside: bool,
        projected: Result<Projected, Error>,
        size: u32,
        smooth: Varyings,
        noperspective: Varyings,
        flat: Varyings,
    ) -> (outcome: Result<(), Error>)
        requires
            old(self).wf(*plan),
            old(self).at_primitive(),
            old(self).stats.culled < u32::MAX,
        ensures
            final(self).wf(*plan),
            final(self).ahead(*old(self), *plan),
            if !inside {
                outcome is Ok && final(self).points@ == old(self).points@ && final(self).stats == (Stats {
                    culled: (old(self).stats.culled + 1) as u32,
                    ..old(self).stats
                })
            } else {
                final(self).stats == old(self).stats && match projected {
                    Err(error) => outcome == Err::<(), Error>(error) && final(self).points@ == old(
                        self,
                    ).points@,
                    Ok(vertex) => match placed(vertex) {
                        Err(error) => outcome == Err::<(), Error>(error) && final(self).points@ == old(
                            self,
                        ).points@,
                        Ok(centre) => {
                            &&& outcome is Ok
                            &&& final(self).points@ == old(self).points@.push(
                                (Dot { centre, size, depth: vertex.depth, smooth, noperspective, flat }),
                            )
                        },
                    },
                }
            },
            *final(self) == (Execution {
                points: final(self).points,
                stats: final(self).stats,
                next: (old(self).next + 1) as usize,
                ..*old(self)
            }),
    {
        let after: usize = self.after_this();
        let outcome = shade::stage_point(
            inside,
            projected,
            size,
            smooth,
            noperspective,
            flat,
            &mut self.points,
            &mut self.stats,
        );
        self.next = after;
        proof {
            assert forall|i: int| 0 <= i < self.points@.len() implies point_on_grid(
                (#[trigger] self.points@[i]).centre,
            ) by {
                if i < old(self).points@.len() {
                    assert(self.points@[i] == old(self).points@[i]);
                }
            }
        }
        outcome
    }

    /// Go on from staging to shading: every staged triangle goes into the bins of the tiles it touches.
    pub fn start_shading(&mut self, plan: &mut Prepared)
        requires
            old(self).wf(*old(plan)),
            old(self).phase is Staging,
            old(self).next == old(self).primitives@.len(),
            old(self).triangles@.len() <= u32::MAX,
        ensures
            final(plan).pipelines == old(plan).pipelines,
            final(plan).maps == old(plan).maps,
            final(plan).draws == old(plan).draws,
            final(plan).bins.bounds() == old(plan).bins.bounds(),
            final(self).wf(*final(plan)),
            final(self).ahead(*old(self), *final(plan)),
            *final(self) == (Execution { phase: Phase::Tiles, next: 0, ..*old(self) }),
    {
        shade::bin_triangles(&mut plan.bins, self.triangles.as_slice());
        proof {
            let (columns, rows) = (plan.bins.columns(), plan.bins.rows());
            assert forall|x: int, y: int| 0 <= x < columns && 0 <= y < rows implies plan.bins.bin(
                #[trigger] cell(x, y, columns),
            ) == touching(self.triangles@, x, y, self.triangles@.len()) by {
                cell_is_stored(x, y, columns, rows);
                let before = old(plan).bins.bin(cell(x, y, columns));
                let all = touching(self.triangles@, x, y, self.triangles@.len());
                assert(before + all =~= all);
            }
            assert(0 <= columns * rows) by (nonlinear_arith)
                requires
                    columns > 0,
                    rows > 0,
            ;
        }
        self.next = 0;
        self.phase = Phase::Tiles;
    }

    /// The tile that is next.
    pub open spec fn tile(self, plan: Prepared) -> (int, int) {
        (self.next as int % plan.bins.columns(), self.next as int / plan.bins.columns())
    }

    /// The depth behind which a triangle is rejected from the next tile: the tile's bound where it has moved
    /// and the depth test is assured to refuse everything behind it, and nothing otherwise.
    pub open spec fn reject_beyond(self, plan: Prepared, positions: Seq<SamplePosition>) -> u32 {
        let far = far_of(plan.bins, self.next as int);
        if self.nearing && below(far, crate::bits::ONE) && centred(positions) && assured(
            self.pipeline(plan),
            self.depth,
        ) {
            far
        } else {
            INFINITELY_FAR
        }
    }

    /// The pixels the next tile, line or point shades, in the order they are shaded.
    pub open spec fn lit(self, plan: Prepared, positions: Seq<SamplePosition>) -> Seq<Lit> {
        match self.phase {
            Phase::Tiles => {
                let (x, y) = self.tile(plan);
                let bin = touching(self.triangles@, x, y, self.triangles@.len());
                tile_lit(
                    self.triangles@,
                    bin,
                    common(tile_pixels(x, y).clamp(self.width, self.height), self.held),
                    self.reject_beyond(plan, positions),
                    self.pipeline(plan).depth_compare,
                    positions,
                    bin.len(),
                )
            },
            Phase::Lines => {
                let segment = self.segments@[self.next as int];
                let area = line_area(segment.from, segment.to, self.held);
                rows_lit(
                    self.next as u32,
                    line_mask(segment.from, segment.to),
                    area.x0 as int,
                    area.x1 as int,
                    area.y0 as int,
                    area.y1 as int,
                )
            },
            Phase::Points => {
                let dot = self.points@[self.next as int];
                let area = point_area(dot.centre, dot.size, self.held);
                rows_lit(
                    self.next as u32,
                    point_mask(dot.centre, dot.size, positions),
                    area.x0 as int,
                    area.x1 as int,
                    area.y0 as int,
                    area.y1 as int,
                )
            },
            _ => Seq::empty(),
        }
    }

    /// Whether the phase still has something to go through.
    pub fn pending(&self, plan: &Prepared) -> (more: bool)
        requires
            self.wf(*plan),
        ensures
            more == (self.next < self.due(*plan)),
    {
        match self.phase {
            Phase::Staging => self.next < self.primitives.len(),
            Phase::Tiles => {
                let count: usize = self.tile_total(plan);
                self.next < count
            },
            Phase::Lines => self.next < self.segments.len(),
            Phase::Points => self.next < self.points.len(),
            _ => false,
        }
    }

    fn tile_total(&self, plan: &Prepared) -> (count: usize)
        requires
            self.wf(*plan),
        ensures
            count == plan.bins.columns() * plan.bins.rows(),
            count > 0,
    {
        proof {
            tiles_are_counted(self.width, self.height);
        }
        plan.bins.across() as usize * plan.bins.down() as usize
    }

    /// The pixels the next tile, line or point shades.
    pub fn fragments(&self, plan: &Prepared, positions: &[SamplePosition]) -> (fragments: Vec<Lit>)
        requires
            self.wf(*plan),
            self.phase is Tiles || self.phase is Lines || self.phase is Points,
            self.next < self.due(*plan),
            self.next <= u32::MAX,
            positions_usable(positions@),
        ensures
            fragments@ == self.lit(*plan, positions@),
    {
        match self.phase {
            Phase::Tiles => {
                let across: u32 = plan.bins.across();
                let x: u32 = (self.next % across as usize) as u32;
                let y: u32 = (self.next / across as usize) as u32;
                let ghost (columns, rows) = (plan.bins.columns(), plan.bins.rows());
                proof {
                    tiles_are_counted(self.width, self.height);
                    every_index_is_a_cell(self.next as int, columns, rows);
                }
                let draw = plan.draws[self.draw];
                assert(draw_refusal(plan.draws@[self.draw as int], plan.pipelines@.len()) is None);
                let pipeline = &plan.pipelines[draw.pipeline as usize];
                let compare = pipeline.depth_compare;
                let area = plan.bins.tile_box(x, y, self.width, self.height);
                let bin = plan.bins.tile(x, y);
                assert(cell(x as int, y as int, columns) == self.next);
                assert(bin@ == touching(self.triangles@, x as int, y as int, self.triangles@.len()));
                proof {
                    assert forall|i: int| 0 <= i < bin@.len() implies (#[trigger] bin@[i])
                        < self.triangles@.len() by {
                        a_bin_names_triangles(self.triangles@, x as int, y as int, self.triangles@.len(), i);
                    }
                }
                let far: u32 = plan.bins.tile_far(x, y);
                let sure = self.nearing && less(far, crate::bits::ONE) && is_centred(positions) && is_assured(
                    pipeline,
                    self.depth,
                );
                let beyond: u32 = if sure {
                    far
                } else {
                    INFINITELY_FAR
                };
                shade::shade_tile(
                    self.triangles.as_slice(),
                    bin,
                    &area,
                    &self.held,
                    beyond,
                    compare,
                    positions,
                )
            },
            Phase::Lines => shade::line_fragments(self.next as u32, &self.segments[self.next], &self.held),
            _ => {
                let dot = self.points[self.next];
                shade::point_fragments(self.next as u32, dot.centre, dot.size, &self.held, positions)
            },
        }
    }

    /// Leave the tile whose fragments are shaded. Where the draw writes depth and any fragment was shaded,
    /// the bound of the tile moves to the furthest of the depths read back from it; `readings` is empty of a
    /// pass without a depth attachment.
    pub fn close_tile(&mut self, plan: &mut Prepared, shaded: bool, readings: &Option<Vec<u32>>)
        requires
            old(self).wf(*old(plan)),
            old(self).phase is Tiles,
            old(self).next < old(self).due(*old(plan)),
        ensures
            final(plan).pipelines == old(plan).pipelines,
            final(plan).maps == old(plan).maps,
            final(plan).draws == old(plan).draws,
            final(plan).bins.bounds() == (match *readings {
                Some(depths) => {
                    let furthest = furthest_of(depths@, depths@.len());
                    let next = old(self).next as int;
                    if old(self).pipeline(*old(plan)).depth_write && shaded && next < old(
                        plan,
                    ).bins.bounds().len() && below(furthest, old(plan).bins.bounds()[next]) {
                        old(plan).bins.bounds().update(next, furthest)
                    } else {
                        old(plan).bins.bounds()
                    }
                },
                None => old(plan).bins.bounds(),
            }),
            final(self).wf(*final(plan)),
            final(self).ahead(*old(self), *final(plan)),
            *final(self) == (Execution { next: (old(self).next + 1) as usize, ..*old(self) }),
    {
        let draw = plan.draws[self.draw];
        assert(draw_refusal(plan.draws@[self.draw as int], plan.pipelines@.len()) is None);
        let writes = plan.pipelines[draw.pipeline as usize].depth_write;
        let count: usize = self.tile_total(plan);
        assert(self.next < count);
        if let Some(depths) = readings {
            if writes && shaded {
                let across: u32 = plan.bins.across();
                let x: u32 = (self.next % across as usize) as u32;
                let y: u32 = (self.next / across as usize) as u32;
                let ghost (columns, rows) = (plan.bins.columns(), plan.bins.rows());
                proof {
                    tiles_are_counted(self.width, self.height);
                    every_index_is_a_cell(self.next as int, columns, rows);
                }
                let furthest: u32 = furthest_in(depths.as_slice());
                let ghost before = plan.bins;
                plan.bins.narrow_tile_far(x, y, furthest);
                proof {
                    assert forall|u: int, v: int| 0 <= u < columns && 0 <= v < rows implies plan.bins.bin(
                        #[trigger] cell(u, v, columns),
                    ) == touching(self.triangles@, u, v, self.triangles@.len()) by {
                        cell_is_stored(u, v, columns, rows);
                        before.a_bound_per_tile();
                        assert(before.bin(cell(u, v, columns)) == touching(
                            self.triangles@,
                            u,
                            v,
                            self.triangles@.len(),
                        ));
                    }
                }
            }
        }
        self.next = self.next + 1;
    }

    /// Leave the line or the point whose fragments are shaded.
    pub fn close_primitive(&mut self, plan: &Prepared)
        requires
            old(self).wf(*plan),
            old(self).phase is Lines || old(self).phase is Points,
            old(self).next < old(self).due(*plan),
        ensures
            final(self).wf(*plan),
            final(self).ahead(*old(self), *plan),
            *final(self) == (Execution { next: (old(self).next + 1) as usize, ..*old(self) }),
    {
        let (lines, points): (usize, usize) = (self.segments.len(), self.points.len());
        assert(self.next < lines || self.next < points);
        self.next = self.next + 1;
    }

    /// Go on where a phase of shading is through: from the tiles to the lines, from the lines to the points,
    /// and from the points to the next instance, or to the next draw after the last one.
    pub fn leave(&mut self, plan: &Prepared)
        requires
            old(self).wf(*plan),
            old(self).phase is Tiles || old(self).phase is Lines || old(self).phase is Points,
            old(self).next == old(self).due(*plan),
        ensures
            final(self).wf(*plan),
            final(self).ahead(*old(self), *plan),
            *final(self) == (match old(self).phase {
                Phase::Tiles => Execution { phase: Phase::Lines, next: 0, ..*old(self) },
                Phase::Lines => Execution { phase: Phase::Points, next: 0, ..*old(self) },
                _ => if old(self).instance + 1 < plan.draws@[old(self).draw as int].instances {
                    Execution {
                        phase: Phase::Instance,
                        instance: (old(self).instance + 1) as u32,
                        ..*old(self)
                    }
                } else {
                    Execution { phase: Phase::Draw, draw: (old(self).draw + 1) as usize, ..*old(self) }
                },
            }),
    {
        match self.phase {
            Phase::Tiles => {
                self.next = 0;
                self.phase = Phase::Lines;
            },
            Phase::Lines => {
                self.next = 0;
                self.phase = Phase::Points;
            },
            _ => {
                let count: usize = plan.draws.len();
                assert(self.draw < count);
                if self.instance + 1 < plan.draws[self.draw].instances {
                    self.instance = self.instance + 1;
                    self.phase = Phase::Instance;
                } else {
                    self.draw = self.draw + 1;
                    self.phase = Phase::Draw;
                }
            },
        }
    }

    /// Count a shaded fragment; see `shade::finish_fragment`.
    pub fn finish_fragment(&mut self, outputs: &Outputs, depth: u32) -> (kept: Option<u32>)
        requires
            old(self).stats.fragments < u32::MAX,
            old(self).stats.discarded < u32::MAX,
        ensures
            kept == (if outputs.discarded {
                None
            } else {
                match outputs.depth {
                    Some(written) => Some(written),
                    None => Some(depth),
                }
            }),
            *final(self) == (Execution {
                stats: Stats {
                    fragments: (old(self).stats.fragments + 1) as u32,
                    discarded: (old(self).stats.discarded + (if outputs.discarded {
                        1int
                    } else {
                        0
                    })) as u32,
                    ..old(self).stats
                },
                ..*old(self)
            }),
    {
        shade::finish_fragment(outputs, depth, &mut self.stats)
    }

    /// Count the samples a write changed.
    pub fn wrote(&mut self, samples: u32)
        requires
            old(self).stats.samples_written + samples <= u32::MAX,
        ensures
            *final(self) == (Execution {
                stats: Stats {
                    samples_written: (old(self).stats.samples_written + samples) as u32,
                    ..old(self).stats
                },
                ..*old(self)
            }),
    {
        self.stats.samples_written = self.stats.samples_written + samples;
    }

    /// Where a phase stands in the run of an instance.
    pub open spec fn rank(self) -> int {
        match self.phase {
            Phase::Draw => 0,
            Phase::Instance => 1,
            Phase::Staging => 2,
            Phase::Tiles => 3,
            Phase::Lines => 4,
            Phase::Points => 5,
            Phase::Finished => 6,
        }
    }

    /// How many instances of the draw are not done, and one more before the draw is checked.
    pub open spec fn instances_left(self, plan: Prepared) -> int {
        if self.draw >= plan.draws@.len() {
            0
        } else if self.phase is Draw {
            plan.draws@[self.draw as int].instances + 1
        } else {
            plan.draws@[self.draw as int].instances - self.instance
        }
    }

    /// Whether this state is reached from another by a step: in a later draw, a later instance of the same
    /// draw, a later phase of the same instance, or further on in the same phase.
    pub open spec fn ahead(self, other: Execution, plan: Prepared) -> bool {
        ||| self.draw > other.draw
        ||| self.draw == other.draw && self.instances_left(plan) < other.instances_left(plan)
        ||| self.draw == other.draw && self.instances_left(plan) == other.instances_left(plan)
            && self.rank() > other.rank()
        ||| self.draw == other.draw && self.instances_left(plan) == other.instances_left(plan)
            && self.rank() == other.rank() && other.next < self.next <= self.due(plan) == other.due(plan)
    }
}

/// What a tile's depth bound is, the far plane past the grid.
pub open spec fn far_of(bins: Bins, index: int) -> u32 {
    if index < bins.bounds().len() {
        bins.bounds()[index]
    } else {
        crate::bits::ONE
    }
}

proof fn tiles_are_counted(width: u32, height: u32)
    requires
        width <= MAX_RASTER_EXTENT,
        height <= MAX_RASTER_EXTENT,
    ensures
        0 < tiles_for(width) <= 512,
        0 < tiles_for(height) <= 512,
        0 < tiles_for(width) * tiles_for(height) <= 512 * 512,
{
    let (across, down) = (tiles_for(width), tiles_for(height));
    assert(0 < across * down <= 512 * 512) by (nonlinear_arith)
        requires
            0 < across <= 512,
            0 < down <= 512,
    ;
}

proof fn a_bin_names_triangles(triangles: Seq<Binned>, x: int, y: int, count: nat, i: int)
    requires
        count <= triangles.len() <= u32::MAX,
        0 <= i < touching(triangles, x, y, count).len(),
    ensures
        touching(triangles, x, y, count)[i] < count,
    decreases count,
{
    if count > 0 {
        let before = touching(triangles, x, y, (count - 1) as nat);
        if i < before.len() {
            a_bin_names_triangles(triangles, x, y, (count - 1) as nat, i);
        }
    }
}

/// A run comes to an end: whatever step is taken, what is left of the run is less.
pub proof fn every_step_is_nearer_the_end(plan: Prepared, later: Prepared, before: Execution, after: Execution)
    requires
        before.wf(plan),
        after.wf(later),
        later.draws == plan.draws,
        after.same_pass(before),
        after.ahead(before, later),
    ensures
        decreases_to!(
            plan.draws@.len() - before.draw,
            before.instances_left(plan),
            6 - before.rank(),
            before.due(plan) - before.next
            =>
            later.draws@.len() - after.draw,
            after.instances_left(later),
            6 - after.rank(),
            after.due(later) - after.next
        ),
{
    assert(after.instances_left(later) >= 0);
    assert(before.due(plan) == before.due(later));
}

proof fn a_row_is_in_its_area(primitive: u32, mask: spec_fn(int, int) -> u32, y: int, x0: int, x: int, i: int)
    requires
        i64::MIN <= x0 && x <= i64::MAX,
        i64::MIN <= y <= i64::MAX,
        0 <= i < row_lit(primitive, mask, y, x0, x).len(),
    ensures
        x0 <= row_lit(primitive, mask, y, x0, x)[i].x < x,
        row_lit(primitive, mask, y, x0, x)[i].y == y,
        row_lit(primitive, mask, y, x0, x)[i].coverage != 0,
    decreases x - x0,
{
    if x0 < x {
        let before = row_lit(primitive, mask, y, x0, x - 1);
        if i < before.len() {
            a_row_is_in_its_area(primitive, mask, y, x0, x - 1, i);
        }
    }
}

proof fn rows_are_in_their_area(
    primitive: u32,
    mask: spec_fn(int, int) -> u32,
    x0: int,
    x1: int,
    y0: int,
    y: int,
    i: int,
)
    requires
        i64::MIN <= x0 && x1 <= i64::MAX,
        i64::MIN <= y0 && y <= i64::MAX,
        0 <= i < rows_lit(primitive, mask, x0, x1, y0, y).len(),
    ensures
        x0 <= rows_lit(primitive, mask, x0, x1, y0, y)[i].x < x1,
        y0 <= rows_lit(primitive, mask, x0, x1, y0, y)[i].y < y,
        rows_lit(primitive, mask, x0, x1, y0, y)[i].coverage != 0,
    decreases y - y0,
{
    if y0 < y {
        let before = rows_lit(primitive, mask, x0, x1, y0, y - 1);
        if i < before.len() {
            rows_are_in_their_area(primitive, mask, x0, x1, y0, y - 1, i);
        } else {
            a_row_is_in_its_area(primitive, mask, y - 1, x0, x1, i - before.len());
        }
    }
}

proof fn a_tile_is_in_its_area(
    triangles: Seq<Binned>,
    bin: Seq<u32>,
    area: PixelBox,
    far: u32,
    compare: super::state::CompareOp,
    positions: Seq<SamplePosition>,
    count: nat,
    i: int,
)
    requires
        0 <= i < tile_lit(triangles, bin, area, far, compare, positions, count).len(),
    ensures
        area.has(
            tile_lit(triangles, bin, area, far, compare, positions, count)[i].x as int,
            tile_lit(triangles, bin, area, far, compare, positions, count)[i].y as int,
        ),
        tile_lit(triangles, bin, area, far, compare, positions, count)[i].coverage != 0,
    decreases count,
{
    if count > 0 {
        let before = tile_lit(triangles, bin, area, far, compare, positions, (count - 1) as nat);
        if i < before.len() {
            a_tile_is_in_its_area(triangles, bin, area, far, compare, positions, (count - 1) as nat, i);
        } else {
            let triangle = triangles[bin[count - 1] as int].setup;
            let part = common(triangle.bounds, area);
            rows_are_in_their_area(
                bin[count - 1],
                super::shade::triangle_mask(triangle, positions),
                part.x0 as int,
                part.x1 as int,
                part.y0 as int,
                part.y1 as int,
                i - before.len(),
            );
        }
    }
}

/// A triangle is rejected from a tile only where it is behind the tile's bound, no draw so far can have
/// moved a depth back past that bound, and the depth test is assured to refuse what is behind it.
pub proof fn only_an_assured_draw_rejects(
    run: Execution,
    plan: Prepared,
    positions: Seq<SamplePosition>,
    triangle: Setup,
)
    requires
        run.wf(plan),
        run.drawing(),
        shade::hidden(triangle, run.reject_beyond(plan, positions), run.pipeline(plan).depth_compare),
    ensures
        shade::hidden(triangle, far_of(plan.bins, run.next as int), run.pipeline(plan).depth_compare),
        only_nearer(plan, run.draw + 1),
        assured(run.pipeline(plan), run.depth),
        centred(positions),
{
}

/// No fragment outside the scissor is shaded, and none of which no sample is covered.
pub proof fn a_fragment_is_in_the_scissor(
    run: Execution,
    plan: Prepared,
    positions: Seq<SamplePosition>,
    i: int,
)
    requires
        0 <= i < run.lit(plan, positions).len(),
    ensures
        run.held.has(run.lit(plan, positions)[i].x as int, run.lit(plan, positions)[i].y as int),
        run.lit(plan, positions)[i].coverage != 0,
{
    match run.phase {
        Phase::Tiles => {
            let (x, y) = run.tile(plan);
            let bin = touching(run.triangles@, x, y, run.triangles@.len());
            a_tile_is_in_its_area(
                run.triangles@,
                bin,
                common(tile_pixels(x, y).clamp(run.width, run.height), run.held),
                run.reject_beyond(plan, positions),
                run.pipeline(plan).depth_compare,
                positions,
                bin.len(),
                i,
            );
        },
        Phase::Lines => {
            let segment = run.segments@[run.next as int];
            let area = line_area(segment.from, segment.to, run.held);
            rows_are_in_their_area(
                run.next as u32,
                line_mask(segment.from, segment.to),
                area.x0 as int,
                area.x1 as int,
                area.y0 as int,
                area.y1 as int,
                i,
            );
        },
        Phase::Points => {
            let dot = run.points@[run.next as int];
            let area = point_area(dot.centre, dot.size, run.held);
            rows_are_in_their_area(
                run.next as u32,
                point_mask(dot.centre, dot.size, positions),
                area.x0 as int,
                area.x1 as int,
                area.y0 as int,
                area.y1 as int,
                i,
            );
        },
        _ => {},
    }
}

/// Every triangle staged from a fan is held to the target.
proof fn a_staged_triangle_is_in_the_target(
    clipped: Clipped,
    projected: Seq<Result<Projected, Error>>,
    cull: Cull,
    width: u32,
    height: u32,
    count: nat,
    i: int,
)
    requires
        0 <= i < fan(clipped, projected, cull, width, height, count).staged.len(),
    ensures
        fan(clipped, projected, cull, width, height, count).staged[i].setup.bounds.x1 <= width,
        fan(clipped, projected, cull, width, height, count).staged[i].setup.bounds.y1 <= height,
    decreases count,
{
    if count > 0 {
        let before = fan(clipped, projected, cull, width, height, (count - 1) as nat);
        if i < before.staged.len() {
            a_staged_triangle_is_in_the_target(
                clipped,
                projected,
                cull,
                width,
                height,
                (count - 1) as nat,
                i,
            );
        }
    }
}


/// Tiles are shaded row by row, from the left of each: the next one is to the right, or the first of the row below
/// after the last, and going through them all comes to every tile.
pub proof fn tiles_go_row_by_row(run: Execution, later: Execution, plan: Prepared, x: int, y: int)
    requires
        plan.bins.columns() > 0,
        run.next < plan.bins.columns() * plan.bins.rows(),
        later.next == run.next + 1,
        0 <= x < plan.bins.columns(),
        0 <= y < plan.bins.rows(),
    ensures
        0 <= run.tile(plan).0 < plan.bins.columns(),
        0 <= run.tile(plan).1 < plan.bins.rows(),
        run.next == 0 ==> run.tile(plan) == (0int, 0int),
        run.tile(plan).0 < plan.bins.columns() - 1 ==> later.tile(plan) == (run.tile(plan).0 + 1, run.tile(plan).1),
        run.tile(plan).0 == plan.bins.columns() - 1 ==> later.tile(plan) == (0int, run.tile(plan).1 + 1),
        run.next == cell(x, y, plan.bins.columns()) ==> run.tile(plan) == (x, y),
{
    let across = plan.bins.columns();
    let down = plan.bins.rows();
    let at = run.next as int;
    vstd::arithmetic::div_mod::lemma_fundamental_div_mod(at, across);
    let (u, v) = (at % across, at / across);
    assert(0 <= v < down) by (nonlinear_arith)
        requires
            at == across * v + u,
            0 <= u < across,
            0 <= at < across * down,
    ;
    assert(across * v == v * across) by (nonlinear_arith);
    if u < across - 1 {
        vstd::arithmetic::div_mod::lemma_fundamental_div_mod_converse(at + 1, across, v, u + 1);
    } else {
        assert(at + 1 == (v + 1) * across + 0) by (nonlinear_arith)
            requires
                at == across * v + u,
                u == across - 1,
        ;
        vstd::arithmetic::div_mod::lemma_fundamental_div_mod_converse(at + 1, across, v + 1, 0);
    }
    if at == 0 {
        vstd::arithmetic::div_mod::lemma_fundamental_div_mod_converse(0, across, 0, 0);
    }
    if at == cell(x, y, across) {
        assert(cell(x, y, across) == across * y + x) by (nonlinear_arith)
            requires
                cell(x, y, across) == y * across + x,
        ;
        vstd::arithmetic::div_mod::lemma_fundamental_div_mod_converse(at, across, y, x);
    }
}


/// A draw that is taken to bring depths nearer stores none that is further than the one it replaces, whatever is tested.
pub proof fn a_nearing_draw_stores_nothing_further(
    pipeline: Pipeline,
    incoming: super::state::Stored,
    stored: super::state::Stored,
    stencil: Option<(super::state::StencilFace, u8)>,
)
    requires
        moves_none_back(pipeline),
    ensures
        match (
            super::state::tested(pipeline.depth_compare, pipeline.depth_write, incoming, stored, stencil).depth,
            stored,
        ) {
            (Some(super::state::Stored::Float(new)), super::state::Stored::Float(old)) => !below(old, new),
            (Some(super::state::Stored::Steps(new)), super::state::Stored::Steps(old)) => new <= old,
            (Some(_), _) => false,
            (None, _) => true,
        },
{
    if pipeline.depth_write {
        super::state::a_nearing_test_moves_no_depth_back(
            pipeline.depth_compare,
            pipeline.depth_write,
            incoming,
            stored,
            stencil,
        );
    }
}

} // verus!
