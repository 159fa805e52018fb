//! Preparing a frame: everything a plan can be refused for, and where each varying lives.
//!
//! Whether a shader module is well-formed is the validator's answer, which the caller hands in.
use super::clip::{Varyings, MAX_VARYING_COMPONENTS};
use super::error::{
    AttachmentFault, Error, Limit, MeshFault, PipelineFault, ShaderFault, StateFault, TextureFault,
};
use super::fixed::MAX_RASTER_EXTENT;
use super::geometry::Topology;
use super::interpreter::{per_sample, samples_apart, Fault, Outputs};
use super::pass::{AttachmentBlend, Colour, DepthStencil};
use super::raster::{tiles_for, Bins, Cull};
use super::shader::{Binding, BuiltIn, Interpolation, Module, Stage, Type, Varying};
use super::state::{CompareOp, StencilFace};
use super::value::{Datum, Val};
use crate::bits::ONE;
use vstd::prelude::*;

verus! {

/// The fixed-function part of a pipeline.
#[derive(Clone, Copy, PartialEq, Eq, Structural, Debug)]
pub struct PipelineState {
    pub topology: Topology,
    pub cull: Cull,
    pub depth_test: Option<CompareOp>,
    pub depth_write: bool,
    pub samples: u32,
    pub per_sample_shading: bool,
}

/// A pipeline.
#[derive(Debug)]
pub struct Pipeline {
    pub state: PipelineState,
    pub vertex: Module,
    pub fragment: Module,
    /// One blend state per colour attachment.
    pub blend: Vec<AttachmentBlend>,
    pub stencil: Option<StencilFace>,
    pub depth_compare: CompareOp,
    pub depth_write: bool,
    /// The constant factor, slope factor and clamp of the depth bias.
    pub bias: (u32, u32, u32),
    /// Whether a fragment's own alpha narrows its coverage.
    pub alpha_to_coverage: bool,
    /// The static sample mask.
    pub sample_mask: u32,
}

/// One draw, as the plan holds it.
#[derive(Clone, Copy, PartialEq, Eq, Structural, Debug)]
pub struct Draw {
    pub pipeline: u32,
    pub topology: Topology,
    pub count: u32,
    pub instances: u32,
    pub first_instance: u32,
    pub base_vertex: i32,
    pub restart: bool,
}

/// What one execution did.
#[derive(Clone, Copy, PartialEq, Eq, Structural, Debug)]
pub struct Stats {
    pub primitives: u32,
    pub clipped: u32,
    pub culled: u32,
    pub fragments: u32,
    pub samples_written: u32,
    pub discarded: u32,
}

impl Stats {
    /// Nothing done.
    pub fn new() -> (made: Stats)
        ensures
            made == (Stats {
                primitives: 0,
                clipped: 0,
                culled: 0,
                fragments: 0,
                samples_written: 0,
                discarded: 0,
            }),
    {
        Stats { primitives: 0, clipped: 0, culled: 0, fragments: 0, samples_written: 0, discarded: 0 }
    }
}

// ---------------------------------------------------------------------------------------------
// Where each varying lives.
// ---------------------------------------------------------------------------------------------
/// How many components the first `count` varyings of one qualifier have together.
pub open spec fn components(varyings: Seq<Varying>, interpolation: Interpolation, count: nat) -> int
    decreases count,
{
    if count == 0 {
        0
    } else {
        components(varyings, interpolation, (count - 1) as nat) + (if varyings[count - 1].interpolation
            == interpolation {
            varyings[count - 1].kind.size()
        } else {
            0
        })
    }
}

/// A type occupies no fewer than no words.
pub proof fn a_size_is_a_count(kind: Type)
    ensures
        kind.size() >= 0,
    decreases kind,
{
    match kind {
        Type::Matrix(side) => {
            assert(side * side >= 0) by (nonlinear_arith);
        },
        Type::Array(element, length) => {
            a_size_is_a_count(*element);
            let size = element.size();
            assert(size * length >= 0) by (nonlinear_arith)
                requires
                    size >= 0,
                    length >= 0,
            ;
        },
        _ => {},
    }
}

proof fn components_grow(varyings: Seq<Varying>, interpolation: Interpolation, from: nat, to: nat)
    requires
        from <= to,
    ensures
        0 <= components(varyings, interpolation, from) <= components(varyings, interpolation, to),
    decreases to,
{
    if to > 0 {
        a_size_is_a_count(varyings[to - 1].kind);
        if from < to {
            components_grow(varyings, interpolation, from, (to - 1) as nat);
        } else {
            components_grow(varyings, interpolation, (to - 1) as nat, (to - 1) as nat);
        }
    }
}

/// Whether the varyings of a module can be counted.
pub open spec fn countable(module: Module) -> bool {
    forall|interpolation: Interpolation|
        #[trigger] components(module.varyings@, interpolation, module.varyings@.len()) <= usize::MAX
}

/// Where one varying lives among the interpolated values of its qualifier.
#[derive(Clone, Copy, PartialEq, Eq, Structural, Debug)]
pub struct Slot {
    pub location: u32,
    pub interpolation: Interpolation,
    pub offset: usize,
    pub count: usize,
}

/// Where the varyings of a vertex stage live, in the order they are declared.
pub open spec fn slots(varyings: Seq<Varying>) -> Seq<Slot> {
    Seq::new(
        varyings.len(),
        |i: int|
            Slot {
                location: varyings[i].location,
                interpolation: varyings[i].interpolation,
                offset: components(varyings, varyings[i].interpolation, i as nat) as usize,
                count: varyings[i].kind.size() as usize,
            },
    )
}

proof fn one_is_counted(varyings: Seq<Varying>, i: int)
    requires
        0 <= i < varyings.len(),
    ensures
        0 <= components(varyings, varyings[i].interpolation, i as nat),
        0 <= varyings[i].kind.size(),
        components(varyings, varyings[i].interpolation, i as nat) + varyings[i].kind.size() <= components(
            varyings,
            varyings[i].interpolation,
            varyings.len(),
        ),
{
    a_size_is_a_count(varyings[i].kind);
    components_grow(varyings, varyings[i].interpolation, i as nat, i as nat);
    components_grow(varyings, varyings[i].interpolation, (i + 1) as nat, varyings.len());
}

/// Where the varyings of a vertex stage live.
pub fn varying_map(pipeline: &Pipeline) -> (map: Vec<Slot>)
    requires
        countable(pipeline.vertex),
    ensures
        map@ == slots(pipeline.vertex.varyings@),
{
    let mut map: Vec<Slot> = Vec::new();
    let varyings = &pipeline.vertex.varyings;
    let (mut smooth, mut noperspective, mut flat): (usize, usize, usize) = (0, 0, 0);
    let mut next: usize = 0;
    while next < varyings.len()
        invariant
            next <= varyings@.len(),
            *varyings == pipeline.vertex.varyings,
            countable(pipeline.vertex),
            map@ == slots(varyings@).take(next as int),
            smooth == components(varyings@, Interpolation::Smooth, next as nat),
            noperspective == components(varyings@, Interpolation::NoPerspective, next as nat),
            flat == components(varyings@, Interpolation::Flat, next as nat),
        decreases varyings@.len() - next,
    {
        let varying = &varyings[next];
        proof {
            one_is_counted(varyings@, next as int);
            assert(components(varyings@, varying.interpolation, varyings@.len()) <= usize::MAX);
        }
        let count: usize = Val::words_in(&varying.kind);
        let offset: usize = match varying.interpolation {
            Interpolation::Smooth => {
                let at: usize = smooth;
                smooth = smooth + count;
                at
            },
            Interpolation::NoPerspective => {
                let at: usize = noperspective;
                noperspective = noperspective + count;
                at
            },
            Interpolation::Flat => {
                let at: usize = flat;
                flat = flat + count;
                at
            },
        };
        map.push(Slot { location: varying.location, interpolation: varying.interpolation, offset, count });
        next = next + 1;
        assert(map@ =~= slots(varyings@).take(next as int));
    }
    assert(slots(varyings@).take(varyings@.len() as int) =~= slots(varyings@));
    map
}

/// Two varyings of one qualifier share no component.
pub proof fn slots_do_not_overlap(varyings: Seq<Varying>, i: int, j: int)
    requires
        0 <= i < j < varyings.len(),
        varyings[i].interpolation == varyings[j].interpolation,
        components(varyings, varyings[i].interpolation, varyings.len()) <= usize::MAX,
    ensures
        slots(varyings)[i].offset + slots(varyings)[i].count <= slots(varyings)[j].offset,
{
    one_is_counted(varyings, i);
    one_is_counted(varyings, j);
    components_grow(varyings, varyings[i].interpolation, (i + 1) as nat, j as nat);
    components_grow(varyings, varyings[i].interpolation, j as nat, varyings.len());
}

// ---------------------------------------------------------------------------------------------
// Preparing.
// ---------------------------------------------------------------------------------------------
/// Whether a vertex stage writes what a fragment stage reads.
pub open spec fn writes(vertex: Module, varying: Varying) -> bool {
    exists|i: int|
        0 <= i < vertex.varyings@.len() && (#[trigger] vertex.varyings@[i]).location == varying.location
            && vertex.varyings@[i].kind == varying.kind
}

/// Whether a vertex stage writes everything a fragment stage reads.
pub open spec fn agree(vertex: Module, fragment: Module) -> bool {
    forall|i: int|
        0 <= i < fragment.varyings@.len() ==> #[trigger] writes(vertex, fragment.varyings@[i])
}

/// How many components a module's varyings of one qualifier have.
pub open spec fn total(module: Module, interpolation: Interpolation) -> int {
    components(module.varyings@, interpolation, module.varyings@.len())
}

/// The refusal of a vertex stage with too many components of one qualifier.
pub open spec fn too_many_components(asked: int) -> Error {
    Error::LimitExceeded { limit: Limit::VaryingComponents, ceiling: 32, asked: asked as u64 }
}

/// Why a pipeline is refused, given whether the validator accepts its two modules.
pub open spec fn pipeline_refusal(pipeline: Pipeline, accepted: (bool, bool)) -> Option<Error> {
    if pipeline.vertex.stage != Stage::Vertex || pipeline.fragment.stage != Stage::Fragment {
        Some(Error::InvalidShader { reason: ShaderFault::StagesSwapped })
    } else if !accepted.0 {
        Some(Error::InvalidShader { reason: ShaderFault::VertexRefused })
    } else if !accepted.1 {
        Some(Error::InvalidShader { reason: ShaderFault::FragmentRefused })
    } else if !agree(pipeline.vertex, pipeline.fragment) {
        Some(Error::InvalidShader { reason: ShaderFault::UnwrittenVarying })
    } else if total(pipeline.vertex, Interpolation::Smooth) > MAX_VARYING_COMPONENTS {
        Some(too_many_components(total(pipeline.vertex, Interpolation::Smooth)))
    } else if total(pipeline.vertex, Interpolation::NoPerspective) > MAX_VARYING_COMPONENTS {
        Some(too_many_components(total(pipeline.vertex, Interpolation::NoPerspective)))
    } else if total(pipeline.vertex, Interpolation::Flat) > MAX_VARYING_COMPONENTS {
        Some(too_many_components(total(pipeline.vertex, Interpolation::Flat)))
    } else if samples_apart(pipeline.fragment) != pipeline.state.per_sample_shading {
        Some(Error::IncompatiblePipeline { reason: PipelineFault::ShadingRate })
    } else {
        None
    }
}

/// Why a draw is refused, of a plan of so many pipelines.
pub open spec fn draw_refusal(draw: Draw, pipelines: nat) -> Option<Error> {
    if draw.pipeline >= pipelines {
        Some(Error::InvalidRenderState { reason: StateFault::NoSuchPipeline })
    } else if draw.instances == 0 {
        Some(Error::InvalidMesh { reason: MeshFault::TooFewVertices { needs: 1, has: 0 } })
    } else {
        None
    }
}

/// The first refusal among pipelines from one on.
pub open spec fn first_pipeline_refusal(
    pipelines: Seq<Pipeline>,
    accepted: Seq<(bool, bool)>,
    from: nat,
) -> Option<Error>
    decreases pipelines.len() - from,
{
    if from >= pipelines.len() {
        None
    } else {
        match pipeline_refusal(pipelines[from as int], accepted[from as int]) {
            Some(error) => Some(error),
            None => first_pipeline_refusal(pipelines, accepted, from + 1),
        }
    }
}

/// The first refusal among draws from one on.
pub open spec fn first_draw_refusal(draws: Seq<Draw>, pipelines: nat, from: nat) -> Option<Error>
    decreases draws.len() - from,
{
    if from >= draws.len() {
        None
    } else {
        match draw_refusal(draws[from as int], pipelines) {
            Some(error) => Some(error),
            None => first_draw_refusal(draws, pipelines, from + 1),
        }
    }
}

/// Whether a target's extent is one the rasteriser takes.
pub open spec fn extent_taken(width: u32, height: u32) -> bool {
    0 < width <= MAX_RASTER_EXTENT && 0 < height <= MAX_RASTER_EXTENT
}

/// Why a plan is refused.
pub open spec fn plan_refusal(
    pipelines: Seq<Pipeline>,
    draws: Seq<Draw>,
    accepted: Seq<(bool, bool)>,
    width: u32,
    height: u32,
) -> Option<Error> {
    if !extent_taken(width, height) {
        Some(
            Error::LimitExceeded {
                limit: Limit::RasterExtent,
                ceiling: 16_384,
                asked: if width < height {
                    height as u64
                } else {
                    width as u64
                },
            },
        )
    } else {
        match first_pipeline_refusal(pipelines, accepted, 0) {
            Some(error) => Some(error),
            None => first_draw_refusal(draws, pipelines.len(), 0),
        }
    }
}

fn writes_varying(vertex: &Module, varying: &Varying) -> (written: bool)
    ensures
        written == writes(*vertex, *varying),
{
    let mut next: usize = 0;
    while next < vertex.varyings.len()
        invariant
            next <= vertex.varyings@.len(),
            forall|i: int|
                0 <= i < next ==> !((#[trigger] vertex.varyings@[i]).location == varying.location
                    && vertex.varyings@[i].kind == varying.kind),
        decreases vertex.varyings@.len() - next,
    {
        if vertex.varyings[next].location == varying.location && vertex.varyings[next].kind.same(
            &varying.kind,
        ) {
            assert(vertex.varyings@[next as int].location == varying.location);
            return true;
        }
        next = next + 1;
    }
    false
}

fn stages_agree(vertex: &Module, fragment: &Module) -> (all: bool)
    ensures
        all == agree(*vertex, *fragment),
{
    let mut next: usize = 0;
    while next < fragment.varyings.len()
        invariant
            next <= fragment.varyings@.len(),
            forall|i: int| 0 <= i < next ==> #[trigger] writes(*vertex, fragment.varyings@[i]),
        decreases fragment.varyings@.len() - next,
    {
        if !writes_varying(vertex, &fragment.varyings[next]) {
            assert(!writes(*vertex, fragment.varyings@[next as int]));
            return false;
        }
        next = next + 1;
    }
    true
}

fn count_components(module: &Module, interpolation: Interpolation) -> (sum: usize)
    requires
        countable(*module),
    ensures
        sum == total(*module, interpolation),
{
    let mut sum: usize = 0;
    let mut next: usize = 0;
    while next < module.varyings.len()
        invariant
            next <= module.varyings@.len(),
            countable(*module),
            sum == components(module.varyings@, interpolation, next as nat),
        decreases module.varyings@.len() - next,
    {
        let varying = &module.varyings[next];
        if varying.interpolation == interpolation {
            proof {
                one_is_counted(module.varyings@, next as int);
                assert(components(module.varyings@, interpolation, module.varyings@.len()) <= usize::MAX);
            }
            sum = sum + Val::words_in(&varying.kind);
        }
        next = next + 1;
    }
    sum
}

fn refuse_pipeline(pipeline: &Pipeline, accepted: (bool, bool)) -> (refusal: Option<Error>)
    requires
        countable(pipeline.vertex),
    ensures
        refusal == pipeline_refusal(*pipeline, accepted),
{
    if pipeline.vertex.stage != Stage::Vertex || pipeline.fragment.stage != Stage::Fragment {
        return Some(Error::InvalidShader { reason: ShaderFault::StagesSwapped });
    }
    if !accepted.0 {
        return Some(Error::InvalidShader { reason: ShaderFault::VertexRefused });
    }
    if !accepted.1 {
        return Some(Error::InvalidShader { reason: ShaderFault::FragmentRefused });
    }
    if !stages_agree(&pipeline.vertex, &pipeline.fragment) {
        return Some(Error::InvalidShader { reason: ShaderFault::UnwrittenVarying });
    }
    let smooth: usize = count_components(&pipeline.vertex, Interpolation::Smooth);
    let noperspective: usize = count_components(&pipeline.vertex, Interpolation::NoPerspective);
    let flat: usize = count_components(&pipeline.vertex, Interpolation::Flat);
    let over: Option<usize> = if smooth > MAX_VARYING_COMPONENTS {
        Some(smooth)
    } else if noperspective > MAX_VARYING_COMPONENTS {
        Some(noperspective)
    } else if flat > MAX_VARYING_COMPONENTS {
        Some(flat)
    } else {
        None
    };
    if let Some(asked) = over {
        return Some(
            Error::LimitExceeded { limit: Limit::VaryingComponents, ceiling: 32, asked: asked as u64 },
        );
    }
    if per_sample(&pipeline.fragment) != pipeline.state.per_sample_shading {
        return Some(Error::IncompatiblePipeline { reason: PipelineFault::ShadingRate });
    }
    None
}

/// A validated plan.
pub struct Prepared {
    pub pipelines: Vec<Pipeline>,
    /// Where each varying of each pipeline lives.
    pub maps: Vec<Vec<Slot>>,
    pub draws: Vec<Draw>,
    pub bins: Bins,
}

impl Prepared {
    /// A plan that no draw of it can be refused for what preparing checks.
    pub open spec fn wf(self) -> bool {
        &&& self.bins.wf()
        &&& self.maps@.len() == self.pipelines@.len()
        &&& forall|i: int|
            0 <= i < self.pipelines@.len() ==> (#[trigger] self.maps@[i])@ == slots(
                self.pipelines@[i].vertex.varyings@,
            )
        &&& forall|i: int|
            0 <= i < self.draws@.len() ==> draw_refusal(#[trigger] self.draws@[i], self.pipelines@.len())
                is None
    }

    pub fn pipelines(&self) -> (pipelines: &[Pipeline])
        ensures
            pipelines@ == self.pipelines@,
    {
        self.pipelines.as_slice()
    }

    pub fn draws(&self) -> (draws: &[Draw])
        ensures
            draws@ == self.draws@,
    {
        self.draws.as_slice()
    }

    /// How many commands this plan is.
    pub fn command_count(&self) -> (count: usize)
        ensures
            count == self.draws@.len(),
    {
        self.draws.len()
    }

    /// Reuse this plan against a differently sized target.
    pub fn resize(&mut self, width: u32, height: u32)
        requires
            old(self).wf(),
            tiles_for(width) * tiles_for(height) <= u32::MAX,
        ensures
            final(self).wf(),
            final(self).pipelines == old(self).pipelines,
            final(self).maps == old(self).maps,
            final(self).draws == old(self).draws,
            final(self).bins.columns() == tiles_for(width),
            final(self).bins.rows() == tiles_for(height),
            forall|i: int|
                0 <= i < tiles_for(width) * tiles_for(height) ==> (#[trigger] final(self).bins.bin(i)).len()
                    == 0,
            final(self).bins.bounds() == if old(self).bins.columns() == tiles_for(width) && old(
                self,
            ).bins.rows() == tiles_for(height) {
                old(self).bins.bounds()
            } else {
                Seq::new((tiles_for(width) * tiles_for(height)) as nat, |i: int| crate::bits::ONE)
            },
    {
        self.bins.resize(width, height);
    }
}

proof fn no_draw_is_refused(draws: Seq<Draw>, pipelines: nat, from: nat, i: int)
    requires
        first_draw_refusal(draws, pipelines, from) is None,
        from <= i < draws.len(),
    ensures
        draw_refusal(draws[i], pipelines) is None,
    decreases draws.len() - from,
{
    if from < i {
        no_draw_is_refused(draws, pipelines, from + 1, i);
    }
}

/// Check everything about a plan that can be checked before a frame.
pub fn prepare(
    pipelines: Vec<Pipeline>,
    draws: Vec<Draw>,
    accepted: &[(bool, bool)],
    width: u32,
    height: u32,
) -> (plan: Result<Prepared, Error>)
    requires
        accepted@.len() == pipelines@.len(),
        forall|i: int| 0 <= i < pipelines@.len() ==> countable((#[trigger] pipelines@[i]).vertex),
    ensures
        match plan {
            Ok(prepared) => {
                &&& plan_refusal(pipelines@, draws@, accepted@, width, height) is None
                &&& prepared.wf()
                &&& prepared.pipelines@ == pipelines@
                &&& prepared.draws@ == draws@
                &&& prepared.bins.columns() == tiles_for(width)
                &&& prepared.bins.rows() == tiles_for(height)
                &&& forall|i: int|
                    0 <= i < tiles_for(width) * tiles_for(height) ==> (#[trigger] prepared.bins.bin(i)).len()
                        == 0
                &&& prepared.bins.bounds() == Seq::new(
                    (tiles_for(width) * tiles_for(height)) as nat,
                    |i: int| crate::bits::ONE,
                )
            },
            Err(error) => plan_refusal(pipelines@, draws@, accepted@, width, height) == Some(error),
        },
{
    if width == 0 || height == 0 || width > MAX_RASTER_EXTENT || height > MAX_RASTER_EXTENT {
        let asked: u64 = if width < height {
            height as u64
        } else {
            width as u64
        };
        return Err(Error::LimitExceeded { limit: Limit::RasterExtent, ceiling: 16_384, asked });
    }
    let ghost refusal = first_pipeline_refusal(pipelines@, accepted@, 0);
    let mut maps: Vec<Vec<Slot>> = Vec::new();
    let mut next: usize = 0;
    while next < pipelines.len()
        invariant
            next <= pipelines@.len(),
            accepted@.len() == pipelines@.len(),
            extent_taken(width, height),
            forall|i: int| 0 <= i < pipelines@.len() ==> countable((#[trigger] pipelines@[i]).vertex),
            refusal == first_pipeline_refusal(pipelines@, accepted@, 0),
            refusal == first_pipeline_refusal(pipelines@, accepted@, next as nat),
            maps@.len() == next,
            forall|i: int|
                0 <= i < next ==> (#[trigger] maps@[i])@ == slots(pipelines@[i].vertex.varyings@),
        decreases pipelines@.len() - next,
    {
        if let Some(error) = refuse_pipeline(&pipelines[next], accepted[next]) {
            return Err(error);
        }
        maps.push(varying_map(&pipelines[next]));
        next = next + 1;
    }
    let ghost late = first_draw_refusal(draws@, pipelines@.len(), 0);
    let mut at: usize = 0;
    while at < draws.len()
        invariant
            at <= draws@.len(),
            extent_taken(width, height),
            first_pipeline_refusal(pipelines@, accepted@, 0) is None,
            late == first_draw_refusal(draws@, pipelines@.len(), 0),
            late == first_draw_refusal(draws@, pipelines@.len(), at as nat),
        decreases draws@.len() - at,
    {
        let draw = draws[at];
        if draw.pipeline as usize >= pipelines.len() {
            return Err(Error::InvalidRenderState { reason: StateFault::NoSuchPipeline });
        }
        if draw.instances == 0 {
            return Err(Error::InvalidMesh { reason: MeshFault::TooFewVertices { needs: 1, has: 0 } });
        }
        at = at + 1;
    }
    proof {
        assert forall|i: int| 0 <= i < draws@.len() implies draw_refusal(
            #[trigger] draws@[i],
            pipelines@.len(),
        ) is None by {
            no_draw_is_refused(draws@, pipelines@.len(), 0, i);
        }
        tiles_of_a_taken_extent(width, height);
    }
    let bins = Bins::new(width, height);
    Ok(Prepared { pipelines, maps, draws, bins })
}

/// A target the rasteriser takes has a countable number of tiles.
pub proof fn tiles_of_a_taken_extent(width: u32, height: u32)
    requires
        extent_taken(width, height),
    ensures
        tiles_for(width) * tiles_for(height) <= u32::MAX,
{
    let (across, down) = (tiles_for(width), tiles_for(height));
    assert(across <= 512 && down <= 512);
    assert(across * down <= 512 * 512) by (nonlinear_arith)
        requires
            0 <= across <= 512,
            0 <= down <= 512,
    ;
}

// ---------------------------------------------------------------------------------------------
// What a pass and a draw are refused for.
// ---------------------------------------------------------------------------------------------
/// Whether an attachment has this shape.
pub open spec fn shaped(attachment: Colour, width: u32, height: u32, samples: u32) -> bool {
    attachment.width == width && attachment.height == height && attachment.samples == samples
}

/// The first colour attachment from one on that does not have this shape.
pub open spec fn first_misshapen(
    colour: Seq<Colour>,
    width: u32,
    height: u32,
    samples: u32,
    from: nat,
) -> Option<int>
    decreases colour.len() - from,
{
    if from >= colour.len() {
        None
    } else if !shaped(colour[from as int], width, height, samples) {
        Some(from as int)
    } else {
        first_misshapen(colour, width, height, samples, from + 1)
    }
}

/// Why the attachments of a pass are refused.
pub open spec fn attachments_refusal(
    colour: Seq<Colour>,
    depth_stencil: Option<DepthStencil>,
    ceiling: u32,
) -> Option<Error> {
    if colour.len() == 0 {
        Some(Error::TargetMismatch { reason: AttachmentFault::TooMany { count: 0, ceiling } })
    } else {
        let (width, height, samples) = (colour[0].width, colour[0].height, colour[0].samples);
        match first_misshapen(colour, width, height, samples, 0) {
            Some(i) => Some(
                Error::TargetMismatch {
                    reason: AttachmentFault::ExtentMismatch {
                        width: colour[i].width,
                        height: colour[i].height,
                        expected_width: width,
                        expected_height: height,
                    },
                },
            ),
            None => match depth_stencil {
                Some(buffer) => if buffer.width != width || buffer.height != height || buffer.samples
                    != samples {
                    Some(
                        Error::TargetMismatch {
                            reason: AttachmentFault::SampleCountMismatch {
                                samples: buffer.samples,
                                expected: samples,
                            },
                        },
                    )
                } else {
                    None
                },
                None => None,
            },
        }
    }
}

/// The extent and sample count every attachment of a pass shares, or why the pass is refused.
pub fn check_attachments(
    colour: &[Colour],
    depth_stencil: &Option<DepthStencil>,
    ceiling: u32,
) -> (shape: Result<(u32, u32, u32), Error>)
    ensures
        match shape {
            Ok((width, height, samples)) => attachments_refusal(colour@, *depth_stencil, ceiling) is None
                && width == colour@[0].width && height == colour@[0].height && samples
                == colour@[0].samples,
            Err(error) => attachments_refusal(colour@, *depth_stencil, ceiling) == Some(error),
        },
{
    if colour.len() == 0 {
        return Err(Error::TargetMismatch { reason: AttachmentFault::TooMany { count: 0, ceiling } });
    }
    let (width, height, samples): (u32, u32, u32) = (colour[0].width, colour[0].height, colour[0].samples);
    let mut next: usize = 0;
    while next < colour.len()
        invariant
            next <= colour@.len(),
            colour@.len() > 0,
            width == colour@[0].width,
            height == colour@[0].height,
            samples == colour@[0].samples,
            first_misshapen(colour@, width, height, samples, 0) == first_misshapen(
                colour@,
                width,
                height,
                samples,
                next as nat,
            ),
        decreases colour@.len() - next,
    {
        let attachment = &colour[next];
        if attachment.width != width || attachment.height != height || attachment.samples != samples {
            return Err(
                Error::TargetMismatch {
                    reason: AttachmentFault::ExtentMismatch {
                        width: attachment.width,
                        height: attachment.height,
                        expected_width: width,
                        expected_height: height,
                    },
                },
            );
        }
        next = next + 1;
    }
    if let Some(buffer) = depth_stencil {
        if buffer.width != width || buffer.height != height || buffer.samples != samples {
            return Err(
                Error::TargetMismatch {
                    reason: AttachmentFault::SampleCountMismatch {
                        samples: buffer.samples,
                        expected: samples,
                    },
                },
            );
        }
    }
    Ok((width, height, samples))
}

/// Why a draw is refused against a pass of so many samples and attachments.
pub open spec fn draw_mismatch(pipeline: Pipeline, samples: u32, attachments: nat) -> Option<Error> {
    if pipeline.state.samples != samples {
        Some(Error::IncompatiblePipeline { reason: PipelineFault::SampleCount })
    } else if pipeline.blend@.len() < attachments {
        Some(Error::IncompatiblePipeline { reason: PipelineFault::TooFewBlendStates })
    } else {
        None
    }
}

/// Check a draw against the pass it is drawn into.
pub fn check_draw(pipeline: &Pipeline, samples: u32, attachments: usize) -> (refusal: Option<Error>)
    ensures
        refusal == draw_mismatch(*pipeline, samples, attachments as nat),
{
    if pipeline.state.samples != samples {
        return Some(Error::IncompatiblePipeline { reason: PipelineFault::SampleCount });
    }
    if pipeline.blend.len() < attachments {
        return Some(Error::IncompatiblePipeline { reason: PipelineFault::TooFewBlendStates });
    }
    None
}

/// What a fault of the interpreter is to the caller of a frame.
pub open spec fn refusal_of(fault: Fault) -> Error {
    match fault {
        Fault::IndexOutOfRange { .. } => Error::InvalidShader { reason: ShaderFault::IndexedOutside },
        Fault::MissingBinding => Error::InvalidShader { reason: ShaderFault::MissingBinding },
        Fault::SampleFailed => Error::InvalidTexture { reason: TextureFault::ReadRefused },
        _ => Error::InvalidShader { reason: ShaderFault::Refused },
    }
}

/// What a fault of the interpreter is to the caller of a frame.
pub fn fault(met: Fault) -> (error: Error)
    ensures
        error == refusal_of(met),
{
    match met {
        Fault::IndexOutOfRange { .. } => Error::InvalidShader { reason: ShaderFault::IndexedOutside },
        Fault::MissingBinding => Error::InvalidShader { reason: ShaderFault::MissingBinding },
        Fault::SampleFailed => Error::InvalidTexture { reason: TextureFault::ReadRefused },
        _ => Error::InvalidShader { reason: ShaderFault::Refused },
    }
}

// ---------------------------------------------------------------------------------------------
// The vertex stage.
// ---------------------------------------------------------------------------------------------
/// One vertex after the vertex stage.
#[derive(Clone, Copy, Debug)]
pub struct Shaded {
    pub position: [u32; 4],
    pub point_size: u32,
    pub smooth: Varyings,
    pub noperspective: Varyings,
    pub flat: Varyings,
}

/// The first value written to a location, from one on.
pub open spec fn written_at(written: Seq<(u32, Val)>, location: u32, from: nat) -> Option<int>
    decreases written.len() - from,
{
    if from >= written.len() {
        None
    } else if written[from as int].0 == location {
        Some(from as int)
    } else {
        written_at(written, location, from + 1)
    }
}

/// What one varying adds to the values of a qualifier: the components of the first value written to its
/// location, or nothing where none was.
pub open spec fn contribution(
    varying: Varying,
    interpolation: Interpolation,
    written: Seq<(u32, Val)>,
    floats: Seq<Vec<u32>>,
) -> Seq<u32> {
    match written_at(written, varying.location, 0) {
        Some(i) => if varying.interpolation == interpolation {
            floats[i]@
        } else {
            Seq::empty()
        },
        None => Seq::empty(),
    }
}

/// The values of one qualifier the first `count` varyings add up to, in the order they are declared.
pub open spec fn packed(
    varyings: Seq<Varying>,
    interpolation: Interpolation,
    written: Seq<(u32, Val)>,
    floats: Seq<Vec<u32>>,
    count: nat,
) -> Seq<u32>
    decreases count,
{
    if count == 0 {
        Seq::empty()
    } else {
        packed(varyings, interpolation, written, floats, (count - 1) as nat) + contribution(
            varyings[count - 1],
            interpolation,
            written,
            floats,
        )
    }
}

proof fn packing_grows(
    varyings: Seq<Varying>,
    interpolation: Interpolation,
    written: Seq<(u32, Val)>,
    floats: Seq<Vec<u32>>,
    from: nat,
    to: nat,
)
    requires
        from <= to,
    ensures
        packed(varyings, interpolation, written, floats, from).len() <= packed(
            varyings,
            interpolation,
            written,
            floats,
            to,
        ).len(),
    decreases to - from,
{
    if from < to {
        packing_grows(varyings, interpolation, written, floats, from, (to - 1) as nat);
    }
}

fn find_written(written: &Vec<(u32, Val)>, location: u32) -> (found: Option<usize>)
    ensures
        match found {
            Some(i) => written_at(written@, location, 0) == Some(i as int) && i < written@.len(),
            None => written_at(written@, location, 0) is None,
        },
{
    let mut next: usize = 0;
    while next < written.len()
        invariant
            next <= written@.len(),
            written_at(written@, location, 0) == written_at(written@, location, next as nat),
        decreases written@.len() - next,
    {
        if written[next].0 == location {
            return Some(next);
        }
        next = next + 1;
    }
    None
}

/// Append components, answering whether there was room for all of them.
fn push_all(into: &mut Varyings, components: &Vec<u32>) -> (room: bool)
    ensures
        room == (old(into)@.len() + components@.len() <= MAX_VARYING_COMPONENTS),
        room ==> final(into)@ == old(into)@ + components@,
{
    let mut next: usize = 0;
    let count: usize = into.len();
    while next < components.len()
        invariant
            next <= components@.len(),
            count == old(into)@.len(),
            into@ == old(into)@ + components@.take(next as int),
            count + next <= MAX_VARYING_COMPONENTS,
        decreases components@.len() - next,
    {
        if !into.push(components[next]) {
            return false;
        }
        next = next + 1;
        assert(into@ =~= old(into)@ + components@.take(next as int));
    }
    assert(components@.take(components@.len() as int) =~= components@);
    true
}

/// A vertex from what its stage wrote, its varyings split by the qualifier they are declared with. `floats`
/// holds the components of each written varying as binary32 values.
pub fn shade_vertex(module: &Module, outputs: &Outputs, floats: &[Vec<u32>]) -> (shaded: Result<Shaded, Error>)
    requires
        floats@.len() == outputs.varyings@.len(),
    ensures
        ({
            let smooth = packed(
                module.varyings@,
                Interpolation::Smooth,
                outputs.varyings@,
                floats@,
                module.varyings@.len(),
            );
            let noperspective = packed(
                module.varyings@,
                Interpolation::NoPerspective,
                outputs.varyings@,
                floats@,
                module.varyings@.len(),
            );
            let flat = packed(
                module.varyings@,
                Interpolation::Flat,
                outputs.varyings@,
                floats@,
                module.varyings@.len(),
            );
            let fits = smooth.len() <= 32 && noperspective.len() <= 32 && flat.len() <= 32;
            match shaded {
                Ok(vertex) => {
                    &&& outputs.position is Some
                    &&& fits
                    &&& vertex.position@ == Seq::new(4, |i: int| outputs.position->Some_0@.word(i))
                    &&& vertex.point_size == (match outputs.point_size {
                        Some(size) => size,
                        None => ONE,
                    })
                    &&& vertex.smooth@ == smooth
                    &&& vertex.noperspective@ == noperspective
                    &&& vertex.flat@ == flat
                },
                Err(error) => if outputs.position is None {
                    error == (Error::InvalidShader { reason: ShaderFault::NoPosition })
                } else {
                    !fits && error == too_many_components(33)
                },
            }
        }),
{
    let position: [u32; 4] = match &outputs.position {
        None => {
            return Err(Error::InvalidShader { reason: ShaderFault::NoPosition });
        },
        Some(value) => [value.f32_at(0), value.f32_at(1), value.f32_at(2), value.f32_at(3)],
    };
    assert(position@ =~= Seq::new(4, |i: int| outputs.position->Some_0@.word(i)));
    let point_size: u32 = match outputs.point_size {
        Some(size) => size,
        None => ONE,
    };
    let mut smooth = Varyings::empty();
    let mut noperspective = Varyings::empty();
    let mut flat = Varyings::empty();
    let ghost count = module.varyings@.len();
    let mut next: usize = 0;
    while next < module.varyings.len()
        invariant
            next <= module.varyings@.len(),
            count == module.varyings@.len(),
            floats@.len() == outputs.varyings@.len(),
            outputs.position is Some,
            smooth@ == packed(
                module.varyings@,
                Interpolation::Smooth,
                outputs.varyings@,
                floats@,
                next as nat,
            ),
            noperspective@ == packed(
                module.varyings@,
                Interpolation::NoPerspective,
                outputs.varyings@,
                floats@,
                next as nat,
            ),
            flat@ == packed(module.varyings@, Interpolation::Flat, outputs.varyings@, floats@, next as nat),
            smooth@.len() <= 32,
            noperspective@.len() <= 32,
            flat@.len() <= 32,
        decreases module.varyings@.len() - next,
    {
        let varying = &module.varyings[next];
        proof {
            packing_grows(
                module.varyings@,
                Interpolation::Smooth,
                outputs.varyings@,
                floats@,
                (next + 1) as nat,
                count,
            );
            packing_grows(
                module.varyings@,
                Interpolation::NoPerspective,
                outputs.varyings@,
                floats@,
                (next + 1) as nat,
                count,
            );
            packing_grows(
                module.varyings@,
                Interpolation::Flat,
                outputs.varyings@,
                floats@,
                (next + 1) as nat,
                count,
            );
        }
        let ghost (s, n, f) = (smooth@, noperspective@, flat@);
        if let Some(at) = find_written(&outputs.varyings, varying.location) {
            let components = &floats[at];
            let room = match varying.interpolation {
                Interpolation::Smooth => push_all(&mut smooth, components),
                Interpolation::NoPerspective => push_all(&mut noperspective, components),
                Interpolation::Flat => push_all(&mut flat, components),
            };
            if !room {
                return Err(
                    Error::LimitExceeded { limit: Limit::VaryingComponents, ceiling: 32, asked: 33 },
                );
            }
        }
        next = next + 1;
        assert(s + Seq::<u32>::empty() =~= s);
        assert(n + Seq::<u32>::empty() =~= n);
        assert(f + Seq::<u32>::empty() =~= f);
    }
    Ok(Shaded { position, point_size, smooth, noperspective, flat })
}

// ---------------------------------------------------------------------------------------------
// What a stage reads.
// ---------------------------------------------------------------------------------------------
/// Where the value of an input comes from.
#[derive(Debug)]
pub enum Supply {
    Given(Val),
    /// The source of the draw answers.
    Source,
    /// The stage has no such input.
    Nothing,
}

/// Where the value of an input comes from, as mathematics.
pub ghost enum Supplied {
    Given(Datum),
    Source,
    Nothing,
}

impl View for Supply {
    type V = Supplied;

    open spec fn view(&self) -> Supplied {
        match self {
            Supply::Given(value) => Supplied::Given(value@),
            Supply::Source => Supplied::Source,
            Supply::Nothing => Supplied::Nothing,
        }
    }
}

/// A word as an unsigned scalar.
pub open spec fn unsigned_datum(word: u32) -> Datum {
    Datum { kind: Type::Scalar(super::shader::ScalarType::U32), words: seq![word] }
}

/// What a vertex stage reads. It has no varyings to read: it produces them.
pub open spec fn vertex_supplied(binding: Binding, vertex: u32, instance: u32) -> Supplied {
    match binding {
        Binding::Varying { .. } => Supplied::Nothing,
        Binding::BuiltIn(BuiltIn::VertexIndex) => Supplied::Given(unsigned_datum(vertex)),
        Binding::BuiltIn(BuiltIn::InstanceIndex) => Supplied::Given(unsigned_datum(instance)),
        Binding::BuiltIn(_) => Supplied::Nothing,
        _ => Supplied::Source,
    }
}

/// What a vertex stage reads.
pub fn vertex_input(binding: Binding, vertex: u32, instance: u32) -> (supply: Supply)
    ensures
        supply@ == vertex_supplied(binding, vertex, instance),
{
    match binding {
        Binding::Varying { .. } => Supply::Nothing,
        Binding::BuiltIn(BuiltIn::VertexIndex) => Supply::Given(Val::scalar_u32(vertex)),
        Binding::BuiltIn(BuiltIn::InstanceIndex) => Supply::Given(Val::scalar_u32(instance)),
        Binding::BuiltIn(_) => Supply::Nothing,
        _ => Supply::Source,
    }
}

/// The first slot of a location, from one on.
pub open spec fn slot_of(map: Seq<Slot>, location: u32, from: nat) -> Option<int>
    decreases map.len() - from,
{
    if from >= map.len() {
        None
    } else if map[from as int].location == location {
        Some(from as int)
    } else {
        slot_of(map, location, from + 1)
    }
}

/// Everything a fragment stage reads that the frame supplies.
#[derive(Debug)]
pub struct FragmentInputs {
    pub smooth: Vec<u32>,
    pub noperspective: Vec<u32>,
    pub flat: Vec<u32>,
    pub front_facing: bool,
    pub coordinate: [u32; 4],
    pub sample_index: u32,
    pub sample_mask: u32,
}

impl FragmentInputs {
    /// The interpolated values of a qualifier.
    pub open spec fn values(self, interpolation: Interpolation) -> Seq<u32> {
        match interpolation {
            Interpolation::Smooth => self.smooth@,
            Interpolation::NoPerspective => self.noperspective@,
            Interpolation::Flat => self.flat@,
        }
    }
}

/// The varying a fragment stage reads at a location, where the interpolated values reach that far.
pub open spec fn varying_supplied(map: Seq<Slot>, inputs: FragmentInputs, location: u32) -> Supplied {
    match slot_of(map, location, 0) {
        None => Supplied::Nothing,
        Some(i) => {
            let values = inputs.values(map[i].interpolation);
            if map[i].offset + map[i].count <= values.len() {
                let read = values.subrange(map[i].offset as int, map[i].offset + map[i].count);
                Supplied::Given(
                    Datum {
                        kind: Type::Vector(super::shader::ScalarType::F32, read.len() as u8),
                        words: super::value::inlined(read),
                    },
                )
            } else {
                Supplied::Nothing
            }
        },
    }
}

/// What a fragment stage reads. It has no attributes: it has what was interpolated from them.
pub open spec fn fragment_supplied(binding: Binding, map: Seq<Slot>, inputs: FragmentInputs) -> Supplied {
    match binding {
        Binding::Attribute { .. } => Supplied::Nothing,
        Binding::Varying { location } => varying_supplied(map, inputs, location),
        Binding::BuiltIn(BuiltIn::FragmentCoordinate) => Supplied::Given(
            Datum {
                kind: Type::Vector(super::shader::ScalarType::F32, 4),
                words: super::value::inlined(inputs.coordinate@),
            },
        ),
        Binding::BuiltIn(BuiltIn::FrontFacing) => Supplied::Given(
            Datum {
                kind: Type::Scalar(super::shader::ScalarType::Bool),
                words: seq![
                    if inputs.front_facing {
                        1u32
                    } else {
                        0u32
                    },
                ],
            },
        ),
        Binding::BuiltIn(BuiltIn::SampleIndex) => Supplied::Given(unsigned_datum(inputs.sample_index)),
        Binding::BuiltIn(BuiltIn::SampleMaskIn) => Supplied::Given(unsigned_datum(inputs.sample_mask)),
        Binding::BuiltIn(_) => Supplied::Nothing,
        _ => Supplied::Source,
    }
}

fn read_varying(map: &[Slot], inputs: &FragmentInputs, location: u32) -> (supply: Supply)
    ensures
        supply@ == varying_supplied(map@, *inputs, location),
{
    let mut next: usize = 0;
    while next < map.len()
        invariant
            next <= map@.len(),
            slot_of(map@, location, 0) == slot_of(map@, location, next as nat),
        decreases map@.len() - next,
    {
        if map[next].location == location {
            let slot = map[next];
            let values: &Vec<u32> = match slot.interpolation {
                Interpolation::Smooth => &inputs.smooth,
                Interpolation::NoPerspective => &inputs.noperspective,
                Interpolation::Flat => &inputs.flat,
            };
            let length: usize = values.len();
            if slot.offset <= length && slot.count <= length - slot.offset {
                let read = vstd::slice::slice_subrange(
                    values.as_slice(),
                    slot.offset,
                    slot.offset + slot.count,
                );
                return Supply::Given(Val::vector_f32(read));
            }
            return Supply::Nothing;
        }
        next = next + 1;
    }
    Supply::Nothing
}

/// What a fragment stage reads.
pub fn fragment_input(binding: Binding, map: &[Slot], inputs: &FragmentInputs) -> (supply: Supply)
    ensures
        supply@ == fragment_supplied(binding, map@, *inputs),
{
    match binding {
        Binding::Attribute { .. } => Supply::Nothing,
        Binding::Varying { location } => read_varying(map, inputs, location),
        Binding::BuiltIn(BuiltIn::FragmentCoordinate) => {
            Supply::Given(Val::vector_f32(inputs.coordinate.as_slice()))
        },
        Binding::BuiltIn(BuiltIn::FrontFacing) => Supply::Given(Val::scalar_bool(inputs.front_facing)),
        Binding::BuiltIn(BuiltIn::SampleIndex) => Supply::Given(Val::scalar_u32(inputs.sample_index)),
        Binding::BuiltIn(BuiltIn::SampleMaskIn) => Supply::Given(Val::scalar_u32(inputs.sample_mask)),
        Binding::BuiltIn(_) => Supply::Nothing,
        _ => Supply::Source,
    }
}

// ---------------------------------------------------------------------------------------------
// Commands.
// ---------------------------------------------------------------------------------------------
/// A recorded command.
#[derive(Clone, Copy, PartialEq, Eq, Structural, Debug)]
#[allow(inconsistent_fields)]
pub enum Command {
    BindPipeline(u32),
    Draw { vertices: u32, instances: u32, first_instance: u32 },
    DrawIndexed { indices: u32, instances: u32, base_vertex: i32, first_instance: u32 },
    /// Any command that draws nothing and binds no pipeline.
    Other,
}

/// The pipeline bound after the first `count` commands.
pub open spec fn bound(commands: Seq<Command>, count: nat) -> u32
    decreases count,
{
    if count == 0 {
        0
    } else {
        match commands[count - 1] {
            Command::BindPipeline(handle) => handle,
            _ => bound(commands, (count - 1) as nat),
        }
    }
}

/// The draws of the first `count` commands, in order, each with the pipeline bound where it stands.
pub open spec fn drawn(commands: Seq<Command>, topology: Topology, count: nat) -> Seq<Draw>
    decreases count,
{
    if count == 0 {
        Seq::empty()
    } else {
        let before = drawn(commands, topology, (count - 1) as nat);
        let pipeline = bound(commands, (count - 1) as nat);
        match commands[count - 1] {
            Command::Draw { vertices, instances, first_instance } => before.push(
                Draw {
                    pipeline,
                    topology,
                    count: vertices,
                    instances,
                    first_instance,
                    base_vertex: 0,
                    restart: false,
                },
            ),
            Command::DrawIndexed { indices, instances, base_vertex, first_instance } => before.push(
                Draw {
                    pipeline,
                    topology,
                    count: indices,
                    instances,
                    first_instance,
                    base_vertex,
                    restart: false,
                },
            ),
            _ => before,
        }
    }
}

/// The commands a caller recorded, turned into the plan's draws.
pub fn draws_from(commands: &[Command], topology: Topology) -> (draws: Vec<Draw>)
    ensures
        draws@ == drawn(commands@, topology, commands@.len()),
{
    let mut draws: Vec<Draw> = Vec::new();
    let mut pipeline: u32 = 0;
    let mut next: usize = 0;
    while next < commands.len()
        invariant
            next <= commands@.len(),
            pipeline == bound(commands@, next as nat),
            draws@ == drawn(commands@, topology, next as nat),
        decreases commands@.len() - next,
    {
        match commands[next] {
            Command::BindPipeline(handle) => {
                pipeline = handle;
            },
            Command::Draw { vertices, instances, first_instance } => {
                draws.push(
                    Draw {
                        pipeline,
                        topology,
                        count: vertices,
                        instances,
                        first_instance,
                        base_vertex: 0,
                        restart: false,
                    },
                );
            },
            Command::DrawIndexed { indices, instances, base_vertex, first_instance } => {
                draws.push(
                    Draw {
                        pipeline,
                        topology,
                        count: indices,
                        instances,
                        first_instance,
                        base_vertex,
                        restart: false,
                    },
                );
            },
            Command::Other => {},
        }
        next = next + 1;
    }
    draws
}

// ---------------------------------------------------------------------------------------------
// Laws of the stages and the plan.
// ---------------------------------------------------------------------------------------------
/// Whether a vertex stage wrote every varying it declares, with as many components as the varying's type has.
pub open spec fn all_written(varyings: Seq<Varying>, written: Seq<(u32, Val)>, floats: Seq<Vec<u32>>) -> bool {
    forall|k: int|
        0 <= k < varyings.len() ==> (written_at(written, (#[trigger] varyings[k]).location, 0) matches Some(i) && 0 <= i
            < floats.len() && floats[i]@.len() == varyings[k].kind.size())
}

proof fn packing_counts(
    varyings: Seq<Varying>,
    interpolation: Interpolation,
    written: Seq<(u32, Val)>,
    floats: Seq<Vec<u32>>,
    count: nat,
)
    requires
        count <= varyings.len(),
        all_written(varyings, written, floats),
    ensures
        packed(varyings, interpolation, written, floats, count).len() == components(varyings, interpolation, count),
    decreases count,
{
    if count > 0 {
        packing_counts(varyings, interpolation, written, floats, (count - 1) as nat);
        assert(varyings[count - 1].location == varyings[count - 1].location);
    }
}

proof fn packing_keeps(
    varyings: Seq<Varying>,
    written: Seq<(u32, Val)>,
    floats: Seq<Vec<u32>>,
    k: int,
    count: nat,
)
    requires
        0 <= k < count <= varyings.len(),
        all_written(varyings, written, floats),
    ensures
        ({
            let interpolation = varyings[k].interpolation;
            let from = components(varyings, interpolation, k as nat);
            let value = floats[written_at(written, varyings[k].location, 0)->Some_0]@;
            let list = packed(varyings, interpolation, written, floats, count);
            &&& 0 <= from && from + value.len() <= list.len()
            &&& list.subrange(from, from + value.len()) == value
        }),
    decreases count,
{
    let interpolation = varyings[k].interpolation;
    let from = components(varyings, interpolation, k as nat);
    let value = floats[written_at(written, varyings[k].location, 0)->Some_0]@;
    let list = packed(varyings, interpolation, written, floats, count);
    let before = packed(varyings, interpolation, written, floats, (count - 1) as nat);
    packing_counts(varyings, interpolation, written, floats, (count - 1) as nat);
    if k < count - 1 {
        packing_keeps(varyings, written, floats, k, (count - 1) as nat);
        assert(list.subrange(from, from + value.len()) =~= before.subrange(from, from + value.len()));
    } else {
        assert(varyings[k].location == varyings[k].location);
        assert(list.subrange(from, from + value.len()) =~= value);
    }
}

/// What the vertex stage wrote to a location is what the fragment stage reads there: where the values of each qualifier
/// are one vertex's own, as they are at that vertex, a varying read by its location is the value written to it.
pub proof fn a_varying_is_read_where_it_was_written(
    varyings: Seq<Varying>,
    written: Seq<(u32, Val)>,
    floats: Seq<Vec<u32>>,
    inputs: FragmentInputs,
    k: int,
)
    requires
        0 <= k < varyings.len(),
        all_written(varyings, written, floats),
        forall|i: int, j: int|
            0 <= i < j < varyings.len() ==> (#[trigger] varyings[i]).location != (#[trigger] varyings[j]).location,
        inputs.smooth@ == packed(varyings, Interpolation::Smooth, written, floats, varyings.len()),
        inputs.noperspective@ == packed(varyings, Interpolation::NoPerspective, written, floats, varyings.len()),
        inputs.flat@ == packed(varyings, Interpolation::Flat, written, floats, varyings.len()),
        inputs.smooth@.len() <= 32 && inputs.noperspective@.len() <= 32 && inputs.flat@.len() <= 32,
        varyings[k].kind.size() <= 16,
    ensures
        ({
            let value = floats[written_at(written, varyings[k].location, 0)->Some_0]@;
            varying_supplied(slots(varyings), inputs, varyings[k].location) matches Supplied::Given(read) && read.words
                == value && written[written_at(written, varyings[k].location, 0)->Some_0].0 == varyings[k].location
        }),
{
    let map = slots(varyings);
    let interpolation = varyings[k].interpolation;
    let value = floats[written_at(written, varyings[k].location, 0)->Some_0]@;
    packing_keeps(varyings, written, floats, k, varyings.len());
    a_location_is_found(map, varyings[k].location, 0, k);
    a_written_value_is_found(written, varyings[k].location, 0);
    let list = packed(varyings, interpolation, written, floats, varyings.len());
    assert(inputs.values(interpolation) == list);
    assert(varyings[k].location == varyings[k].location);
    assert(map[k].offset == components(varyings, interpolation, k as nat));
    assert(map[k].count == value.len());
    assert(super::value::inlined(value) =~= value);
}

proof fn a_location_is_found(map: Seq<Slot>, location: u32, from: nat, k: int)
    requires
        from <= k < map.len(),
        map[k].location == location,
        forall|i: int, j: int| 0 <= i < j < map.len() ==> (#[trigger] map[i]).location != (#[trigger] map[j]).location,
    ensures
        slot_of(map, location, from) == Some(k),
    decreases k - from,
{
    if from < k {
        assert(map[from as int].location != map[k].location);
        a_location_is_found(map, location, from + 1, k);
    }
}

proof fn a_written_value_is_found(written: Seq<(u32, Val)>, location: u32, from: nat)
    ensures
        written_at(written, location, from) matches Some(i) ==> from <= i < written.len() && written[i].0 == location,
        written_at(written, location, from) is None ==> forall|i: int|
            from <= i < written.len() ==> (#[trigger] written[i]).0 != location,
    decreases written.len() - from,
{
    if from < written.len() {
        a_written_value_is_found(written, location, from + 1);
    }
}

/// A stage is told what it asks for and nothing it has not: the vertex stage its vertex and its instance, the fragment
/// stage its place, its side, its sample and its coverage; the vertex stage reads no varyings and the fragment stage no
/// attributes.
pub proof fn a_stage_is_told_its_own(
    vertex: u32,
    instance: u32,
    map: Seq<Slot>,
    inputs: FragmentInputs,
    location: u32,
    block: u32,
    member: u32,
)
    ensures
        vertex_supplied(Binding::BuiltIn(BuiltIn::VertexIndex), vertex, instance) matches Supplied::Given(value)
            && value.words =~= seq![vertex],
        vertex_supplied(Binding::BuiltIn(BuiltIn::InstanceIndex), vertex, instance) matches Supplied::Given(value)
            && value.words =~= seq![instance],
        vertex_supplied(Binding::Varying { location }, vertex, instance) is Nothing,
        vertex_supplied(Binding::Attribute { location }, vertex, instance) is Source,
        vertex_supplied(Binding::Uniform { block, member }, vertex, instance) is Source,
        fragment_supplied(Binding::BuiltIn(BuiltIn::FragmentCoordinate), map, inputs) matches Supplied::Given(value)
            && value.words =~= inputs.coordinate@,
        fragment_supplied(Binding::BuiltIn(BuiltIn::FrontFacing), map, inputs) matches Supplied::Given(value)
            && value.words.len() == 1 && (value.words[0] != 0 <==> inputs.front_facing),
        fragment_supplied(Binding::BuiltIn(BuiltIn::SampleIndex), map, inputs) matches Supplied::Given(value)
            && value.words =~= seq![inputs.sample_index],
        fragment_supplied(Binding::BuiltIn(BuiltIn::SampleMaskIn), map, inputs) matches Supplied::Given(value)
            && value.words =~= seq![inputs.sample_mask],
        fragment_supplied(Binding::BuiltIn(BuiltIn::VertexIndex), map, inputs) is Nothing,
        fragment_supplied(Binding::BuiltIn(BuiltIn::InstanceIndex), map, inputs) is Nothing,
        vertex_supplied(Binding::BuiltIn(BuiltIn::FragmentCoordinate), vertex, instance) is Nothing,
        fragment_supplied(Binding::Attribute { location }, map, inputs) is Nothing,
        fragment_supplied(Binding::Uniform { block, member }, map, inputs) is Source,
{
}

/// The pipeline bound at a command is the one of the last binding before it.
pub proof fn the_last_binding_is_bound(commands: Seq<Command>, count: nat, i: int)
    requires
        0 <= i < count <= commands.len(),
        commands[i] is BindPipeline,
        forall|j: int| i < j < count ==> !((#[trigger] commands[j]) is BindPipeline),
    ensures
        commands[i] == Command::BindPipeline(bound(commands, count)),
    decreases count,
{
    if i < count - 1 {
        assert(!(commands[count - 1] is BindPipeline));
        the_last_binding_is_bound(commands, (count - 1) as nat, i);
    }
}

/// Every draw that is recorded becomes one draw of the plan, in order and with its own numbers and the pipeline bound
/// where it stands; no other command does.
pub proof fn every_recorded_draw_is_planned(commands: Seq<Command>, topology: Topology, i: int)
    requires
        0 <= i < commands.len(),
    ensures
        ({
            let before = drawn(commands, topology, i as nat);
            let after = drawn(commands, topology, (i + 1) as nat);
            let pipeline = bound(commands, i as nat);
            match commands[i] {
                Command::Draw { vertices, instances, first_instance } => after.len() == before.len() + 1
                    && after.drop_last() =~= before && after.last().count == vertices && after.last().instances
                    == instances && after.last().first_instance == first_instance && after.last().base_vertex == 0
                    && after.last().pipeline == pipeline && after.last().topology == topology && !after.last().restart,
                Command::DrawIndexed { indices, instances, base_vertex, first_instance } => after.len() == before.len()
                    + 1 && after.drop_last() =~= before && after.last().count == indices && after.last().instances
                    == instances && after.last().first_instance == first_instance && after.last().base_vertex
                    == base_vertex && after.last().pipeline == pipeline && after.last().topology == topology
                    && !after.last().restart,
                _ => after == before,
            }
        }),
        drawn(commands, topology, 0).len() == 0,
{
}

/// A pass takes its attachments where there is one of colour at least and every one, the depth one too, has the first
/// one's extent and samples.
pub proof fn attachments_are_taken_alike(
    colour: Seq<Colour>,
    depth_stencil: Option<DepthStencil>,
    ceiling: u32,
)
    requires
        colour.len() > 0,
    ensures
        attachments_refusal(colour, depth_stencil, ceiling) is None <==> {
            &&& forall|i: int|
                0 <= i < colour.len() ==> (#[trigger] colour[i]).width == colour[0].width && colour[i].height
                    == colour[0].height && colour[i].samples == colour[0].samples
            &&& depth_stencil matches Some(buffer) ==> buffer.width == colour[0].width && buffer.height
                == colour[0].height && buffer.samples == colour[0].samples
        },
{
    a_misshapen_attachment_is_found(colour, colour[0].width, colour[0].height, colour[0].samples, 0);
}

proof fn a_misshapen_attachment_is_found(colour: Seq<Colour>, width: u32, height: u32, samples: u32, from: nat)
    ensures
        first_misshapen(colour, width, height, samples, from) is None ==> forall|i: int|
            from <= i < colour.len() ==> (#[trigger] colour[i]).width == width && colour[i].height == height
                && colour[i].samples == samples,
        first_misshapen(colour, width, height, samples, from) matches Some(i) ==> from <= i < colour.len() && !(
        colour[i].width == width && colour[i].height == height && colour[i].samples == samples),
    decreases colour.len() - from,
{
    if from < colour.len() {
        a_misshapen_attachment_is_found(colour, width, height, samples, from + 1);
    }
}

/// A pipeline is taken where its stages stand in their places, the validator takes both, everything the fragment stage
/// reads is written, no qualifier has more than thirty-two components, and the shading rate is the one its fragment stage
/// asks for; a draw where its pipeline is there and it has an instance.
pub proof fn a_plan_is_taken_as_a_whole(pipeline: Pipeline, accepted: (bool, bool), draw: Draw, pipelines: nat)
    ensures
        pipeline_refusal(pipeline, accepted) is None <==> {
            &&& pipeline.vertex.stage is Vertex && pipeline.fragment.stage is Fragment
            &&& accepted.0 && accepted.1
            &&& forall|i: int|
                0 <= i < pipeline.fragment.varyings@.len() ==> exists|j: int|
                    0 <= j < pipeline.vertex.varyings@.len() && (
                    #[trigger] pipeline.vertex.varyings@[j]).location == (
                    #[trigger] pipeline.fragment.varyings@[i]).location && pipeline.vertex.varyings@[j].kind
                        == pipeline.fragment.varyings@[i].kind
            &&& components(pipeline.vertex.varyings@, Interpolation::Smooth, pipeline.vertex.varyings@.len()) <= 32
            &&& components(pipeline.vertex.varyings@, Interpolation::NoPerspective, pipeline.vertex.varyings@.len()) <= 32
            &&& components(pipeline.vertex.varyings@, Interpolation::Flat, pipeline.vertex.varyings@.len()) <= 32
            &&& samples_apart(pipeline.fragment) == pipeline.state.per_sample_shading
        },
        draw_refusal(draw, pipelines) is None <==> draw.pipeline < pipelines && draw.instances >= 1,
{
    let (vertex, fragment) = (pipeline.vertex, pipeline.fragment);
    assert(agree(vertex, fragment) <==> forall|i: int|
        0 <= i < fragment.varyings@.len() ==> exists|j: int|
            0 <= j < vertex.varyings@.len() && (#[trigger] vertex.varyings@[j]).location == (
            #[trigger] fragment.varyings@[i]).location && vertex.varyings@[j].kind == fragment.varyings@[i].kind) by {
        assert forall|i: int| 0 <= i < fragment.varyings@.len() implies (writes(vertex, fragment.varyings@[i])
            <==> exists|j: int|
            0 <= j < vertex.varyings@.len() && (#[trigger] vertex.varyings@[j]).location == (
            #[trigger] fragment.varyings@[i]).location && vertex.varyings@[j].kind == fragment.varyings@[i].kind) by {}
    }
}


/// A draw is taken into a pass where its pipeline is for as many samples as the pass has, and has a blend state for each
/// attachment at least.
pub proof fn a_draw_is_for_its_pass(pipeline: Pipeline, samples: u32, attachments: nat)
    ensures
        draw_mismatch(pipeline, samples, attachments) is None <==> samples == pipeline.state.samples && attachments
            <= pipeline.blend@.len(),
        draw_mismatch(pipeline, samples, attachments) == Some(
            Error::IncompatiblePipeline { reason: PipelineFault::SampleCount },
        ) <==> samples != pipeline.state.samples,
{
}


/// What a stage reads outside, misses or is refused by a texture is told apart, and everything else is the shader's.
pub proof fn a_fault_is_told_by_its_kind(fault: Fault)
    ensures
        refusal_of(fault) is InvalidTexture <==> fault is SampleFailed,
        refusal_of(fault) == (Error::InvalidShader { reason: ShaderFault::IndexedOutside }) <==> fault is IndexOutOfRange,
        refusal_of(fault) == (Error::InvalidShader { reason: ShaderFault::MissingBinding }) <==> fault is MissingBinding,
        refusal_of(fault) is InvalidTexture || refusal_of(fault) is InvalidShader,
{
}

} // verus!
