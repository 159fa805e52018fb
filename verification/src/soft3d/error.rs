//! Why a draw was refused.
use vstd::prelude::*;

verus! {

/// What is wrong with a mesh.
#[derive(Clone, Copy, PartialEq, Eq, Structural, Debug)]
#[allow(inconsistent_fields)]
pub enum MeshFault {
    /// An index with no vertex behind it.
    IndexOutOfRange { index: u32, vertices: u32 },
    /// A draw of fewer than it needs: an instanced draw needs one instance.
    TooFewVertices { needs: u32, has: u32 },
}

/// What is wrong with the state of a draw.
#[derive(Clone, Copy, PartialEq, Eq, Structural, Debug)]
pub enum StateFault {
    /// Primitive restart on a list topology, which has nothing to restart.
    RestartOnList,
    /// A draw naming a pipeline the plan does not hold.
    NoSuchPipeline,
    /// A depth-compare sample through a sampler with no comparison.
    NoComparison,
}

/// Which bound was passed.
#[derive(Clone, Copy, PartialEq, Eq, Structural, Debug)]
pub enum Limit {
    VaryingComponents,
    ClippedVertices,
    RasterExtent,
}

/// What is wrong with a shader.
#[derive(Clone, Copy, PartialEq, Eq, Structural, Debug)]
pub enum ShaderFault {
    /// A pipeline whose stages are the wrong way round.
    StagesSwapped,
    /// A vertex module the validator refuses.
    VertexRefused,
    /// A fragment module the validator refuses.
    FragmentRefused,
    /// A fragment stage reading a varying location the vertex stage does not write with the same type.
    UnwrittenVarying,
    /// A vertex stage that produced no position.
    NoPosition,
    /// A shader indexed outside an array at runtime.
    IndexedOutside,
    /// A shader read a binding the frame does not supply.
    MissingBinding,
    /// A shader the interpreter refused.
    Refused,
}

/// What about a pipeline does not fit.
#[derive(Clone, Copy, PartialEq, Eq, Structural, Debug)]
pub enum PipelineFault {
    /// A shading rate that disagrees with the fragment stage's inputs.
    ShadingRate,
    /// A sample count that disagrees with the pass's attachments.
    SampleCount,
    /// Fewer blend states than the pass has colour attachments.
    TooFewBlendStates,
}

/// What is wrong with the attachments of a pass.
#[derive(Clone, Copy, PartialEq, Eq, Structural, Debug)]
#[allow(inconsistent_fields)]
pub enum AttachmentFault {
    TooMany { count: u32, ceiling: u32 },
    ExtentMismatch { width: u32, height: u32, expected_width: u32, expected_height: u32 },
    SampleCountMismatch { samples: u32, expected: u32 },
}

/// What is wrong with a read of a texture.
#[derive(Clone, Copy, PartialEq, Eq, Structural, Debug)]
pub enum TextureFault {
    /// A level the texture does not have.
    NoSuchLevel,
    /// An array layer the texture does not have.
    NoSuchLayer,
    /// A read the sampler refused.
    ReadRefused,
}

/// What an attachment was asked to be that its format cannot.
#[derive(Clone, Copy, PartialEq, Eq, Structural, Debug)]
pub enum FormatFault {
    /// An integer attachment used as a blend target.
    IntegerBlend,
}

/// A refusal of the 3D renderer.
#[derive(Clone, Copy, PartialEq, Eq, Structural, Debug)]
#[allow(inconsistent_fields)]
pub enum Error {
    InvalidMesh { reason: MeshFault },
    InvalidRenderState { reason: StateFault },
    InvalidTransform,
    LimitExceeded { limit: Limit, ceiling: u64, asked: u64 },
    InvalidShader { reason: ShaderFault },
    IncompatiblePipeline { reason: PipelineFault },
    TargetMismatch { reason: AttachmentFault },
    InvalidTexture { reason: TextureFault },
    UnsupportedFormat { reason: FormatFault },
    /// A clip-space position that is not finite.
    NonFinite,
    /// A sample count with no sample positions.
    UnsupportedSampleCount { samples: u32 },
}

} // verus!
