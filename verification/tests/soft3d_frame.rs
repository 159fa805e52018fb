//! Whole frames: a plan is prepared and run, the stages interpreted and everything in floating point computed
//! here.
use softgraphics::soft3d::arithmetic::{FloatOp, FloatWork};
use softgraphics::soft3d::attach;
use softgraphics::soft3d::attach::Entry;
use softgraphics::soft3d::clip;
use softgraphics::soft3d::clip::{Classification, Clipped, Clipping, Crossing, Pass, Varyings, Vertex};
use softgraphics::soft3d::error::{AttachmentFault, Error, Limit, MeshFault, PipelineFault, ShaderFault, StateFault, TextureFault};
use softgraphics::soft3d::execute::{Execution, Phase};
use softgraphics::soft3d::fixed;
use softgraphics::soft3d::fixed::Subpixel;
use softgraphics::soft3d::frame;
use softgraphics::soft3d::frame::{Command, Draw, FragmentInputs, Pipeline, PipelineState, Prepared, Shaded, Stats, Supply};
use softgraphics::soft3d::geometry;
use softgraphics::soft3d::geometry::{Indices, Primitive, Topology};
use softgraphics::soft3d::interpreter;
use softgraphics::soft3d::interpreter::{Answer, Fault, Machine, Outputs, Request, Stop};
use softgraphics::soft3d::pass::{AttachmentBlend, Colour, DepthFormat, DepthStencil, Fragment};
use softgraphics::soft3d::raster;
use softgraphics::soft3d::raster::{Cull, Facing, SamplePosition, SampleTable};
use softgraphics::soft3d::shade;
use softgraphics::soft3d::shade::{Lit, Projected, Scissor, Value as Written};
use softgraphics::soft3d::shader::{Binding, Constant, Interpolation, Module, Op, Output, Sampling, ScalarType, Stage, Stmt, Transcendental, Type, Value, Varying};
use softgraphics::soft3d::state::{CompareOp, StencilFace, StencilOp, Stored, WriteMask};
use softgraphics::soft3d::value::Val;

fn near(left: f32, right: f32) -> bool {
    (left - right).abs() <= 1e-4
}

fn f(bits: u32) -> f32 {
    f32::from_bits(bits)
}

fn vector(values: &[f32]) -> Val {
    let bits: Vec<u32> = values.iter().map(|value| value.to_bits()).collect();
    Val::vector_f32(&bits)
}

// What a draw reads.

trait Source {
    fn attribute(&self, location: u32, vertex: u32, instance: u32) -> Option<Val>;
    fn indices(&self) -> Indices<'_>;
}

struct Mesh {
    positions: Vec<[f32; 4]>,
    colours: Vec<[f32; 4]>,
    /// Added to every position once per instance.
    instance_offset: [f32; 4],
}

impl Source for Mesh {
    fn attribute(&self, location: u32, vertex: u32, instance: u32) -> Option<Val> {
        match location {
            0 => {
                let base = self.positions.get(vertex as usize)?;
                let shift = instance as f32;
                Some(vector(&[0, 1, 2, 3].map(|axis: usize| base[axis] + self.instance_offset[axis] * shift)))
            }
            1 => self.colours.get(vertex as usize).map(|colour| vector(colour)),
            _ => None,
        }
    }

    fn indices(&self) -> Indices<'_> {
        Indices::Sequential
    }
}

// The stages.

fn compute(work: &FloatWork) -> Vec<u32> {
    let each = |g: &dyn Fn(f32, f32) -> f32| -> Vec<u32> { work.lanes.iter().map(|(a, b, _)| g(f(*a), f(*b)).to_bits()).collect() };
    match work.op {
        FloatOp::Add => each(&|a, b| a + b),
        FloatOp::Multiply => each(&|a, b| a * b),
        _ => unreachable!("the shaders of this file compute nothing else"),
    }
}

fn run_stage(module: &Module, input: &dyn Fn(Binding) -> Option<Val>, machine: &mut Machine) -> Result<(), Error> {
    let mut answers: Vec<Answer> = Vec::new();
    loop {
        match interpreter::execute_into(module, &answers, machine) {
            Ok(()) => return Ok(()),
            Err(Stop::Fault(met)) => return Err(frame::fault(met)),
            Err(Stop::Pending(request)) => answers.push(match request {
                Request::Input(binding) => Answer::Value(input(binding)),
                Request::Sample { .. } => Answer::Value(None),
                Request::Arithmetic(work) => Answer::Words(compute(&work)),
            }),
        }
    }
}

fn components(value: &Val) -> Vec<u32> {
    match value.scalar_type() {
        ScalarType::F32 => value.words().to_vec(),
        ScalarType::I32 => value.words().iter().map(|word| (*word as i32 as f32).to_bits()).collect(),
        ScalarType::U32 => value.words().iter().map(|word| (*word as f32).to_bits()).collect(),
        ScalarType::Bool => value.words().iter().map(|word| ((*word != 0) as u32 as f32).to_bits()).collect(),
    }
}

fn run_vertex(pipeline: &Pipeline, source: &dyn Source, vertex: u32, instance: u32, machine: &mut Machine) -> Result<Shaded, Error> {
    let input = |binding: Binding| match frame::vertex_input(binding, vertex, instance) {
        Supply::Given(value) => Some(value),
        Supply::Nothing => None,
        Supply::Source => match binding {
            Binding::Attribute { location } => source.attribute(location, vertex, instance),
            _ => None,
        },
    };
    run_stage(&pipeline.vertex, &input, machine)?;
    let outputs = machine.outputs();
    let floats: Vec<Vec<u32>> = outputs.varyings.iter().map(|(_, value)| components(value)).collect();
    frame::shade_vertex(&pipeline.vertex, outputs, &floats)
}

// Clipping.

fn position(vertex: &Vertex) -> [f32; 4] {
    vertex.position.map(f32::from_bits)
}

fn distance(plane: usize, p: [f32; 4]) -> f32 {
    match plane {
        0 => p[3] - 1e-6,
        1 => p[2],
        2 => p[3] - p[2],
        3 => p[0] + p[3],
        4 => p[3] - p[0],
        5 => p[1] + p[3],
        _ => p[3] - p[1],
    }
}

fn inside_volume(p: [f32; 4]) -> bool {
    (0..clip::PLANES).all(|plane| distance(plane, p) >= 0.0)
}

fn classify(vertices: &[Vertex; 3]) -> Result<Classification, Error> {
    let positions: Vec<[f32; 4]> = vertices.iter().map(position).collect();
    if positions.iter().any(|p| p.iter().any(|c| !c.is_finite())) {
        return Err(Error::NonFinite);
    }
    if positions.iter().all(|p| p[3] <= 0.0) {
        return Ok(Classification::BehindEye);
    }
    if (0..clip::PLANES).any(|plane| positions.iter().all(|p| distance(plane, *p) < 0.0)) {
        return Ok(Classification::Outside);
    }
    if positions.iter().all(|p| inside_volume(*p)) {
        return Ok(Classification::Inside);
    }
    Ok(Classification::Clipped)
}

fn lerp_all(from: &Varyings, to: &Varyings, at: f32) -> Varyings {
    let mixed: Vec<u32> = from.as_slice().iter().zip(to.as_slice()).map(|(a, b)| ((1.0 - at) * f(*a) + at * f(*b)).to_bits()).collect();
    Varyings::from_slice(&mixed).unwrap()
}

fn intersect(from: &Vertex, to: &Vertex, t: f32) -> Vertex {
    let (a, b) = (position(from), position(to));
    let mixed = [0, 1, 2, 3].map(|axis: usize| ((1.0 - t) * a[axis] + t * b[axis]).to_bits());
    let denominator = (1.0 - t) * a[3] + t * b[3];
    let u = if denominator == 0.0 || !denominator.is_finite() { t } else { t * b[3] / denominator };
    Vertex::new(mixed).with_smooth(lerp_all(&from.smooth, &to.smooth, t)).with_noperspective(lerp_all(&from.noperspective, &to.noperspective, u))
}

fn clip_triangle(vertices: &[Vertex; 3], flat: Varyings) -> Result<Clipped, Error> {
    let classified = classify(vertices);
    let mut passes: Vec<Pass> = Vec::new();
    loop {
        match clip::clip_triangle(vertices, flat, classified, &passes)? {
            Clipping::Finished(clipped) => return Ok(clipped),
            Clipping::Pending { plane, polygon } => {
                let distances: Vec<f32> = polygon.iter().map(|vertex| distance(plane, position(vertex))).collect();
                let crossings = (0..polygon.len())
                    .map(|index| {
                        let next = (index + 1) % polygon.len();
                        let denominator = distances[index] - distances[next];
                        let vertex = if denominator == 0.0 { polygon[index] } else { intersect(&polygon[index], &polygon[next], distances[index] / denominator) };
                        Crossing { denominator: denominator.to_bits(), vertex }
                    })
                    .collect();
                passes.push(Pass { distances: distances.iter().map(|d| d.to_bits()).collect(), crossings });
            }
        }
    }
}

type View = [f32; 4];

fn viewport(width: f32, height: f32) -> View {
    [0.0, 0.0, width, height]
}

fn project(clip: [u32; 4], view: &View) -> Result<Projected, Error> {
    if let Some(error) = shade::refuse_projection(clip) {
        return Err(error);
    }
    let p = clip.map(f32::from_bits);
    let inverse_w = 1.0 / p[3];
    let x = view[0] + (p[0] * inverse_w + 1.0) * 0.5 * view[2];
    let y = view[1] + (1.0 - p[1] * inverse_w) * 0.5 * view[3];
    let depth = p[2] * inverse_w;
    if !x.is_finite() || !y.is_finite() || !depth.is_finite() {
        return Err(Error::InvalidTransform);
    }
    Ok(Projected { x: x.to_bits(), y: y.to_bits(), depth: depth.to_bits(), inverse_w: inverse_w.to_bits() })
}

// Interpolation.

fn smooth(weights: [f32; 3], inverse_w: [f32; 3], values: [f32; 3]) -> f32 {
    let denominator = weights[0] * inverse_w[0] + weights[1] * inverse_w[1] + weights[2] * inverse_w[2];
    if denominator == 0.0 || !denominator.is_finite() {
        return values[0];
    }
    (weights[0] * inverse_w[0] * values[0] + weights[1] * inverse_w[1] * values[1] + weights[2] * inverse_w[2] * values[2]) / denominator
}

fn linear(weights: [f32; 3], values: [f32; 3]) -> f32 {
    weights[0] * values[0] + weights[1] * values[1] + weights[2] * values[2]
}

fn interpolated(lists: [&[u32]; 3], with: &dyn Fn([f32; 3]) -> f32) -> Vec<u32> {
    (0..lists[0].len()).map(|index| with([f(lists[0][index]), f(lists[1][index]), f(lists[2][index])]).to_bits()).collect()
}

fn line_parameter(from: (Subpixel, Subpixel), to: (Subpixel, Subpixel), x: i64, y: i64) -> f32 {
    let (at, whole) = geometry::line_parameter(from, to, x, y);
    (at as f64 / whole as f64) as f32
}

// Running a plan.

fn table() -> SampleTable {
    let at = |x: i64, y: i64, index: u32| SamplePosition { x, y, index };
    SampleTable { entries: vec![(1, vec![at(128, 128, 0)]), (4, vec![at(96, 32, 0), at(224, 96, 1), at(32, 160, 2), at(160, 224, 3)])] }
}

fn stage(run: &mut Execution, plan: &Prepared, primitive: Primitive, source: &dyn Source, view: &View, machine: &mut Machine) -> Result<(), Error> {
    let draw = plan.draws[run.draw];
    let pipeline = &plan.pipelines[draw.pipeline as usize];
    let instance = run.instance_index(plan);
    let corner = |shaded: &Shaded| Vertex::new(shaded.position).with_smooth(shaded.smooth).with_noperspective(shaded.noperspective);
    match primitive {
        Primitive::Triangle { vertices, .. } => {
            let shaded = vertices.map(|vertex| run_vertex(pipeline, source, vertex, instance, machine));
            let shaded = [shaded[0]?, shaded[1]?, shaded[2]?];
            let flat = shaded[shade::flat_vertex(&primitive)].flat;
            let clipped = clip_triangle(&[corner(&shaded[0]), corner(&shaded[1]), corner(&shaded[2])], flat)?;
            let projected: Vec<Result<Projected, Error>> = clipped.vertices().iter().map(|vertex| project(vertex.position, view)).collect();
            run.stage_triangle(plan, &clipped, &projected)
        }
        Primitive::Line { vertices, .. } => {
            let shaded = vertices.map(|vertex| run_vertex(pipeline, source, vertex, instance, machine));
            let shaded = [shaded[0]?, shaded[1]?];
            let flat = shaded[shade::flat_vertex(&primitive)].flat;
            let clipped = clip_triangle(&[corner(&shaded[0]), corner(&shaded[1]), corner(&shaded[1])], flat)?;
            let projected: Vec<Result<Projected, Error>> = clipped.vertices().iter().map(|vertex| project(vertex.position, view)).collect();
            run.stage_line(plan, &clipped, &projected)
        }
        Primitive::Point { vertex, .. } => {
            let shaded = run_vertex(pipeline, source, vertex, instance, machine)?;
            let inside = inside_volume(shaded.position.map(f32::from_bits));
            let size = geometry::point_size(shaded.point_size);
            run.stage_point(plan, inside, project(shaded.position, view), size, shaded.smooth, shaded.noperspective, shaded.flat)
        }
    }
}

/// What the fragment stage reads at a pixel, the depth there and the coverage the write starts from.
fn inputs_at(run: &Execution, lit: &Lit) -> (FragmentInputs, f32, u32) {
    let (x, y) = (lit.x as f32 + 0.5, lit.y as f32 + 0.5);
    match run.phase {
        Phase::Tiles => {
            let binned = &run.triangles[lit.primitive as usize];
            let centre = |at: i64| Subpixel(at * fixed::SUBPIXEL_ONE + fixed::SUBPIXEL_HALF);
            let numerators = raster::barycentric(&binned.setup, (centre(lit.x), centre(lit.y)));
            let weights = numerators.map(|edge| (edge as f64 / binned.setup.double_area as f64) as f32);
            let inverse_w = binned.setup.inverse_w.map(f32::from_bits);
            let depth = linear(weights, binned.setup.depth.map(f32::from_bits));
            let list = |of: &[Varyings; 3], with: &dyn Fn([f32; 3]) -> f32| interpolated([of[0].as_slice(), of[1].as_slice(), of[2].as_slice()], with);
            let inputs = FragmentInputs {
                smooth: list(&binned.smooth, &|values| smooth(weights, inverse_w, values)),
                noperspective: list(&binned.noperspective, &|values| linear(weights, values)),
                flat: binned.flat.as_slice().to_vec(),
                front_facing: binned.setup.facing == Facing::Front,
                coordinate: [x, y, depth, linear(weights, inverse_w)].map(f32::to_bits),
                sample_index: 0,
                sample_mask: lit.coverage,
            };
            (inputs, depth, lit.coverage)
        }
        Phase::Lines => {
            let segment = &run.segments[lit.primitive as usize];
            let at = line_parameter(segment.from, segment.to, lit.x, lit.y);
            let weights = [1.0 - at, at, 0.0];
            let inverse_w = [f(segment.inverse_w[0]), f(segment.inverse_w[1]), 1.0];
            let depth = linear(weights, [f(segment.depth[0]), f(segment.depth[1]), 0.0]);
            let list = |of: &[Varyings; 2], with: &dyn Fn([f32; 3]) -> f32| -> Vec<u32> {
                of[0].as_slice().iter().zip(of[1].as_slice()).map(|(a, b)| with([f(*a), f(*b), 0.0]).to_bits()).collect()
            };
            let inputs = FragmentInputs {
                smooth: list(&segment.smooth, &|values| smooth(weights, inverse_w, values)),
                noperspective: list(&segment.noperspective, &|values| linear(weights, values)),
                flat: segment.flat.as_slice().to_vec(),
                front_facing: true,
                coordinate: [x, y, depth, 1.0].map(f32::to_bits),
                sample_index: 0,
                sample_mask: u32::MAX,
            };
            (inputs, depth, shade::full_coverage(run.samples))
        }
        _ => {
            let dot = &run.points[lit.primitive as usize];
            let inputs = FragmentInputs {
                smooth: dot.smooth.as_slice().to_vec(),
                noperspective: dot.noperspective.as_slice().to_vec(),
                flat: dot.flat.as_slice().to_vec(),
                front_facing: true,
                coordinate: [x, y, f(dot.depth), 1.0].map(f32::to_bits),
                sample_index: 0,
                sample_mask: lit.coverage,
            };
            (inputs, f(dot.depth), lit.coverage)
        }
    }
}

struct Target<'a> {
    colour: &'a mut Vec<Colour>,
    depth: &'a mut Option<DepthStencil>,
}

/// The mask an alpha narrows coverage to: so many of the samples.
fn alpha_mask(alpha: f32, samples: u32) -> u32 {
    (1_u32 << (alpha.clamp(0.0, 1.0) * samples as f32).round() as u32) - 1
}

fn shade_pixel(run: &mut Execution, plan: &Prepared, target: &mut Target, lit: &Lit, machine: &mut Machine) -> Result<(), Error> {
    let which = plan.draws[run.draw].pipeline as usize;
    let pipeline = &plan.pipelines[which];
    let (inputs, depth, coverage) = inputs_at(run, lit);
    assert!(!shade::is_biased(pipeline), "no pipeline of this file biases depth");
    let input = |binding: Binding| match frame::fragment_input(binding, &plan.maps[which], &inputs) {
        Supply::Given(value) => Some(value),
        _ => None,
    };
    run_stage(&pipeline.fragment, &input, machine)?;
    let outputs = machine.outputs();
    let Some(kept) = run.finish_fragment(outputs, depth.to_bits()) else {
        return Ok(());
    };
    let integer: Vec<bool> = target.colour.iter().map(|attachment| attachment.integer).collect();
    let (mut entries, mut blended) = (Vec::new(), Vec::new());
    for write in shade::write_outputs(&integer, outputs, pipeline) {
        let colour = match write.value {
            Written::Identity(identity) => [(identity as f32).to_bits(), 0, 0, 1.0_f32.to_bits()],
            Written::Colour(r, g, b, a) => [r, g, b, a],
        };
        let fragment = Fragment {
            x: lit.x as u32,
            y: lit.y as u32,
            coverage,
            depth: Stored::Float(kept),
            colour,
            blend: write.blend,
            depth_compare: pipeline.depth_compare,
            depth_write: pipeline.depth_write,
            stencil: pipeline.stencil,
            sample_mask: write.sample_mask,
            alpha_mask: if write.alpha_to_coverage { Some(Ok(alpha_mask(f(colour[3]), run.samples))) } else { None },
        };
        blended.push(vec![colour; run.samples as usize]);
        entries.push(Entry { attachment: write.attachment, fragment });
    }
    let written = attach::write_attachments(target.colour, target.depth, &entries, &blended)?;
    run.wrote(written);
    Ok(())
}

fn shade_next(run: &mut Execution, plan: &mut Prepared, target: &mut Target, positions: &[SamplePosition], machine: &mut Machine) -> Result<(), Error> {
    let fragments = run.fragments(plan, positions);
    for lit in &fragments {
        shade_pixel(run, plan, target, lit, machine)?;
    }
    if run.phase == Phase::Tiles {
        let across = plan.bins.across();
        let area = plan.bins.tile_box(run.next as u32 % across, run.next as u32 / across, run.width, run.height);
        let readings = target.depth.as_ref().map(|buffer| {
            let depths = buffer.depths_in(area.x0 as u32, area.y0 as u32, area.x1 as u32, area.y1 as u32);
            depths.iter().map(|depth| if let Stored::Float(bits) = depth { *bits } else { unreachable!() }).collect::<Vec<u32>>()
        });
        run.close_tile(plan, !fragments.is_empty(), &readings);
    } else {
        run.close_primitive(plan);
    }
    Ok(())
}

fn execute(plan: &mut Prepared, colour: &mut Vec<Colour>, depth: &mut Option<DepthStencil>, view: View, scissor: Option<Scissor>, source: &dyn Source) -> Result<Stats, Error> {
    let mut run = Execution::begin(plan, colour, depth, scissor, 4)?;
    let table = table();
    let mut machine = Machine::new();
    loop {
        match run.phase {
            Phase::Draw => run.start_draw(plan)?,
            Phase::Instance => run.start_instance(plan, source.indices())?,
            Phase::Staging => match run.primitive() {
                Some(primitive) => stage(&mut run, plan, primitive, source, &view, &mut machine)?,
                None => run.start_shading(plan),
            },
            Phase::Tiles | Phase::Lines | Phase::Points => {
                if run.pending(plan) {
                    let positions = table.positions(run.samples)?;
                    let mut target = Target { colour: &mut *colour, depth: &mut *depth };
                    shade_next(&mut run, plan, &mut target, positions, &mut machine)?;
                } else {
                    run.leave(plan);
                }
            }
            Phase::Finished => return Ok(run.stats),
        }
    }
}

// Shaders and pipelines.

fn vec4() -> Type {
    Type::Vector(ScalarType::F32, 4)
}

fn float() -> Type {
    Type::Scalar(ScalarType::F32)
}

struct Builder {
    module: Module,
}

impl Builder {
    fn new(stage: Stage) -> Builder {
        Builder { module: Module { stage, types: vec![], varyings: vec![], body: vec![] } }
    }

    fn varying(&mut self, location: u32, kind: Type, interpolation: Interpolation) {
        self.module.varyings.push(Varying { location, kind, interpolation, sampling: Sampling::Centre });
    }

    fn assign(&mut self, kind: Type, op: Op) -> Value {
        let value = Value(self.module.types.len() as u32);
        self.module.types.push(kind);
        self.module.body.push(Stmt::Assign(value, op));
        value
    }

    fn load(&mut self, kind: Type, binding: Binding) -> Value {
        self.assign(kind, Op::Load(binding))
    }

    fn constant(&mut self, constant: Constant) -> Value {
        let scalar = match constant {
            Constant::Bool(_) => ScalarType::Bool,
            Constant::I32(_) => ScalarType::I32,
            Constant::U32(_) => ScalarType::U32,
            Constant::F32(_) => ScalarType::F32,
        };
        self.assign(Type::Scalar(scalar), Op::Const(constant))
    }

    fn one(&mut self) -> Value {
        self.constant(Constant::F32(1.0_f32.to_bits()))
    }

    fn four(&mut self, value: Value) -> Value {
        self.assign(vec4(), Op::Compose(vec4(), vec![value, value, value, value]))
    }

    fn store(&mut self, output: Output, value: Value) {
        self.module.body.push(Stmt::Store(output, value));
    }

    fn statement(&mut self, statement: Stmt) {
        self.module.body.push(statement);
    }

    fn finish(self) -> Module {
        self.module
    }
}

fn passthrough_vertex() -> Module {
    let mut builder = Builder::new(Stage::Vertex);
    builder.varying(0, vec4(), Interpolation::Smooth);
    let position = builder.load(vec4(), Binding::Attribute { location: 0 });
    let colour = builder.load(vec4(), Binding::Attribute { location: 1 });
    builder.store(Output::Position, position);
    builder.store(Output::Varying(0), colour);
    builder.finish()
}

fn colour_fragment() -> Module {
    let mut builder = Builder::new(Stage::Fragment);
    builder.varying(0, vec4(), Interpolation::Smooth);
    let colour = builder.load(vec4(), Binding::Varying { location: 0 });
    builder.store(Output::Colour(0), colour);
    builder.finish()
}

fn opaque_blend() -> AttachmentBlend {
    AttachmentBlend { enabled: false, write_mask: WriteMask { red: true, green: true, blue: true, alpha: true } }
}

fn pipeline(topology: Topology) -> Pipeline {
    Pipeline {
        state: PipelineState { topology, cull: Cull::Nothing, depth_test: Some(CompareOp::Less), depth_write: true, samples: 1, per_sample_shading: false },
        vertex: passthrough_vertex(),
        fragment: colour_fragment(),
        blend: vec![opaque_blend(), opaque_blend()],
        stencil: None,
        depth_compare: CompareOp::Less,
        depth_write: true,
        bias: (0, 0, 0),
        alpha_to_coverage: false,
        sample_mask: u32::MAX,
    }
}

fn draw(topology: Topology, count: u32) -> Draw {
    Draw { pipeline: 0, topology, count, instances: 1, first_instance: 0, base_vertex: 0, restart: false }
}

fn prepare(pipelines: Vec<Pipeline>, draws: Vec<Draw>, width: u32, height: u32) -> Result<Prepared, Error> {
    let accepted: Vec<(bool, bool)> = pipelines.iter().map(|pipeline| (validate(&pipeline.vertex), validate(&pipeline.fragment))).collect();
    frame::prepare(pipelines, draws, &accepted, width, height)
}

/// Whether a module is well-formed, as far as the modules of this file differ: a vertex stage writes a position
/// that rests on no transcendental and discards nothing, a fragment stage writes something and no position, and a
/// loop has trips.
fn validate(module: &Module) -> bool {
    let stores = |wanted: &dyn Fn(&Output) -> bool| module.body.iter().any(|statement| matches!(statement, Stmt::Store(output, _) if wanted(output)));
    let position = stores(&|output| *output == Output::Position);
    let empty_loop = module.body.iter().any(|statement| matches!(statement, Stmt::Loop { trips: 0, .. }));
    let inexact = module.body.iter().any(|statement| matches!(statement, Stmt::Assign(_, Op::Transcendental(..))));
    let discards = module.body.iter().any(|statement| matches!(statement, Stmt::Discard));
    match module.stage {
        Stage::Vertex => position && !empty_loop && !inexact && !discards,
        Stage::Fragment => !position && !empty_loop && stores(&|_| true),
    }
}

fn white() -> [f32; 4] {
    [1.0, 1.0, 1.0, 1.0]
}

fn colour_of(width: u32, height: u32, samples: u32) -> Vec<Colour> {
    vec![Colour::new(width, height, samples, false)]
}

fn depth_of(width: u32, height: u32) -> Option<DepthStencil> {
    let far = Stored::Float(1.0_f32.to_bits());
    let mut buffer = DepthStencil::new(width, height, 1, DepthFormat::Depth32F, far);
    buffer.clear(far, 0);
    Some(buffer)
}

fn pixel(colour: &Colour, x: u32, y: u32) -> [f32; 4] {
    colour.at(x, y, 0).map(f32::from_bits)
}

fn depth_at(depth: &Option<DepthStencil>, x: u32, y: u32) -> f32 {
    match depth.as_ref().unwrap().depth_at(x, y, 0) {
        Stored::Float(bits) => f(bits),
        Stored::Steps(_) => unreachable!("a float format"),
    }
}

fn corner_triangle() -> Vec<[f32; 4]> {
    vec![[-1.0, -1.0, 0.5, 1.0], [1.0, -1.0, 0.5, 1.0], [-1.0, 1.0, 0.5, 1.0]]
}

#[test]
fn one_triangle_covers_exactly_the_pixels_its_edges_enclose() {
    let mesh = Mesh { positions: corner_triangle(), colours: vec![white(), white(), white()], instance_offset: [0.0; 4] };
    let mut prepared = prepare(vec![pipeline(Topology::TriangleList)], vec![draw(Topology::TriangleList, 3)], 16, 16).unwrap();
    let mut colour = colour_of(16, 16, 1);
    let mut depth = depth_of(16, 16);
    let stats = execute(&mut prepared, &mut colour, &mut depth, viewport(16.0, 16.0), None, &mesh).unwrap();
    assert_eq!(stats.primitives, 1);
    assert!(stats.fragments > 100, "about half the target: {}", stats.fragments);
    assert!(near(pixel(&colour[0], 2, 5)[0], 1.0), "(2, 5) is inside");
    assert!(near(pixel(&colour[0], 0, 15)[0], 1.0), "and so is the far corner");
    assert!(near(pixel(&colour[0], 5, 2)[0], 0.0), "(5, 2) is on the other side of the diagonal");
    assert!(near(pixel(&colour[0], 15, 0)[0], 0.0));
    assert!(near(depth_at(&depth, 2, 5), 0.5));
    assert!(near(depth_at(&depth, 5, 2), 1.0));
}

#[test]
fn the_nearer_of_two_overlapping_triangles_wins_in_either_order() {
    let at = |z: f32| [[-1.0_f32, -1.0, z, 1.0], [1.0, -1.0, z, 1.0], [-1.0, 1.0, z, 1.0]];
    let (red, green) = ([1.0, 0.0, 0.0, 1.0], [0.0, 1.0, 0.0, 1.0]);
    for (first, second) in [(at(0.8), at(0.2)), (at(0.2), at(0.8))] {
        let mesh = Mesh { positions: first.iter().chain(second.iter()).copied().collect(), colours: vec![red, red, red, green, green, green], instance_offset: [0.0; 4] };
        let mut prepared = prepare(vec![pipeline(Topology::TriangleList)], vec![draw(Topology::TriangleList, 6)], 16, 16).unwrap();
        let mut colour = colour_of(16, 16, 1);
        let mut depth = depth_of(16, 16);
        execute(&mut prepared, &mut colour, &mut depth, viewport(16.0, 16.0), None, &mesh).unwrap();
        assert!(near(depth_at(&depth, 2, 5), 0.2), "the nearer triangle's depth survived");
        let wanted = if near(second[0][2], 0.2) { green } else { red };
        assert_eq!(pixel(&colour[0], 2, 5), wanted, "and so did its colour");
    }
}

#[test]
fn a_scissor_removes_the_fragments_outside_it_and_shades_none_of_them() {
    let quad = Mesh {
        positions: vec![[-1.0, -1.0, 0.5, 1.0], [1.0, -1.0, 0.5, 1.0], [1.0, 1.0, 0.5, 1.0], [-1.0, -1.0, 0.5, 1.0], [1.0, 1.0, 0.5, 1.0], [-1.0, 1.0, 0.5, 1.0]],
        colours: vec![white(); 6],
        instance_offset: [0.0; 4],
    };
    let covered = |colour: &Colour| (0..32).flat_map(|y| (0..32).map(move |x| (x, y))).filter(|(x, y)| pixel(colour, *x, *y)[0] > 0.5).count();
    let drawn = |scissor: Option<Scissor>| {
        let mut prepared = prepare(vec![pipeline(Topology::TriangleList)], vec![draw(Topology::TriangleList, 6)], 32, 32).unwrap();
        let mut colour = colour_of(32, 32, 1);
        let stats = execute(&mut prepared, &mut colour, &mut None, viewport(32.0, 32.0), scissor, &quad).unwrap();
        (colour.remove(0), stats)
    };
    let (colour, whole) = drawn(None);
    assert_eq!(covered(&colour), 32 * 32, "the quad covers the whole target");

    let (colour, clipped) = drawn(Some(Scissor { x: 0, y: 0, width: 16, height: 16 }));
    assert_eq!(covered(&colour), 16 * 16, "a scissor over a quarter of the target leaves a quarter drawn");
    assert!(pixel(&colour, 1, 1)[0] > 0.5, "inside the rectangle the quad is drawn");
    assert!(pixel(&colour, 30, 30)[0] < 0.5, "and outside it nothing is");
    assert_eq!(clipped.fragments, whole.fragments / 4, "and the fragments outside it were never shaded");

    let (colour, _) = drawn(Some(Scissor { x: -8, y: -8, width: 1000, height: 1000 }));
    assert_eq!(covered(&colour), 32 * 32, "a scissor larger than the target is the whole target");

    let (colour, nothing) = drawn(Some(Scissor { x: 4, y: 4, width: 0, height: 8 }));
    assert_eq!(covered(&colour), 0, "a scissor with no width draws nothing");
    assert_eq!(nothing.fragments, 0, "and shades nothing");
}

#[test]
fn an_instanced_draw_runs_its_vertex_stage_once_per_instance() {
    let mesh = Mesh { positions: vec![[-0.9, -0.9, 0.5, 1.0], [-0.7, -0.9, 0.5, 1.0], [-0.9, -0.7, 0.5, 1.0]], colours: vec![white(), white(), white()], instance_offset: [0.5, 0.0, 0.0, 0.0] };
    let three = Draw { instances: 3, ..draw(Topology::TriangleList, 3) };
    let mut prepared = prepare(vec![pipeline(Topology::TriangleList)], vec![three], 64, 64).unwrap();
    let mut colour = colour_of(64, 64, 1);
    let stats = execute(&mut prepared, &mut colour, &mut None, viewport(64.0, 64.0), None, &mesh).unwrap();
    assert_eq!(stats.primitives, 3, "one primitive per instance");
    let column_lit = |x: u32| (0..64).any(|y| pixel(&colour[0], x, y)[0] > 0.5);
    let lit: Vec<u32> = (0..64).filter(|x| column_lit(*x)).collect();
    assert!(lit.len() >= 12, "three patches of about six columns each: {}", lit.len());
    assert!(lit.iter().any(|x| *x < 10) && lit.iter().any(|x| *x > 24), "and they are spread across the target: {lit:?}");

    let bad = prepare(vec![pipeline(Topology::TriangleList)], vec![Draw { instances: 0, ..draw(Topology::TriangleList, 3) }], 16, 16);
    assert!(matches!(bad, Err(Error::InvalidMesh { reason: MeshFault::TooFewVertices { needs: 1, has: 0 } })));
}

#[test]
fn a_pass_writes_several_attachments_and_leaves_the_ones_its_shader_did_not() {
    let mut fragment = Builder::new(Stage::Fragment);
    fragment.varying(0, vec4(), Interpolation::Smooth);
    let value = fragment.load(vec4(), Binding::Varying { location: 0 });
    let identity = fragment.constant(Constant::U32(77));
    fragment.store(Output::Colour(0), value);
    fragment.store(Output::Integer(1), identity);
    let mut state = pipeline(Topology::TriangleList);
    state.fragment = fragment.finish();

    let mesh = Mesh { positions: corner_triangle(), colours: vec![white(), white(), white()], instance_offset: [0.0; 4] };
    let mut prepared = prepare(vec![state], vec![draw(Topology::TriangleList, 3)], 16, 16).unwrap();
    let mut targets = vec![Colour::new(16, 16, 1, false), Colour::new(16, 16, 1, true)];
    targets[1].fill([9.0, 0.0, 0.0, 1.0].map(f32::to_bits));
    execute(&mut prepared, &mut targets, &mut None, viewport(16.0, 16.0), None, &mesh).unwrap();
    assert!(near(pixel(&targets[0], 2, 5)[0], 1.0), "the colour attachment");
    assert!(near(pixel(&targets[1], 2, 5)[0], 77.0), "and the identity one");
    assert!(near(pixel(&targets[1], 15, 0)[0], 9.0), "outside the triangle the identity attachment is untouched");
}

#[test]
fn prepare_refuses_what_execute_must_never_meet() {
    let mut fragment = Builder::new(Stage::Fragment);
    fragment.varying(3, vec4(), Interpolation::Smooth);
    let value = fragment.load(vec4(), Binding::Varying { location: 3 });
    fragment.store(Output::Colour(0), value);
    let mut mismatched = pipeline(Topology::TriangleList);
    mismatched.fragment = fragment.finish();
    assert!(matches!(prepare(vec![mismatched], vec![], 16, 16), Err(Error::InvalidShader { reason: ShaderFault::UnwrittenVarying })));

    let mut swapped = pipeline(Topology::TriangleList);
    std::mem::swap(&mut swapped.vertex, &mut swapped.fragment);
    assert!(matches!(prepare(vec![swapped], vec![], 16, 16), Err(Error::InvalidShader { reason: ShaderFault::StagesSwapped })));

    let mut per_sample = pipeline(Topology::TriangleList);
    per_sample.state.per_sample_shading = true;
    per_sample.state.samples = 1;
    assert!(matches!(prepare(vec![per_sample], vec![], 16, 16), Err(Error::IncompatiblePipeline { reason: PipelineFault::ShadingRate })));

    let missing = Draw { pipeline: 4, ..draw(Topology::TriangleList, 3) };
    assert!(matches!(prepare(vec![pipeline(Topology::TriangleList)], vec![missing], 16, 16), Err(Error::InvalidRenderState { reason: StateFault::NoSuchPipeline })));
    let wide = prepare(vec![pipeline(Topology::TriangleList)], vec![], fixed::MAX_RASTER_EXTENT + 1, 16);
    assert!(matches!(wide, Err(Error::LimitExceeded { limit: Limit::RasterExtent, ceiling: 16_384, asked: 16_385 })));
    assert!(prepare(vec![pipeline(Topology::TriangleList)], vec![], 0, 16).is_err());
}

#[test]
fn a_line_and_a_point_draw_through_the_same_plan_and_are_never_culled() {
    let through_centres = -0.031_25;
    let mesh = Mesh { positions: vec![[-0.9, through_centres, 0.5, 1.0], [0.9, through_centres, 0.5, 1.0]], colours: vec![white(), white()], instance_offset: [0.0; 4] };
    let mut state = pipeline(Topology::LineList);
    state.state.cull = Cull::Front;
    let mut prepared = prepare(vec![state], vec![draw(Topology::LineList, 2)], 32, 32).unwrap();
    let mut colour = colour_of(32, 32, 1);
    let stats = execute(&mut prepared, &mut colour, &mut None, viewport(32.0, 32.0), None, &mesh).unwrap();
    assert_eq!(stats.culled, 0, "a line has no winding for a cull mode to act on");
    let columns = |colour: &Colour| (0..32).filter(|x| (0..32).any(|y| pixel(colour, *x, y)[0] > 0.5)).count();
    assert!(columns(&colour[0]) > 20, "the line crossed most of the target: {}", columns(&colour[0]));

    let on_the_boundary = Mesh { positions: vec![[-0.9, 0.0, 0.5, 1.0], [0.9, 0.0, 0.5, 1.0]], colours: vec![white(), white()], instance_offset: [0.0; 4] };
    let mut edge_case = colour_of(32, 32, 1);
    execute(&mut prepared, &mut edge_case, &mut None, viewport(32.0, 32.0), None, &on_the_boundary).unwrap();
    assert_eq!(columns(&edge_case[0]), 0);

    let mut point_state = pipeline(Topology::PointList);
    point_state.state.cull = Cull::Back;
    let mesh = Mesh { positions: vec![[0.0, 0.0, 0.5, 1.0]], colours: vec![white()], instance_offset: [0.0; 4] };
    let mut prepared = prepare(vec![point_state], vec![draw(Topology::PointList, 1)], 32, 32).unwrap();
    let mut colour = colour_of(32, 32, 1);
    execute(&mut prepared, &mut colour, &mut None, viewport(32.0, 32.0), None, &mesh).unwrap();
    let lit: Vec<(u32, u32)> = (0..32).flat_map(|y| (0..32).map(move |x| (x, y))).filter(|(x, y)| pixel(&colour[0], *x, *y)[0] > 0.5).collect();
    assert_eq!(lit.len(), 1, "one pixel: {lit:?}");
    assert_eq!(lit[0], (15, 15));
}

#[test]
fn alpha_to_coverage_narrows_a_multisampled_draw_and_leaves_an_identity_alone() {
    let mut state = pipeline(Topology::TriangleList);
    state.state.samples = 4;
    state.alpha_to_coverage = true;
    state.sample_mask = u32::MAX;
    let mesh = Mesh { positions: vec![[-1.0, -1.0, 0.5, 1.0], [3.0, -1.0, 0.5, 1.0], [-1.0, 3.0, 0.5, 1.0]], colours: vec![[1.0, 1.0, 1.0, 0.5]; 3], instance_offset: [0.0; 4] };
    let mut prepared = prepare(vec![state], vec![draw(Topology::TriangleList, 3)], 8, 8).unwrap();
    let mut colour = colour_of(8, 8, 4);
    let stats = execute(&mut prepared, &mut colour, &mut None, viewport(8.0, 8.0), None, &mesh).unwrap();
    assert_eq!(stats.samples_written, 128, "half of 256: {}", stats.samples_written);
    let average: f32 = (0..4).map(|sample| f(colour[0].at(0, 0, sample)[0])).sum::<f32>() / 4.0;
    assert!(near(average, 0.5), "{average}");
}

#[test]
fn hierarchical_depth_rejects_hidden_geometry_without_changing_the_picture() {
    let covering = [[-1.0_f32, -1.0, 0.2, 1.0], [3.0, -1.0, 0.2, 1.0], [-1.0, 3.0, 0.2, 1.0]];
    let hidden = [[-1.0_f32, -1.0, 0.9, 1.0], [3.0, -1.0, 0.9, 1.0], [-1.0, 3.0, 0.9, 1.0]];
    let (red, green) = ([1.0, 0.0, 0.0, 1.0], [0.0, 1.0, 0.0, 1.0]);
    let mesh = Mesh { positions: covering.iter().chain(hidden.iter()).copied().collect(), colours: vec![red, red, red, green, green, green], instance_offset: [0.0; 4] };
    let first = draw(Topology::TriangleList, 3);
    let mut prepared = prepare(vec![pipeline(Topology::TriangleList)], vec![first, Draw { base_vertex: 3, ..first }], 32, 32).unwrap();
    let mut colour = colour_of(32, 32, 1);
    let mut depth = depth_of(32, 32);
    let stats = execute(&mut prepared, &mut colour, &mut depth, viewport(32.0, 32.0), None, &mesh).unwrap();
    assert!(near(pixel(&colour[0], 16, 16)[0], 1.0) && near(pixel(&colour[0], 16, 16)[1], 0.0), "the near triangle won: {:?}", pixel(&colour[0], 16, 16));
    assert!(stats.fragments <= 32 * 32 + 8, "the hidden draw was rejected before shading: {}", stats.fragments);
}

fn covering(depths: &[f32], colours: &[[f32; 4]]) -> Mesh {
    let at = |z: f32| [[-1.0_f32, -1.0, z, 1.0], [3.0, -1.0, z, 1.0], [-1.0, 3.0, z, 1.0]];
    Mesh { positions: depths.iter().flat_map(|z| at(*z)).collect(), colours: colours.iter().flat_map(|colour| [*colour; 3]).collect(), instance_offset: [0.0; 4] }
}

fn identity_fragment(identity: u32) -> Module {
    let mut fragment = Builder::new(Stage::Fragment);
    fragment.varying(0, vec4(), Interpolation::Smooth);
    let value = fragment.load(vec4(), Binding::Varying { location: 0 });
    let identity = fragment.constant(Constant::U32(identity));
    fragment.store(Output::Colour(0), value);
    fragment.store(Output::Integer(1), identity);
    fragment.finish()
}

fn replacing_face() -> StencilFace {
    StencilFace { compare: CompareOp::Always, read_mask: 255, write_mask: 255, reference: 5, on_fail: StencilOp::Keep, on_depth_fail: StencilOp::Replace, on_pass: StencilOp::Keep }
}

#[test]
fn every_attachment_follows_the_one_depth_test() {
    let (red, green) = ([1.0, 0.0, 0.0, 1.0], [0.0, 1.0, 0.0, 1.0]);
    let near_one = Pipeline { fragment: identity_fragment(7), ..pipeline(Topology::TriangleList) };
    let far_one = Pipeline { fragment: identity_fragment(9), stencil: Some(replacing_face()), ..pipeline(Topology::TriangleList) };
    let first = draw(Topology::TriangleList, 3);
    let second = Draw { pipeline: 1, base_vertex: 3, ..first };
    let mut prepared = prepare(vec![near_one, far_one], vec![first, second], 16, 16).unwrap();
    let mut targets = vec![Colour::new(16, 16, 1, false), Colour::new(16, 16, 1, true)];
    let mut depth = depth_of(16, 16);
    let stats = execute(&mut prepared, &mut targets, &mut depth, viewport(16.0, 16.0), None, &covering(&[0.2, 0.9], &[red, green])).unwrap();
    assert_eq!(pixel(&targets[0], 8, 8), red);
    assert_eq!(pixel(&targets[1], 8, 8)[0], 7.0, "a hidden fragment leaves the identity under it");
    assert_eq!(depth.as_ref().unwrap().stencil_at(8, 8, 0), 5, "while its stencil operation ran");
    assert_eq!(stats.fragments, 2 * 16 * 16, "so it was shaded");
    assert_eq!(stats.samples_written, 2 * 16 * 16, "and wrote nothing");
}

#[test]
fn the_test_runs_with_the_first_attachment_that_is_written() {
    let fragment = Fragment {
        x: 0,
        y: 0,
        coverage: 1,
        depth: Stored::Float(0.5_f32.to_bits()),
        colour: [1, 2, 3, 4],
        blend: opaque_blend(),
        depth_compare: CompareOp::Less,
        depth_write: true,
        stencil: None,
        sample_mask: u32::MAX,
        alpha_mask: None,
    };
    let mut targets = colour_of(1, 1, 1);
    targets.push(Colour::new(1, 1, 1, true));
    targets.push(Colour::new(1, 1, 1, true));
    let mut depth = depth_of(1, 1);
    assert_eq!(attach::samples_passing(&depth, &fragment, 1), 1);
    let entries = vec![Entry { attachment: 1, fragment }, Entry { attachment: 2, fragment }];
    let blended = vec![vec![fragment.colour]; 2];
    assert_eq!(attach::write_attachments(&mut targets, &mut depth, &entries, &blended).unwrap(), 2);
    assert_eq!(depth_at(&depth, 0, 0), 0.5);
    assert_eq!(targets[0].at(0, 0, 0), [0; 4], "an attachment without a write is left alone");
    assert_eq!(targets[1].at(0, 0, 0), [1, 2, 3, 4]);
    assert_eq!(targets[2].at(0, 0, 0), [1, 2, 3, 4]);
    let behind = Fragment { colour: [9; 4], ..fragment };
    assert_eq!(attach::samples_passing(&depth, &behind, 1), 0, "its own depth is not less than the stored one");
    let entries = vec![Entry { attachment: 1, fragment: behind }, Entry { attachment: 2, fragment: behind }];
    assert_eq!(attach::write_attachments(&mut targets, &mut depth, &entries, &blended).unwrap(), 0);
    assert_eq!(targets[2].at(0, 0, 0), [1, 2, 3, 4]);
    assert_eq!(attach::write_attachments(&mut targets, &mut depth, &vec![], &vec![]).unwrap(), 0);
}

#[test]
fn a_failed_write_is_the_last_one_made() {
    let blending = AttachmentBlend { enabled: true, ..opaque_blend() };
    let fragment = Fragment {
        x: 0,
        y: 0,
        coverage: 1,
        depth: Stored::Float(0),
        colour: [1, 2, 3, 4],
        blend: opaque_blend(),
        depth_compare: CompareOp::Always,
        depth_write: false,
        stencil: None,
        sample_mask: u32::MAX,
        alpha_mask: None,
    };
    let mut targets = vec![Colour::new(1, 1, 1, true), Colour::new(1, 1, 1, true), Colour::new(1, 1, 1, true)];
    let entries = vec![Entry { attachment: 0, fragment }, Entry { attachment: 1, fragment: Fragment { blend: blending, ..fragment } }, Entry { attachment: 2, fragment }];
    let outcome = attach::write_attachments(&mut targets, &mut None, &entries, &vec![vec![]; 3]);
    assert!(matches!(outcome, Err(Error::UnsupportedFormat { .. })));
    assert_eq!(targets[0].at(0, 0, 0), [1, 2, 3, 4]);
    assert_eq!(targets[1].at(0, 0, 0), [0; 4]);
    assert_eq!(targets[2].at(0, 0, 0), [0; 4]);
}

#[test]
fn rejection_never_changes_a_picture() {
    let (red, green, blue) = ([1.0, 0.0, 0.0, 1.0], [0.0, 1.0, 0.0, 1.0], [0.0, 0.0, 1.0, 1.0]);
    let first = draw(Topology::TriangleList, 3);
    let second = Draw { pipeline: 1, base_vertex: 3, ..first };
    let third = Draw { pipeline: 0, base_vertex: 6, ..first };

    // The second triangle is behind the first, but its stage moves it in front.
    let mut fragment = Builder::new(Stage::Fragment);
    fragment.varying(0, vec4(), Interpolation::Smooth);
    let value = fragment.load(vec4(), Binding::Varying { location: 0 });
    let nearer = fragment.constant(Constant::F32(0.1_f32.to_bits()));
    fragment.store(Output::Colour(0), value);
    fragment.store(Output::Depth, nearer);
    let moving = Pipeline { fragment: fragment.finish(), ..pipeline(Topology::TriangleList) };
    let mut prepared = prepare(vec![pipeline(Topology::TriangleList), moving], vec![first, second], 16, 16).unwrap();
    let (mut colour, mut depth) = (colour_of(16, 16, 1), depth_of(16, 16));
    execute(&mut prepared, &mut colour, &mut depth, viewport(16.0, 16.0), None, &covering(&[0.2, 0.9], &[red, green])).unwrap();
    assert_eq!(pixel(&colour[0], 8, 8), green);
    assert_eq!(depth_at(&depth, 8, 8), 0.1);

    // The second draw moves every depth back, so the third is in front of what is stored.
    let back = Pipeline { depth_compare: CompareOp::Always, ..pipeline(Topology::TriangleList) };
    let mut prepared = prepare(vec![pipeline(Topology::TriangleList), back], vec![first, second, third], 16, 16).unwrap();
    let (mut colour, mut depth) = (colour_of(16, 16, 1), depth_of(16, 16));
    execute(&mut prepared, &mut colour, &mut depth, viewport(16.0, 16.0), None, &covering(&[0.2, 0.9, 0.5], &[red, green, blue])).unwrap();
    assert_eq!(pixel(&colour[0], 8, 8), blue);
    assert_eq!(depth_at(&depth, 8, 8), 0.5);
}

#[test]
fn a_draw_rejects_only_where_its_depth_test_is_assured() {
    let plain = || pipeline(Topology::TriangleList);
    assert!(shade::is_assured(&plain(), Some(DepthFormat::Depth32F)));
    assert!(shade::is_assured(&plain(), Some(DepthFormat::Depth16)));
    assert!(!shade::is_assured(&plain(), None));
    assert!(!shade::is_assured(&Pipeline { bias: (1.0_f32.to_bits(), 0, 0), ..plain() }, Some(DepthFormat::Depth32F)));
    assert!(!shade::is_assured(&Pipeline { stencil: Some(replacing_face()), ..plain() }, Some(DepthFormat::Depth32F)));
    let keeping = StencilFace { on_depth_fail: StencilOp::Keep, ..replacing_face() };
    assert!(shade::is_assured(&Pipeline { stencil: Some(keeping), ..plain() }, Some(DepthFormat::Depth32F)));
    let equal_too = || Pipeline { depth_compare: CompareOp::LessOrEqual, ..plain() };
    assert!(shade::is_assured(&equal_too(), Some(DepthFormat::Depth32FStencil8)));
    assert!(!shade::is_assured(&equal_too(), Some(DepthFormat::Depth24)));
    assert!(!shade::is_assured(&Pipeline { depth_compare: CompareOp::Greater, ..plain() }, Some(DepthFormat::Depth32F)));

    // A depth is found in whatever branch it is stored.
    let mut fragment = Builder::new(Stage::Fragment);
    let nearer = fragment.constant(Constant::F32(0));
    let store = || vec![Stmt::Store(Output::Depth, nearer)];
    let body = |statement: Stmt| Pipeline { fragment: Module { stage: Stage::Fragment, types: vec![], varyings: vec![], body: vec![Stmt::Discard, statement] }, ..plain() };
    for statement in [
        Stmt::Store(Output::Depth, nearer),
        Stmt::If { condition: nearer, then_body: vec![], else_body: store() },
        Stmt::Switch { selector: nearer, cases: vec![(0, vec![]), (1, store())], default_body: vec![] },
        Stmt::Loop { trips: 1, body: store() },
    ] {
        assert!(!shade::is_assured(&body(statement), Some(DepthFormat::Depth32F)));
    }
    assert!(shade::is_assured(&body(Stmt::Store(Output::Colour(0), nearer)), Some(DepthFormat::Depth32F)));

    let at = |x: i64, y: i64| SamplePosition { x, y, index: 0 };
    assert!(shade::is_centred(&[at(128, 128)]));
    assert!(!shade::is_centred(&[at(96, 32)]));
    assert!(!shade::is_centred(&[at(128, 128), at(128, 128)]));
}

#[test]
fn a_target_without_pixels_takes_a_frame_and_shades_nothing() {
    let mut prepared = prepare(vec![pipeline(Topology::TriangleList)], vec![draw(Topology::TriangleList, 3)], 16, 16).unwrap();
    let mut colour = colour_of(0, 0, 1);
    let stats = execute(&mut prepared, &mut colour, &mut None, viewport(16.0, 16.0), None, &covering(&[0.5], &[white()])).unwrap();
    assert_eq!(stats.primitives, 1);
    assert_eq!(stats.fragments, 0);
}

fn wide_stages(count: u32) -> (Module, Module) {
    let mut vertex = Builder::new(Stage::Vertex);
    let mut fragment = Builder::new(Stage::Fragment);
    for location in 0..count {
        vertex.varying(location, vec4(), Interpolation::Smooth);
        fragment.varying(location, vec4(), Interpolation::Smooth);
    }
    let position = vertex.load(vec4(), Binding::Attribute { location: 0 });
    vertex.store(Output::Position, position);
    for location in 0..count {
        let value = vertex.load(vec4(), Binding::Attribute { location: 1 });
        vertex.store(Output::Varying(location), value);
    }
    let colour = fragment.load(vec4(), Binding::Varying { location: 0 });
    fragment.store(Output::Colour(0), colour);
    (vertex.finish(), fragment.finish())
}

#[test]
fn a_shader_with_more_varyings_than_the_backend_holds_is_refused_at_prepare() {
    let (vertex, fragment) = wide_stages(9);
    let wide = Pipeline { vertex, fragment, ..pipeline(Topology::TriangleList) };
    let outcome = prepare(vec![wide], vec![], 16, 16);
    assert!(matches!(outcome, Err(Error::LimitExceeded { limit: Limit::VaryingComponents, ceiling: 32, asked: 36 })));
    let (vertex, fragment) = wide_stages(8);
    let narrow = Pipeline { vertex, fragment, ..pipeline(Topology::TriangleList) };
    assert!(prepare(vec![narrow], vec![], 16, 16).is_ok());
}

#[test]
fn a_canary_attachment_beside_the_target_is_never_touched() {
    let mesh = Mesh { positions: vec![[-4.0, -4.0, 0.5, 1.0], [8.0, -4.0, 0.5, 1.0], [-4.0, 8.0, 0.5, 1.0]], colours: vec![white(); 3], instance_offset: [0.0; 4] };
    let mut prepared = prepare(vec![pipeline(Topology::TriangleList)], vec![draw(Topology::TriangleList, 3)], 16, 16).unwrap();
    let mut targets = vec![Colour::new(16, 16, 1, false), Colour::new(16, 16, 1, false)];
    let canary = [-1.0_f32; 4];
    targets[1].fill(canary.map(f32::to_bits));
    execute(&mut prepared, &mut targets, &mut None, viewport(16.0, 16.0), None, &mesh).unwrap();
    for (x, y) in [(0_u32, 0_u32), (15, 0), (0, 15), (15, 15), (8, 8)] {
        assert!(near(pixel(&targets[0], x, y)[0], 1.0), "({x}, {y}) was not written");
    }
    for y in 0..16 {
        for x in 0..16 {
            assert_eq!(pixel(&targets[1], x, y), canary, "the canary was written at ({x}, {y})");
        }
    }
}

/// A generator with a fixed sequence, so that a failing case is found again.
struct Noise(u64);

impl Noise {
    fn next(&mut self) -> u64 {
        let mut state = self.0;
        state ^= state >> 12;
        state ^= state << 25;
        state ^= state >> 27;
        self.0 = state;
        state.wrapping_mul(0x2545_F491_4F6C_DD1D)
    }

    fn below(&mut self, ceiling: u32) -> u32 {
        if ceiling == 0 {
            0
        } else {
            (self.next() % ceiling as u64) as u32
        }
    }

    /// The ordinary range, the clip planes, far outside, zero, and what is not finite.
    fn coordinate(&mut self) -> f32 {
        match self.below(10) {
            0 => f32::NAN,
            1 => f32::INFINITY,
            2 => f32::NEG_INFINITY,
            3 => 0.0,
            4 => 1.0,
            5 => -1.0,
            6 => 1.0e30,
            7 => -1.0e30,
            8 => (self.next() % 2000) as f32 / 1000.0 - 1.0,
            _ => (self.next() % 200_000) as f32 / 1000.0 - 100.0,
        }
    }
}

struct Hostile {
    positions: Vec<[f32; 4]>,
    uvs: Vec<[f32; 4]>,
    indices: Vec<u32>,
}

impl Source for Hostile {
    fn attribute(&self, location: u32, vertex: u32, _instance: u32) -> Option<Val> {
        let table = if location == 0 { &self.positions } else { &self.uvs };
        table.get(vertex as usize % table.len().max(1)).map(|values| vector(values))
    }

    fn indices(&self) -> Indices<'_> {
        Indices::U32(&self.indices)
    }
}

#[test]
fn five_hundred_hostile_draws_are_each_answered_rather_than_crashing() {
    let mut noise = Noise(0xA11C_0DE0_1234_5678);
    let mut refusals = 0;
    let mut drawn = 0;
    for iteration in 0..500 {
        let vertices = (noise.below(9) + 1) as usize;
        let mesh = Hostile {
            positions: (0..vertices).map(|_| [noise.coordinate(), noise.coordinate(), noise.coordinate(), noise.coordinate()]).collect(),
            uvs: (0..vertices).map(|_| [noise.coordinate(), noise.coordinate(), 0.0, 1.0]).collect(),
            indices: (0..noise.below(12) as usize).map(|_| noise.below(20)).collect(),
        };
        let topology = match noise.below(6) {
            0 => Topology::TriangleList,
            1 => Topology::TriangleStrip,
            2 => Topology::TriangleFan,
            3 => Topology::LineList,
            4 => Topology::LineStrip,
            _ => Topology::PointList,
        };
        let (width, height) = (noise.below(48) + 1, noise.below(48) + 1);
        let mut state = pipeline(topology);
        state.state.cull = match noise.below(3) {
            0 => Cull::Nothing,
            1 => Cull::Front,
            _ => Cull::Back,
        };
        let draw = Draw { pipeline: 0, topology, count: noise.below(12), instances: noise.below(3) + 1, first_instance: 0, base_vertex: (noise.below(6) as i32) - 3, restart: false };
        let Ok(mut prepared) = prepare(vec![state], vec![draw], width, height) else {
            refusals += 1;
            continue;
        };
        let mut colour = colour_of(width, height, 1);
        let mut depth = depth_of(width, height);
        let view = [noise.coordinate(), noise.coordinate(), (noise.below(64) + 1) as f32, (noise.below(64) + 1) as f32];
        match execute(&mut prepared, &mut colour, &mut depth, view, None, &mesh) {
            Ok(stats) => {
                drawn += 1;
                assert!(stats.fragments <= width * height * 64, "iteration {iteration}: {stats:?} on a {width} x {height} target");
                assert!(stats.samples_written <= stats.fragments, "iteration {iteration}: more samples than fragments");
            }
            Err(
                Error::InvalidTransform
                | Error::NonFinite
                | Error::InvalidMesh { .. }
                | Error::InvalidShader { .. }
                | Error::InvalidRenderState { .. }
                | Error::LimitExceeded { .. }
                | Error::TargetMismatch { .. }
                | Error::IncompatiblePipeline { .. },
            ) => refusals += 1,
            Err(other) => panic!("iteration {iteration}: a draw answered {other:?}, which is not a drawing refusal"),
        }
    }
    assert!(drawn > 50, "only {drawn} draws were accepted, so the generator is not reaching the drawing path");
    assert!(refusals > 50, "only {refusals} refusals, which is too few to be testing them");
}

#[test]
fn a_frame_interpolates_each_qualifier_by_its_own_rule() {
    let qualifiers = [Interpolation::Smooth, Interpolation::NoPerspective, Interpolation::Flat];
    let mut vertex = Builder::new(Stage::Vertex);
    let mut fragment = Builder::new(Stage::Fragment);
    for (location, qualifier) in qualifiers.iter().enumerate() {
        vertex.varying(location as u32, vec4(), *qualifier);
        fragment.varying(location as u32, vec4(), *qualifier);
    }
    let position = vertex.load(vec4(), Binding::Attribute { location: 0 });
    let value = vertex.load(vec4(), Binding::Attribute { location: 1 });
    vertex.store(Output::Position, position);
    for location in 0..3 {
        vertex.store(Output::Varying(location), value);
    }
    let loads: Vec<Value> = (0..3).map(|location| fragment.load(vec4(), Binding::Varying { location })).collect();
    let mut parts: Vec<Value> = loads.iter().map(|load| fragment.assign(float(), Op::Extract(*load, 0))).collect();
    parts.push(fragment.one());
    let colour = fragment.assign(vec4(), Op::Compose(vec4(), parts));
    fragment.store(Output::Colour(0), colour);

    let state = Pipeline { vertex: vertex.finish(), fragment: fragment.finish(), ..pipeline(Topology::TriangleList) };
    let mesh = Mesh { positions: vec![[-1.0, -1.0, 0.5, 1.0], [4.0, -4.0, 2.0, 4.0], [-4.0, 4.0, 2.0, 4.0]], colours: vec![[0.0, 0.0, 0.0, 1.0], white(), white()], instance_offset: [0.0; 4] };
    let mut prepared = prepare(vec![state], vec![draw(Topology::TriangleList, 3)], 32, 32).unwrap();
    let mut colour = colour_of(32, 32, 1);
    execute(&mut prepared, &mut colour, &mut None, viewport(32.0, 32.0), None, &mesh).unwrap();
    let lit: Vec<(u32, u32)> = (4..28).flat_map(|y| (4..28).map(move |x| (x, y))).filter(|(x, y)| pixel(&colour[0], *x, *y)[3] > 0.5).collect();
    assert!(!lit.is_empty(), "the triangle covered something");
    let (x, y) = lit[lit.len() / 2];
    let seen = pixel(&colour[0], x, y);
    assert!(seen[0] < seen[1] - 0.02, "smooth should be below noperspective at ({x}, {y}): {seen:?}");
    assert!(near(seen[2], 0.0), "flat takes the first vertex of a list, which is zero: {seen:?}");
}

#[test]
fn hostile_shader_modules_are_refused_before_a_frame_runs() {
    let mut refused = 0;
    let mut accepted = 0;
    for iteration in 0..200 {
        let mut vertex = Builder::new(Stage::Vertex);
        let mut fragment = Builder::new(Stage::Fragment);
        let choice = iteration % 8;
        if choice == 0 {
            let _ = vertex.one();
        } else if choice == 2 {
            let source = vertex.load(float(), Binding::Attribute { location: 0 });
            let turned = vertex.assign(float(), Op::Transcendental(Transcendental::Sin, source, None));
            let position = vertex.four(turned);
            vertex.store(Output::Position, position);
        } else {
            let position = vertex.load(vec4(), Binding::Attribute { location: 0 });
            vertex.store(Output::Position, position);
        }
        if choice == 3 {
            vertex.statement(Stmt::Loop { trips: 0, body: vec![] });
        }
        if choice == 5 {
            vertex.statement(Stmt::Discard);
        }
        match choice {
            0 | 1 => {}
            4 => {
                fragment.varying(5, vec4(), Interpolation::Smooth);
                let value = fragment.load(vec4(), Binding::Varying { location: 5 });
                fragment.store(Output::Colour(0), value);
            }
            6 => {
                let value = fragment.load(vec4(), Binding::Attribute { location: 0 });
                fragment.store(Output::Position, value);
            }
            _ => {
                let colour = fragment.one();
                let out = fragment.four(colour);
                fragment.store(Output::Colour(0), out);
            }
        }
        let state = Pipeline { vertex: vertex.finish(), fragment: fragment.finish(), ..pipeline(Topology::TriangleList) };
        match prepare(vec![state], vec![], 16, 16) {
            Ok(prepared) => {
                accepted += 1;
                assert_eq!(prepared.command_count(), 0);
            }
            Err(Error::InvalidShader { .. } | Error::IncompatiblePipeline { .. } | Error::LimitExceeded { .. }) => refused += 1,
            Err(other) => panic!("iteration {iteration}: a module answered {other:?}, which is not a shader refusal"),
        }
    }
    assert!(refused >= 150, "only {refused} modules were refused");
    assert!(accepted >= 20, "and {accepted} accepted, so the fixture is not refusing everything");
}

#[test]
fn projection_refuses_what_the_clipper_should_have_removed() {
    let view = viewport(100.0, 100.0);
    assert_eq!(project([0.0, 0.0, 0.5, 0.0].map(f32::to_bits), &view), Err(Error::InvalidTransform));
    assert_eq!(project([0.0, 0.0, 0.5, -1.0].map(f32::to_bits), &view), Err(Error::InvalidTransform));
    assert_eq!(project([f32::NAN, 0.0, 0.5, 1.0].map(f32::to_bits), &view), Err(Error::NonFinite));

    let centre = project([0.0, 0.0, 0.5, 1.0].map(f32::to_bits), &view).unwrap();
    assert!(near(f(centre.x), 50.0) && near(f(centre.y), 50.0) && near(f(centre.depth), 0.5));
    assert!(near(f(centre.inverse_w), 1.0));
    let far = project([0.0, 0.0, 1.0, 4.0].map(f32::to_bits), &view).unwrap();
    assert!(near(f(far.inverse_w), 0.25));
}

#[test]
fn a_plan_draws_the_same_frame_twice() {
    let mesh = Mesh { positions: corner_triangle(), colours: vec![white(); 3], instance_offset: [0.0; 4] };
    let mut prepared = prepare(vec![pipeline(Topology::TriangleList)], vec![draw(Topology::TriangleList, 3)], 32, 32).unwrap();
    let mut frames = Vec::new();
    for _ in 0..3 {
        let mut colour = colour_of(32, 32, 1);
        let stats = execute(&mut prepared, &mut colour, &mut None, viewport(32.0, 32.0), None, &mesh).unwrap();
        frames.push((stats, (0..32 * 32).map(|i| pixel(&colour[0], i % 32, i / 32)[0] > 0.5).collect::<Vec<bool>>()));
    }
    assert_eq!(frames[0], frames[1]);
    assert_eq!(frames[1], frames[2]);
    // The same plan against a target of another size.
    prepared.resize(64, 32);
    assert_eq!((prepared.bins.across(), prepared.bins.down()), (2, 1));
    assert_eq!(prepared.draws().len(), 1);
    assert_eq!(prepared.pipelines().len(), 1);
}

#[test]
fn a_pass_is_refused_where_its_attachments_do_not_fit() {
    let mesh = Mesh { positions: corner_triangle(), colours: vec![white(); 3], instance_offset: [0.0; 4] };
    let view = viewport(16.0, 16.0);
    let plan = || prepare(vec![pipeline(Topology::TriangleList)], vec![draw(Topology::TriangleList, 3)], 16, 16).unwrap();
    let refused = |colour: Vec<Colour>, depth: Option<DepthStencil>| {
        let (mut colour, mut depth) = (colour, depth);
        execute(&mut plan(), &mut colour, &mut depth, view, None, &mesh).unwrap_err()
    };
    assert_eq!(refused(vec![], None), Error::TargetMismatch { reason: AttachmentFault::TooMany { count: 0, ceiling: 4 } });
    let uneven = vec![Colour::new(16, 16, 1, false), Colour::new(8, 16, 1, false)];
    assert_eq!(refused(uneven, None), Error::TargetMismatch { reason: AttachmentFault::ExtentMismatch { width: 8, height: 16, expected_width: 16, expected_height: 16 } });
    let far = Stored::Float(1.0_f32.to_bits());
    let sampled = Some(DepthStencil::new(16, 16, 4, DepthFormat::Depth32F, far));
    assert_eq!(refused(colour_of(16, 16, 1), sampled), Error::TargetMismatch { reason: AttachmentFault::SampleCountMismatch { samples: 4, expected: 1 } });
    assert_eq!(refused(colour_of(16, 16, 4), None), Error::IncompatiblePipeline { reason: PipelineFault::SampleCount });
    let many = vec![Colour::new(16, 16, 1, false), Colour::new(16, 16, 1, false), Colour::new(16, 16, 1, false)];
    assert_eq!(refused(many, None), Error::IncompatiblePipeline { reason: PipelineFault::TooFewBlendStates });

    let mut sampled = pipeline(Topology::TriangleList);
    sampled.state.samples = 8;
    let mut odd = prepare(vec![sampled], vec![draw(Topology::TriangleList, 3)], 16, 16).unwrap();
    let outcome = execute(&mut odd, &mut colour_of(16, 16, 8), &mut None, view, None, &mesh);
    assert_eq!(outcome, Err(Error::UnsupportedSampleCount { samples: 8 }));
}

#[test]
fn a_discarded_fragment_is_counted_and_writes_nothing() {
    let mut fragment = Builder::new(Stage::Fragment);
    fragment.statement(Stmt::Discard);
    let colour = fragment.one();
    let out = fragment.four(colour);
    fragment.store(Output::Colour(0), out);
    let state = Pipeline { fragment: fragment.finish(), ..pipeline(Topology::TriangleList) };
    let mesh = Mesh { positions: corner_triangle(), colours: vec![white(); 3], instance_offset: [0.0; 4] };
    let mut prepared = prepare(vec![state], vec![draw(Topology::TriangleList, 3)], 16, 16).unwrap();
    let mut colour = colour_of(16, 16, 1);
    let stats = execute(&mut prepared, &mut colour, &mut None, viewport(16.0, 16.0), None, &mesh).unwrap();
    assert!(stats.fragments > 0);
    assert_eq!(stats.discarded, stats.fragments);
    assert_eq!(stats.samples_written, 0);
    assert_eq!(pixel(&colour[0], 2, 5), [0.0; 4]);
}

#[test]
fn commands_become_draws_with_the_pipeline_bound_where_they_stand() {
    let commands = [
        Command::Draw { vertices: 3, instances: 1, first_instance: 0 },
        Command::BindPipeline(2),
        Command::Other,
        Command::DrawIndexed { indices: 6, instances: 4, base_vertex: -1, first_instance: 5 },
    ];
    let draws = frame::draws_from(&commands, Topology::TriangleStrip);
    assert_eq!(
        draws,
        vec![
            Draw { pipeline: 0, topology: Topology::TriangleStrip, count: 3, instances: 1, first_instance: 0, base_vertex: 0, restart: false },
            Draw { pipeline: 2, topology: Topology::TriangleStrip, count: 6, instances: 4, first_instance: 5, base_vertex: -1, restart: false },
        ]
    );
}

#[test]
fn each_fault_of_a_stage_is_a_refusal_of_the_frame() {
    assert_eq!(frame::fault(Fault::IndexOutOfRange { index: 9, length: 3 }), Error::InvalidShader { reason: ShaderFault::IndexedOutside });
    assert_eq!(frame::fault(Fault::MissingBinding), Error::InvalidShader { reason: ShaderFault::MissingBinding });
    assert_eq!(frame::fault(Fault::SampleFailed), Error::InvalidTexture { reason: TextureFault::ReadRefused });
    assert_eq!(frame::fault(Fault::TypeMismatch), Error::InvalidShader { reason: ShaderFault::Refused });
    assert_eq!(frame::fault(Fault::Unassigned { value: 1 }), Error::InvalidShader { reason: ShaderFault::Refused });
    let nothing = Outputs::new();
    assert!(matches!(frame::shade_vertex(&passthrough_vertex(), &nothing, &[]), Err(Error::InvalidShader { reason: ShaderFault::NoPosition })));

    let mut refused = pipeline(Topology::TriangleList);
    refused.vertex.body.clear();
    assert!(matches!(prepare(vec![refused], vec![], 16, 16), Err(Error::InvalidShader { reason: ShaderFault::VertexRefused })));
    let mut refused = pipeline(Topology::TriangleList);
    refused.fragment.body.clear();
    assert!(matches!(prepare(vec![refused], vec![], 16, 16), Err(Error::InvalidShader { reason: ShaderFault::FragmentRefused })));
}

#[test]
fn a_run_passes_through_its_phases_in_order() {
    let mesh = Mesh { positions: corner_triangle(), colours: vec![white(); 3], instance_offset: [0.0; 4] };
    let mut plan = prepare(vec![pipeline(Topology::TriangleList)], vec![draw(Topology::TriangleList, 3)], 16, 16).unwrap();
    let colour = colour_of(16, 16, 1);
    let mut run = Execution::begin(&mut plan, &colour, &None, None, 4).unwrap();
    let mut machine = Machine::new();
    let mut seen = vec![run.phase];
    run.start_draw(&plan).unwrap();
    seen.push(run.phase);
    run.start_instance(&mut plan, mesh.indices()).unwrap();
    seen.push(run.phase);
    let primitive = run.primitive().unwrap();
    stage(&mut run, &plan, primitive, &mesh, &viewport(16.0, 16.0), &mut machine).unwrap();
    assert_eq!(run.primitive(), None);
    assert_eq!(run.triangles.len(), 1);
    run.start_shading(&mut plan);
    seen.push(run.phase);
    assert!(run.pending(&plan));
    let table = table();
    let fragments = run.fragments(&plan, table.positions(1).unwrap());
    assert!(fragments.iter().all(|lit| lit.coverage == 1 && (0..16).contains(&lit.x) && (0..16).contains(&lit.y)));
    // A pass that writes depth moves the bound of a tile it shaded to the furthest depth in it.
    run.close_tile(&mut plan, true, &Some(vec![0.25_f32.to_bits(), 0.5_f32.to_bits()]));
    assert_eq!(plan.bins.tile_far(0, 0), 0.5_f32.to_bits());
    while run.phase != Phase::Finished {
        if run.phase == Phase::Draw {
            run.start_draw(&plan).unwrap();
        } else {
            assert!(!run.pending(&plan));
            run.leave(&plan);
        }
        seen.push(run.phase);
    }
    assert_eq!(seen, vec![Phase::Draw, Phase::Instance, Phase::Staging, Phase::Tiles, Phase::Lines, Phase::Points, Phase::Draw, Phase::Finished]);
}
