//! The shader interpreter, its inputs answered from a small table and its floating point computed here.
use softgraphics::soft3d::arithmetic;
use softgraphics::soft3d::arithmetic::{Computed, FloatOp, FloatWork};
use softgraphics::soft3d::interpreter;
use softgraphics::soft3d::interpreter::{Answer, Fault, Machine, Outputs, Request, Stop};
use softgraphics::soft3d::shader::{
    BinaryOp, Binding, BuiltIn, CompareKind, Constant, Interpolation, Module, Op, Output, Sampling, ScalarType, Stage, Stmt, Transcendental, Type, UnaryOp, Value, Varying,
};
use softgraphics::soft3d::value::{Reg, Val, Words};

fn near(left: f32, right: f32) -> bool {
    (left - right).abs() <= 1e-4
}

fn f(bits: u32) -> f32 {
    f32::from_bits(bits)
}

fn transcendental(which: Transcendental, a: f32, b: f32) -> f32 {
    match which {
        Transcendental::Sqrt => a.sqrt(),
        Transcendental::InverseSqrt => 1.0 / a.sqrt(),
        Transcendental::Sin => a.sin(),
        Transcendental::Cos => a.cos(),
        Transcendental::Tan => a.tan(),
        Transcendental::Asin => a.asin(),
        Transcendental::Acos => a.acos(),
        Transcendental::Atan => a.atan(),
        Transcendental::Atan2 => a.atan2(b),
        Transcendental::Exp => a.exp(),
        Transcendental::Exp2 => a.exp2(),
        Transcendental::Log => a.ln(),
        Transcendental::Log2 => a.log2(),
        Transcendental::Pow => a.powf(b),
    }
}

fn compute(work: &FloatWork) -> Vec<u32> {
    let lanes = &work.lanes;
    let each = |g: &dyn Fn(f32, f32, f32) -> f32| -> Vec<u32> { lanes.iter().map(|(a, b, c)| g(f(*a), f(*b), f(*c)).to_bits()).collect() };
    match work.op {
        FloatOp::Floor => each(&|a, _, _| a.floor()),
        FloatOp::Ceil => each(&|a, _, _| a.ceil()),
        FloatOp::Fract => each(&|a, _, _| a - a.floor()),
        FloatOp::ToI32 => lanes.iter().map(|(a, _, _)| f(*a) as i32 as u32).collect(),
        FloatOp::ToU32 => lanes.iter().map(|(a, _, _)| f(*a) as u32).collect(),
        FloatOp::FromI32 => lanes.iter().map(|(a, _, _)| (*a as i32 as f32).to_bits()).collect(),
        FloatOp::FromU32 => lanes.iter().map(|(a, _, _)| (*a as f32).to_bits()).collect(),
        FloatOp::Add => each(&|a, b, _| a + b),
        FloatOp::Subtract => each(&|a, b, _| a - b),
        FloatOp::Multiply => each(&|a, b, _| a * b),
        FloatOp::Divide => each(&|a, b, _| a / b),
        FloatOp::Modulo => each(&|a, b, _| a - b.abs() * (a / b.abs()).floor()),
        FloatOp::Min => each(&|a, b, _| a.min(b)),
        FloatOp::Max => each(&|a, b, _| a.max(b)),
        FloatOp::Length => vec![lanes.iter().map(|(a, _, _)| f(*a) * f(*a)).sum::<f32>().sqrt().to_bits()],
        FloatOp::SumOfProducts => {
            let run = if work.width == 0 { 0 } else { lanes.len() / work.width };
            (0..work.width).map(|w| (0..run).map(|i| f(lanes[w * run + i].0) * f(lanes[w * run + i].1)).sum::<f32>().to_bits()).collect()
        }
        FloatOp::Cross { left, right } => {
            let read = |word: u32, kind: ScalarType| match kind {
                ScalarType::F32 => f(word),
                ScalarType::I32 => word as i32 as f32,
                ScalarType::U32 => word as f32,
                ScalarType::Bool => (word != 0) as u32 as f32,
            };
            let a: Vec<f32> = lanes.iter().map(|lane| read(lane.0, left)).collect();
            let b: Vec<f32> = lanes.iter().map(|lane| read(lane.1, right)).collect();
            vec![(a[1] * b[2] - a[2] * b[1]).to_bits(), (a[2] * b[0] - a[0] * b[2]).to_bits(), (a[0] * b[1] - a[1] * b[0]).to_bits()]
        }
        FloatOp::Clamp => each(&|a, b, c| a.max(b).min(c)),
        FloatOp::Mix => each(&|a, b, c| (1.0 - c) * a + c * b),
        FloatOp::Transcendental(which) => each(&|a, b, _| transcendental(which, a, b)),
    }
}

#[derive(Default)]
struct Stub {
    uniforms: Vec<((u32, u32), Val)>,
    attributes: Vec<(u32, Val)>,
    texel: Option<Val>,
}

impl Stub {
    fn new() -> Self {
        Self::default()
    }

    fn with_attribute(mut self, location: u32, value: Val) -> Self {
        self.attributes.push((location, value));
        self
    }

    fn with_uniform(mut self, block: u32, member: u32, value: Val) -> Self {
        self.uniforms.push(((block, member), value));
        self
    }

    fn input(&self, binding: Binding) -> Option<Val> {
        match binding {
            Binding::Uniform { block, member } => self.uniforms.iter().find(|(key, _)| *key == (block, member)).map(|(_, value)| value.duplicate()),
            Binding::Attribute { location } => self.attributes.iter().find(|(key, _)| *key == location).map(|(_, value)| value.duplicate()),
            Binding::BuiltIn(BuiltIn::VertexIndex) => Some(Val::scalar_u32(7)),
            Binding::BuiltIn(BuiltIn::FrontFacing) => Some(Val::scalar_bool(true)),
            _ => None,
        }
    }
}

fn execute(module: &Module, stub: &Stub) -> Result<Outputs, Fault> {
    let mut answers: Vec<Answer> = Vec::new();
    loop {
        match interpreter::execute(module, &answers) {
            Ok(outputs) => return Ok(outputs),
            Err(Stop::Fault(fault)) => return Err(fault),
            Err(Stop::Pending(request)) => answers.push(match request {
                Request::Input(binding) => Answer::Value(stub.input(binding)),
                Request::Sample { .. } => Answer::Value(stub.texel.as_ref().map(|value| value.duplicate())),
                Request::Arithmetic(work) => Answer::Words(compute(&work)),
            }),
        }
        assert!(answers.len() < 1000, "the run does not end");
    }
}

fn float() -> Type {
    Type::Scalar(ScalarType::F32)
}

fn vec4() -> Type {
    Type::Vector(ScalarType::F32, 4)
}

fn number(value: f32) -> Val {
    Val::scalar_f32(value.to_bits())
}

fn vector(values: &[f32]) -> Val {
    let bits: Vec<u32> = values.iter().map(|value| value.to_bits()).collect();
    Val::vector_f32(&bits)
}

fn to_f32(value: &Val) -> Vec<f32> {
    value.words().iter().map(|word| f(*word)).collect()
}

fn fragment(types: Vec<Type>, body: Vec<Stmt>) -> Module {
    Module { stage: Stage::Fragment, types, varyings: vec![], body }
}

fn assign(index: u32, op: Op) -> Stmt {
    Stmt::Assign(Value(index), op)
}

fn uniform(member: u32) -> Op {
    Op::Load(Binding::Uniform { block: 0, member })
}

fn four(index: u32) -> Op {
    Op::Compose(vec4(), vec![Value(index), Value(index), Value(index), Value(index)])
}

#[test]
fn a_vertex_stage_transforms_its_attribute_by_its_uniform_matrix() {
    let module = Module {
        stage: Stage::Vertex,
        types: vec![Type::Matrix(4), vec4(), vec4()],
        varyings: vec![],
        body: vec![
            assign(0, uniform(0)),
            assign(1, Op::Load(Binding::Attribute { location: 0 })),
            assign(2, Op::Binary(BinaryOp::MatrixProduct, Value(0), Value(1))),
            Stmt::Store(Output::Position, Value(2)),
        ],
    };
    // A translation by (10, 20, 30), column-major: the translation is the last column.
    let columns: [f32; 16] = [1.0, 0.0, 0.0, 0.0, 0.0, 1.0, 0.0, 0.0, 0.0, 0.0, 1.0, 0.0, 10.0, 20.0, 30.0, 1.0];
    let translation = Val::new(Type::Matrix(4), &columns.map(f32::to_bits));
    let stub = Stub::new().with_uniform(0, 0, translation).with_attribute(0, vector(&[1.0, 2.0, 3.0, 1.0]));
    let outputs = execute(&module, &stub).unwrap();
    let position = to_f32(&outputs.position.expect("a vertex stage writes a position"));
    assert!(near(position[0], 11.0) && near(position[1], 22.0) && near(position[2], 33.0) && near(position[3], 1.0), "{position:?}");
}

#[test]
fn a_bounded_loop_runs_its_trips_and_break_leaves_it() {
    let module = fragment(
        vec![float(), vec4()],
        vec![
            assign(0, Op::Const(Constant::F32(1.0_f32.to_bits()))),
            assign(1, four(0)),
            Stmt::Loop { trips: 10, body: vec![Stmt::Break] },
            Stmt::Store(Output::Colour(0), Value(1)),
        ],
    );
    let outputs = execute(&module, &Stub::new()).unwrap();
    assert_eq!(outputs.colour.len(), 1, "the store after the loop ran");

    let module = fragment(
        vec![float(), float(), vec4()],
        vec![
            assign(0, Op::Const(Constant::F32(2.0_f32.to_bits()))),
            Stmt::Loop { trips: 3, body: vec![assign(1, Op::Binary(BinaryOp::Add, Value(0), Value(0)))] },
            assign(2, four(1)),
            Stmt::Store(Output::Colour(0), Value(2)),
        ],
    );
    let outputs = execute(&module, &Stub::new()).unwrap();
    assert!(near(f(outputs.colour[0].1.f32_at(0)), 4.0), "the last iteration's value survives the loop");
}

#[test]
fn a_discard_ends_the_stage_and_leaves_nothing_written() {
    let module = fragment(
        vec![float(), vec4()],
        vec![
            assign(0, Op::Const(Constant::F32(1.0_f32.to_bits()))),
            assign(1, four(0)),
            Stmt::Discard,
            Stmt::Store(Output::Colour(0), Value(1)),
        ],
    );
    let outputs = execute(&module, &Stub::new()).unwrap();
    assert!(outputs.discarded);
    assert!(outputs.colour.is_empty(), "the store after the discard did not run");
    assert!(outputs.depth.is_none() && outputs.integer.is_empty());
}

fn indexed(index: i32) -> Module {
    let array = Type::Array(Box::new(float()), 3);
    fragment(
        vec![array, Type::Scalar(ScalarType::I32), float(), vec4()],
        vec![
            assign(0, uniform(0)),
            assign(1, Op::Const(Constant::I32(index))),
            assign(2, Op::Index { array: Value(0), index: Value(1) }),
            assign(3, four(2)),
            Stmt::Store(Output::Colour(0), Value(3)),
        ],
    )
}

#[test]
fn a_computed_index_outside_its_array_is_refused_at_the_access() {
    let array = Type::Array(Box::new(float()), 3);
    let stub = Stub::new().with_uniform(0, 0, Val::new(array, &[1.0_f32.to_bits(), 2.0_f32.to_bits(), 3.0_f32.to_bits()]));
    assert_eq!(execute(&indexed(5), &stub).err(), Some(Fault::IndexOutOfRange { index: 5, length: 3 }));

    let outputs = execute(&indexed(2), &stub).unwrap();
    assert!(near(f(outputs.colour[0].1.f32_at(0)), 3.0));
}

#[test]
fn a_value_a_branch_did_not_assign_is_refused_rather_than_read() {
    let module = fragment(
        vec![Type::Scalar(ScalarType::Bool), float(), vec4()],
        vec![
            assign(0, Op::Const(Constant::Bool(false))),
            Stmt::If { condition: Value(0), then_body: vec![assign(1, Op::Const(Constant::F32(1.0_f32.to_bits())))], else_body: vec![] },
            assign(2, four(1)),
            Stmt::Store(Output::Colour(0), Value(2)),
        ],
    );
    assert_eq!(execute(&module, &Stub::new()).err(), Some(Fault::Unassigned { value: 1 }));
}

#[test]
fn the_arithmetic_answers_the_degenerate_cases_the_way_the_rules_state() {
    let run = |kind: UnaryOp, input: Val| -> Val {
        let module = fragment(
            vec![input.kind.copy(), input.kind.copy(), vec4()],
            vec![assign(0, uniform(0)), assign(1, Op::Unary(kind, Value(0))), Stmt::Store(Output::Colour(0), Value(1))],
        );
        let stub = Stub::new().with_uniform(0, 0, input);
        execute(&module, &stub).unwrap().colour.remove(0).1
    };

    let zero = to_f32(&run(UnaryOp::Normalize, vector(&[0.0, 0.0, 0.0])));
    assert!(zero.iter().all(|value| *value == 0.0), "{zero:?}");
    let unit = to_f32(&run(UnaryOp::Normalize, vector(&[0.0, 3.0, 4.0])));
    assert!(near(unit[1], 0.6) && near(unit[2], 0.8));

    let fraction = to_f32(&run(UnaryOp::Fract, vector(&[-0.25, 0.75, -3.5])));
    assert!(near(fraction[0], 0.75) && near(fraction[1], 0.75) && near(fraction[2], 0.5), "{fraction:?}");
}

fn binary(op: BinaryOp, left: Val, right: Val) -> Val {
    let module = fragment(
        vec![left.kind.copy(), left.kind.copy(), left.kind.copy(), vec4()],
        vec![
            assign(0, uniform(0)),
            assign(1, uniform(1)),
            assign(2, Op::Binary(op, Value(0), Value(1))),
            Stmt::Store(Output::Colour(0), Value(2)),
        ],
    );
    let stub = Stub::new().with_uniform(0, 0, left).with_uniform(0, 1, right);
    execute(&module, &stub).unwrap().colour.remove(0).1
}

#[test]
fn modulo_is_euclidean_and_an_integer_divide_by_zero_answers_zero() {
    let wrapped = binary(BinaryOp::Modulo, number(-0.25), number(1.0));
    assert!(near(f(wrapped.f32_at(0)), 0.75), "a negative coordinate wraps to a positive fraction: {}", f(wrapped.f32_at(0)));

    let divided = binary(BinaryOp::Divide, Val::scalar_i32(7), Val::scalar_i32(0));
    assert_eq!(divided.i32_at(0), 0);
    let remainder = binary(BinaryOp::Modulo, Val::scalar_i32(-7), Val::scalar_i32(3));
    assert_eq!(remainder.i32_at(0), 2, "euclidean, so the remainder is never negative");

    let infinite = f(binary(BinaryOp::Divide, number(1.0), number(0.0)).f32_at(0));
    assert!(infinite.is_infinite() && infinite > 0.0);
}

#[test]
fn integer_arithmetic_wraps_and_shifts_by_the_low_bits() {
    let ints = |op: BinaryOp, a: i32, b: i32| binary(op, Val::scalar_i32(a), Val::scalar_i32(b)).i32_at(0);
    assert_eq!(ints(BinaryOp::Add, i32::MAX, 1), i32::MIN);
    assert_eq!(ints(BinaryOp::Subtract, i32::MIN, 1), i32::MAX);
    assert_eq!(ints(BinaryOp::Multiply, 65536, 65536), 0);
    assert_eq!(ints(BinaryOp::Divide, -7, 2), -3);
    assert_eq!(ints(BinaryOp::Divide, i32::MIN, -1), i32::MIN);
    assert_eq!(ints(BinaryOp::Modulo, i32::MIN, -1), 0);
    assert_eq!(ints(BinaryOp::Min, -5, 3), -5);
    assert_eq!(ints(BinaryOp::Max, -5, 3), 3);
    assert_eq!(ints(BinaryOp::ShiftLeft, 1, 4), 16);
    let words = |op: BinaryOp, a: u32, b: u32| binary(op, Val::scalar_u32(a), Val::scalar_u32(b)).u32_at(0);
    assert_eq!(words(BinaryOp::And, 0b1100, 0b1010), 0b1000);
    assert_eq!(words(BinaryOp::Or, 0b1100, 0b1010), 0b1110);
    assert_eq!(words(BinaryOp::Xor, 0b1100, 0b1010), 0b0110);
    assert_eq!(words(BinaryOp::Divide, 7, 0), 0);
    assert_eq!(words(BinaryOp::Modulo, 7, 0), 0);
}

#[test]
fn a_vector_condition_selects_component_by_component() {
    let module = fragment(
        vec![Type::Vector(ScalarType::Bool, 4), vec4(), vec4(), vec4()],
        vec![
            assign(0, uniform(0)),
            assign(1, uniform(1)),
            assign(2, uniform(2)),
            assign(3, Op::Select { condition: Value(0), on_true: Value(1), on_false: Value(2) }),
            Stmt::Store(Output::Colour(0), Value(3)),
        ],
    );
    let mask = Val::new(Type::Vector(ScalarType::Bool, 4), &[1, 0, 1, 0]);
    let stub = Stub::new().with_uniform(0, 0, mask).with_uniform(0, 1, vector(&[1.0, 1.0, 1.0, 1.0])).with_uniform(0, 2, vector(&[0.0, 0.0, 0.0, 0.0]));
    let picked = execute(&module, &stub).unwrap().colour.remove(0).1;
    assert_eq!(to_f32(&picked), vec![1.0, 0.0, 1.0, 0.0]);
}

#[test]
fn a_comparison_against_a_nan_follows_the_frozen_rule() {
    let compare = |kind: CompareKind, left: f32, right: f32| -> bool {
        let module = fragment(
            vec![float(), float(), Type::Scalar(ScalarType::Bool), vec4()],
            vec![
                assign(0, uniform(0)),
                assign(1, uniform(1)),
                assign(2, Op::Compare(kind, Value(0), Value(1))),
                Stmt::If { condition: Value(2), then_body: vec![Stmt::Store(Output::Depth, Value(0))], else_body: vec![] },
                assign(3, four(0)),
                Stmt::Store(Output::Colour(0), Value(3)),
            ],
        );
        let stub = Stub::new().with_uniform(0, 0, number(left)).with_uniform(0, 1, number(right));
        execute(&module, &stub).unwrap().depth.is_some()
    };
    assert!(!compare(CompareKind::Equal, f32::NAN, f32::NAN), "a NaN is not equal to itself");
    assert!(compare(CompareKind::NotEqual, f32::NAN, f32::NAN), "but it IS not-equal to itself");
    assert!(!compare(CompareKind::Less, f32::NAN, 1.0));
    assert!(!compare(CompareKind::GreaterOrEqual, f32::NAN, 1.0));
    assert!(compare(CompareKind::Equal, 1.0, 1.0), "and an ordinary comparison still works");
}

#[test]
fn the_transcendentals_answer_within_the_tolerance_they_are_on() {
    let apply = |which: Transcendental, value: f32, second: Option<f32>| -> f32 {
        let mut types = vec![float(), float(), vec4()];
        let mut body = vec![assign(0, uniform(0))];
        let second_value = second.map(|_| {
            types.push(float());
            Value(3)
        });
        if second_value.is_some() {
            body.push(assign(3, uniform(1)));
        }
        body.push(assign(1, Op::Transcendental(which, Value(0), second_value)));
        body.push(assign(2, four(1)));
        body.push(Stmt::Store(Output::Colour(0), Value(2)));
        let module = fragment(types, body);
        let mut stub = Stub::new().with_uniform(0, 0, number(value));
        if let Some(other) = second {
            stub = stub.with_uniform(0, 1, number(other));
        }
        f(execute(&module, &stub).unwrap().colour.remove(0).1.f32_at(0))
    };

    assert!(near(apply(Transcendental::Sqrt, 16.0, None), 4.0));
    assert!(near(apply(Transcendental::InverseSqrt, 16.0, None), 0.25));
    assert!(near(apply(Transcendental::Sin, 0.0, None), 0.0));
    assert!(near(apply(Transcendental::Cos, 0.0, None), 1.0));
    assert!(near(apply(Transcendental::Sin, core::f32::consts::FRAC_PI_2, None), 1.0));
    assert!(near(apply(Transcendental::Exp, 0.0, None), 1.0));
    assert!(near(apply(Transcendental::Log, 1.0, None), 0.0));
    assert!(near(apply(Transcendental::Exp2, 10.0, None), 1024.0));
    assert!(near(apply(Transcendental::Log2, 1024.0, None), 10.0));
    assert!(near(apply(Transcendental::Pow, 2.0, Some(10.0)), 1024.0));
    assert!(near(apply(Transcendental::Atan2, 1.0, Some(1.0)), core::f32::consts::FRAC_PI_4));
    assert!(near(apply(Transcendental::Acos, 1.0, None), 0.0));
}

#[test]
fn a_switch_takes_the_case_its_selector_names() {
    let module = |selector: i32| {
        fragment(
            vec![Type::Scalar(ScalarType::I32), Type::Scalar(ScalarType::U32)],
            vec![
                assign(0, Op::Const(Constant::I32(selector))),
                Stmt::Switch {
                    selector: Value(0),
                    cases: vec![(1, vec![assign(1, Op::Const(Constant::U32(11)))]), (2, vec![assign(1, Op::Const(Constant::U32(22)))])],
                    default_body: vec![assign(1, Op::Const(Constant::U32(99)))],
                },
                Stmt::Store(Output::Integer(3), Value(1)),
            ],
        )
    };
    assert_eq!(execute(&module(1), &Stub::new()).unwrap().integer, vec![(3, 11)]);
    assert_eq!(execute(&module(2), &Stub::new()).unwrap().integer, vec![(3, 22)]);
    assert_eq!(execute(&module(7), &Stub::new()).unwrap().integer, vec![(3, 99)]);
}

#[test]
fn a_missing_input_and_a_refused_sample_are_faults() {
    let missing = fragment(vec![float()], vec![assign(0, uniform(9)), Stmt::Store(Output::Depth, Value(0))]);
    assert_eq!(execute(&missing, &Stub::new()).err(), Some(Fault::MissingBinding));

    let sampling = fragment(
        vec![Type::Vector(ScalarType::F32, 2), vec4()],
        vec![
            assign(0, uniform(0)),
            assign(1, Op::Sample { binding: Binding::Texture { texture: 0, sampler: 0 }, coordinate: Value(0) }),
            Stmt::Store(Output::Colour(0), Value(1)),
        ],
    );
    let stub = Stub::new().with_uniform(0, 0, vector(&[0.5, 0.5]));
    assert_eq!(execute(&sampling, &stub).err(), Some(Fault::SampleFailed));
    let mut answered = Stub::new().with_uniform(0, 0, vector(&[0.5, 0.5]));
    answered.texel = Some(vector(&[0.1, 0.2, 0.3, 0.4]));
    assert_eq!(to_f32(&execute(&sampling, &answered).unwrap().colour[0].1), vec![0.1, 0.2, 0.3, 0.4]);
}

#[test]
fn operands_of_the_wrong_shape_are_a_mismatch() {
    let crossed = arithmetic::binary(BinaryOp::Cross, &vector(&[1.0, 2.0]), &vector(&[1.0, 2.0, 3.0]));
    assert!(matches!(crossed, Computed::Fault(Fault::TypeMismatch)));
    let crossed = arithmetic::binary(BinaryOp::Cross, &vector(&[1.0, 0.0, 0.0]), &vector(&[0.0, 1.0, 0.0]));
    match crossed {
        Computed::Job(work, _) => assert_eq!(compute(&work).iter().map(|word| f(*word)).collect::<Vec<f32>>(), vec![0.0, 0.0, 1.0]),
        other => panic!("{other:?}"),
    }
}

#[test]
fn values_carry_their_words_and_conversions_keep_them() {
    assert_eq!(Val::scalar_i32(-1).u32_at(0), u32::MAX);
    assert!(Val::scalar_bool(true).bool_at(0));
    assert_eq!(Val::scalar_u32(5).len(), 1);
    assert!(!Val::scalar_u32(5).is_empty());
    assert_eq!(Val::scalar_u32(5).f32_at(4), 0, "past the end is nothing");
    assert_eq!(Val::words_in(&Type::Array(Box::new(Type::Matrix(3)), 2)), 18);
    assert_eq!(Val::measure(&Type::Array(Box::new(Type::Array(Box::new(Type::Array(Box::new(vec4()), u32::MAX)), u32::MAX)), u32::MAX)), None);
    let many: Vec<u32> = (0..20).collect();
    assert_eq!(Words::from_slice(&many).as_slice(), many.as_slice());
    assert!(vec4().same(&vec4()));
    assert!(!vec4().same(&float()));
}

#[test]
fn a_machine_is_reused_and_a_varying_is_found_by_location() {
    let module = Module {
        stage: Stage::Vertex,
        types: vec![Type::Scalar(ScalarType::U32)],
        varyings: vec![Varying { location: 4, kind: float(), interpolation: Interpolation::Flat, sampling: Sampling::Sample }],
        body: vec![assign(0, Op::Const(Constant::U32(3))), Stmt::Store(Output::Integer(0), Value(0))],
    };
    let mut machine = Machine::new();
    for _ in 0..3 {
        assert!(interpreter::execute_into(&module, &[], &mut machine).is_ok());
        assert_eq!(machine.outputs().integer, vec![(0, 3)]);
    }
    assert!(interpreter::varying_of(&module, 4).is_some());
    assert!(interpreter::varying_of(&module, 5).is_none());
    assert!(interpreter::per_sample(&module));
    assert_eq!(interpreter::stage(&module), Stage::Vertex);
}

#[test]
fn more_answers_than_a_run_needs_change_nothing() {
    let module = fragment(vec![float()], vec![assign(0, uniform(0)), Stmt::Store(Output::Depth, Value(0))]);
    let answers = [Answer::Value(Some(number(0.25)))];
    let longer = [Answer::Value(Some(number(0.25))), Answer::Words(vec![1, 2, 3])];
    let short = interpreter::execute(&module, &answers).unwrap();
    let long = interpreter::execute(&module, &longer).unwrap();
    assert_eq!(short.depth, long.depth);
    assert_eq!(short.depth, Some(0.25_f32.to_bits()));
}

#[test]
fn the_integer_side_of_the_unary_operations() {
    let one = |op: UnaryOp, value: Val| match arithmetic::unary(op, &value) {
        Computed::Done(done) => done.words().to_vec(),
        other => panic!("{other:?}"),
    };
    assert_eq!(one(UnaryOp::Negate, Val::scalar_i32(i32::MIN)), vec![i32::MIN as u32]);
    assert_eq!(one(UnaryOp::Negate, number(1.5)), vec![(-1.5_f32).to_bits()]);
    assert_eq!(one(UnaryOp::Abs, Val::scalar_i32(-9)), vec![9]);
    assert_eq!(one(UnaryOp::Abs, number(-2.0)), vec![2.0_f32.to_bits()]);
    assert_eq!(one(UnaryOp::Complement, Val::scalar_u32(0)), vec![u32::MAX]);
    assert_eq!(one(UnaryOp::Not, Val::scalar_bool(true)), vec![0]);
    assert_eq!(one(UnaryOp::Convert(ScalarType::Bool), number(-0.0)), vec![0], "a negative zero is no truth");
    assert_eq!(one(UnaryOp::Convert(ScalarType::F32), Val::scalar_bool(true)), vec![1.0_f32.to_bits()]);
}

#[test]
fn a_matrix_is_its_columns_and_a_register_is_read_in_place() {
    let columns = [[1, 2, 3, 4], [5, 6, 7, 8], [9, 10, 11, 12], [13, 14, 15, 16]];
    assert_eq!(Val::matrix(&columns, 2).words(), [1, 2, 5, 6]);
    assert_eq!(Val::matrix(&columns, 3).words(), [1, 2, 3, 5, 6, 7, 9, 10, 11]);
    assert_eq!(Val::matrix(&columns, 4).len(), 16);
    assert_eq!(Val::matrix(&columns[..1], 4).words(), [1, 2, 3, 4]);
    assert!(Val::matrix(&columns, 0).is_empty());
    let kind = Type::Vector(ScalarType::I32, 2);
    let register = Reg::new(&kind, &[7, u32::MAX]);
    assert_eq!((register.scalar_type(), register.len(), register.is_empty()), (ScalarType::I32, 2, false));
    assert_eq!((register.u32_at(0), register.i32_at(1), register.bool_at(1), register.bool_at(2)), (7, -1, true, false));
    assert_eq!((register.f32_at(0), register.to_f32()), (7, [7, u32::MAX, 0, 0]));
    assert_eq!(register.to_val().words(), [7, u32::MAX]);
}

#[test]
fn a_faulted_stage_leaves_what_it_had_written() {
    let mut module = fragment(
        vec![Type::Scalar(ScalarType::U32), float()],
        vec![assign(0, Op::Const(Constant::U32(3))), Stmt::Store(Output::Integer(0), Value(0)), Stmt::Store(Output::Depth, Value(1))],
    );
    let mut machine = Machine::new();
    assert!(matches!(interpreter::execute_into(&module, &[], &mut machine), Err(Stop::Fault(Fault::Unassigned { value: 1 }))));
    assert_eq!(machine.outputs().integer, vec![(0, 3)]);
    assert_eq!(machine.outputs().depth, None);
    module.body.clear();
    assert!(interpreter::execute_into(&module, &[], &mut machine).is_ok());
    assert!(machine.outputs().integer.is_empty());
}
