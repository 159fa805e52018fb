//! The shader interpreter: both stages, every operation, one deterministic scalar path.
//!
//! A run is a function of the module and of what the environment has answered so far. Where a run needs
//! something that is not the interpreter's to compute - an input, a texture read, floating-point
//! arithmetic - it stops and says what, and the caller runs again with the answer appended to the ones it
//! gave before. Every loop counts down a number its statement states, so a run cannot hang.
use super::arithmetic::{
    binary, binary_result, clamp, clamp_result, compare, comparison, element, extract, extract_result,
    index_result, mix, mix_result, normalize, normalized, select, select_result, transcendental,
    transcendental_result, truth_word, unary, unary_result, Computed, FloatWork, Outcome, Work,
};
use super::shader::{
    BinaryOp, Binding, Constant, Module, Op, Output, Sampling, ScalarType, Stage, Stmt, Transcendental, Type, UnaryOp,
    Value, Varying,
};
use super::value::{signed, unsigned, Datum, Val, INLINE_WORDS};
use vstd::prelude::*;

verus! {

/// Why a shader could not be executed: what only a running shader finds.
#[derive(Clone, Copy, PartialEq, Eq, Structural, Debug)]
pub enum Fault {
    /// A value read before the statement that assigns it ran.
    Unassigned { value: u32 },
    /// A computed index outside its array.
    IndexOutOfRange { index: i64, length: u32 },
    /// A binding the environment does not supply.
    MissingBinding,
    /// An operand shape the operation cannot take.
    TypeMismatch,
    /// A texture read the sampler refused.
    SampleFailed,
}

/// What a stage wrote.
#[derive(Debug)]
pub struct Outputs {
    pub position: Option<Val>,
    /// As a bit pattern.
    pub point_size: Option<u32>,
    pub varyings: Vec<(u32, Val)>,
    pub colour: Vec<(u32, Val)>,
    pub integer: Vec<(u32, u32)>,
    /// As a bit pattern.
    pub depth: Option<u32>,
    pub sample_mask: Option<u32>,
    /// A discarded fragment writes nothing.
    pub discarded: bool,
}

/// What a stage wrote, as a value.
#[verifier::ext_equal]
pub ghost struct Written {
    pub position: Option<Datum>,
    pub point_size: Option<u32>,
    pub varyings: Seq<(u32, Datum)>,
    pub colour: Seq<(u32, Datum)>,
    pub integer: Seq<(u32, u32)>,
    pub depth: Option<u32>,
    pub sample_mask: Option<u32>,
    pub discarded: bool,
}

/// A stored value as the value it holds.
pub open spec fn held(value: Option<Val>) -> Option<Datum> {
    match value {
        Some(inner) => Some(inner@),
        None => None,
    }
}

/// Located values as the values they hold.
pub open spec fn located(values: Seq<(u32, Val)>) -> Seq<(u32, Datum)> {
    Seq::new(values.len(), |i: int| (values[i].0, values[i].1@))
}

impl View for Outputs {
    type V = Written;

    open spec fn view(&self) -> Written {
        Written {
            position: held(self.position),
            point_size: self.point_size,
            varyings: located(self.varyings@),
            colour: located(self.colour@),
            integer: self.integer@,
            depth: self.depth,
            sample_mask: self.sample_mask,
            discarded: self.discarded,
        }
    }
}

/// Nothing written.
pub open spec fn blank() -> Written {
    Written {
        position: None,
        point_size: None,
        varyings: Seq::empty(),
        colour: Seq::empty(),
        integer: Seq::empty(),
        depth: None,
        sample_mask: None,
        discarded: false,
    }
}

impl Outputs {
    /// Outputs that hold nothing.
    pub fn new() -> (made: Outputs)
        ensures
            made@ == blank(),
    {
        let made = Outputs {
            position: None,
            point_size: None,
            varyings: Vec::new(),
            colour: Vec::new(),
            integer: Vec::new(),
            depth: None,
            sample_mask: None,
            discarded: false,
        };
        assert(made@ =~= blank());
        made
    }

    /// Empty it, keeping every allocation.
    pub fn clear(&mut self)
        ensures
            final(self)@ == blank(),
    {
        self.position = None;
        self.point_size = None;
        self.varyings.clear();
        self.colour.clear();
        self.integer.clear();
        self.depth = None;
        self.sample_mask = None;
        self.discarded = false;
        assert(self@ =~= blank());
    }
}

/// What a run needs from its environment.
#[derive(Debug)]
pub enum Request {
    /// The value of an input.
    Input(Binding),
    /// A texture read.
    Sample { texture: u32, sampler: u32, coordinate: Val },
    /// Floating-point arithmetic.
    Arithmetic(FloatWork),
}

/// What a run needs, as a value.
#[verifier::ext_equal]
pub ghost enum Ask {
    Input(Binding),
    Sample(u32, u32, Datum),
    Arithmetic(Work),
}

impl View for Request {
    type V = Ask;

    open spec fn view(&self) -> Ask {
        match self {
            Request::Input(binding) => Ask::Input(*binding),
            Request::Sample { texture, sampler, coordinate } => Ask::Sample(
                *texture,
                *sampler,
                coordinate@,
            ),
            Request::Arithmetic(work) => Ask::Arithmetic(work@),
        }
    }
}

/// What the environment answered: a value to an input or a texture read, or none where it has none; result
/// words to arithmetic.
#[derive(Debug)]
pub enum Answer {
    Value(Option<Val>),
    Words(Vec<u32>),
}

/// What the environment answered, as a value.
pub ghost enum Reply {
    Value(Option<Datum>),
    Words(Seq<u32>),
}

impl View for Answer {
    type V = Reply;

    open spec fn view(&self) -> Reply {
        match self {
            Answer::Value(value) => Reply::Value(held(*value)),
            Answer::Words(words) => Reply::Words(words@),
        }
    }
}

/// The answers given so far, as values.
pub open spec fn replies(answers: Seq<Answer>) -> Seq<Reply> {
    Seq::new(answers.len(), |i: int| answers[i]@)
}

/// How far the evaluation of an operation got. The number counts the answers used.
#[verifier::ext_equal]
pub ghost enum Evaluated {
    Done(Datum, int),
    Fault(Fault),
    Waits(Ask),
}

/// The values of a stage, by name.
pub open spec fn stored(values: Seq<Option<Val>>) -> Seq<Option<Datum>> {
    Seq::new(values.len(), |i: int| held(values[i]))
}

/// The value a name stands for, if it has been assigned.
pub open spec fn assigned(values: Seq<Option<Datum>>, name: Value) -> Option<Datum> {
    if name.0 < values.len() {
        values[name.0 as int]
    } else {
        None
    }
}

/// An operation's outcome with the answers that are there.
pub open spec fn settle(outcome: Outcome, given: Seq<Reply>, used: int) -> Evaluated {
    match outcome {
        Outcome::Done(value) => Evaluated::Done(value, used),
        Outcome::Fault(fault) => Evaluated::Fault(fault),
        Outcome::Job(work, kind) => if used >= given.len() {
            Evaluated::Waits(Ask::Arithmetic(work))
        } else {
            match given[used] {
                Reply::Words(words) => if words.len() == work.width {
                    Evaluated::Done(Datum { kind, words }, used + 1)
                } else {
                    Evaluated::Fault(Fault::TypeMismatch)
                },
                Reply::Value(_) => Evaluated::Fault(Fault::TypeMismatch),
            }
        },
        Outcome::Measure(work) => Evaluated::Waits(Ask::Arithmetic(work)),
    }
}

/// Normalising a vector: its length first, then the division by it.
pub open spec fn settle_normalize(value: Datum, work: Work, given: Seq<Reply>, used: int) -> Evaluated {
    if used >= given.len() {
        Evaluated::Waits(Ask::Arithmetic(work))
    } else {
        match given[used] {
            Reply::Words(words) => if words.len() == 1 {
                settle(normalized(value, words[0]), given, used + 1)
            } else {
                Evaluated::Fault(Fault::TypeMismatch)
            },
            Reply::Value(_) => Evaluated::Fault(Fault::TypeMismatch),
        }
    }
}

/// A value the environment supplies: `missing` where it has none.
pub open spec fn settle_value(ask: Ask, missing: Fault, given: Seq<Reply>, used: int) -> Evaluated {
    if used >= given.len() {
        Evaluated::Waits(ask)
    } else {
        match given[used] {
            Reply::Value(Some(value)) => Evaluated::Done(value, used + 1),
            Reply::Value(None) => Evaluated::Fault(missing),
            Reply::Words(_) => Evaluated::Fault(Fault::TypeMismatch),
        }
    }
}

/// The words of parts one after the other, as many as fit inline.
pub open spec fn gathered(values: Seq<Option<Datum>>, parts: Seq<Value>) -> Result<Seq<u32>, Fault>
    decreases parts.len(),
{
    if parts.len() == 0 {
        Ok(Seq::empty())
    } else {
        match gathered(values, parts.drop_last()) {
            Err(fault) => Err(fault),
            Ok(words) => match assigned(values, parts.last()) {
                None => Err(Fault::Unassigned { value: parts.last().0 }),
                Some(part) => if words.len() + part.words.len() > INLINE_WORDS {
                    Err(Fault::TypeMismatch)
                } else {
                    Ok(words + part.words)
                },
            },
        }
    }
}

/// The value of a constant.
pub open spec fn constant(value: Constant) -> Datum {
    match value {
        Constant::Bool(truth) => Datum {
            kind: Type::Scalar(ScalarType::Bool),
            words: seq![truth_word(truth)],
        },
        Constant::I32(number) => Datum {
            kind: Type::Scalar(ScalarType::I32),
            words: seq![unsigned(number as int)],
        },
        Constant::U32(number) => Datum { kind: Type::Scalar(ScalarType::U32), words: seq![number] },
        Constant::F32(bits) => Datum { kind: Type::Scalar(ScalarType::F32), words: seq![bits] },
    }
}

/// Evaluate an operation over the values assigned so far. Operands are read in the order they are written.
pub open spec fn evaluated(op: Op, values: Seq<Option<Datum>>, given: Seq<Reply>, used: int) -> Evaluated {
    match op {
        Op::Const(value) => Evaluated::Done(constant(value), used),
        Op::Load(binding) => if binding is Texture {
            Evaluated::Fault(Fault::MissingBinding)
        } else {
            settle_value(Ask::Input(binding), Fault::MissingBinding, given, used)
        },
        Op::Compose(kind, parts) => match gathered(values, parts@) {
            Err(fault) => Evaluated::Fault(fault),
            Ok(words) => if words.len() == kind.size() {
                Evaluated::Done(Datum { kind, words }, used)
            } else {
                Evaluated::Fault(Fault::TypeMismatch)
            },
        },
        Op::Extract(name, component) => match assigned(values, name) {
            None => Evaluated::Fault(Fault::Unassigned { value: name.0 }),
            Some(value) => settle(extract_result(value, component), given, used),
        },
        Op::Unary(unary, name) => match assigned(values, name) {
            None => Evaluated::Fault(Fault::Unassigned { value: name.0 }),
            Some(value) => match unary_result(unary, value) {
                Outcome::Measure(work) => settle_normalize(value, work, given, used),
                outcome => settle(outcome, given, used),
            },
        },
        Op::Binary(binary, l, r) => match assigned(values, l) {
            None => Evaluated::Fault(Fault::Unassigned { value: l.0 }),
            Some(left) => match assigned(values, r) {
                None => Evaluated::Fault(Fault::Unassigned { value: r.0 }),
                Some(right) => settle(binary_result(binary, left, right), given, used),
            },
        },
        Op::Compare(kind, l, r) => match assigned(values, l) {
            None => Evaluated::Fault(Fault::Unassigned { value: l.0 }),
            Some(left) => match assigned(values, r) {
                None => Evaluated::Fault(Fault::Unassigned { value: r.0 }),
                Some(right) => Evaluated::Done(
                    Datum {
                        kind: Type::Scalar(ScalarType::Bool),
                        words: seq![truth_word(comparison(kind, left, right))],
                    },
                    used,
                ),
            },
        },
        Op::Select { condition, on_true, on_false } => match assigned(values, condition) {
            None => Evaluated::Fault(Fault::Unassigned { value: condition.0 }),
            Some(c) => match assigned(values, on_true) {
                None => Evaluated::Fault(Fault::Unassigned { value: on_true.0 }),
                Some(t) => match assigned(values, on_false) {
                    None => Evaluated::Fault(Fault::Unassigned { value: on_false.0 }),
                    Some(f) => settle(select_result(c, t, f), given, used),
                },
            },
        },
        Op::Transcendental(which, name, second) => match assigned(values, name) {
            None => Evaluated::Fault(Fault::Unassigned { value: name.0 }),
            Some(value) => match second {
                None => settle(transcendental_result(which, value, None), given, used),
                Some(other) => match assigned(values, other) {
                    None => Evaluated::Fault(Fault::Unassigned { value: other.0 }),
                    Some(operand) => settle(
                        transcendental_result(which, value, Some(operand)),
                        given,
                        used,
                    ),
                },
            },
        },
        Op::Clamp { value, low, high } => match assigned(values, value) {
            None => Evaluated::Fault(Fault::Unassigned { value: value.0 }),
            Some(v) => match assigned(values, low) {
                None => Evaluated::Fault(Fault::Unassigned { value: low.0 }),
                Some(l) => match assigned(values, high) {
                    None => Evaluated::Fault(Fault::Unassigned { value: high.0 }),
                    Some(h) => settle(clamp_result(v, l, h), given, used),
                },
            },
        },
        Op::Mix { from, to, at } => match assigned(values, from) {
            None => Evaluated::Fault(Fault::Unassigned { value: from.0 }),
            Some(f) => match assigned(values, to) {
                None => Evaluated::Fault(Fault::Unassigned { value: to.0 }),
                Some(t) => match assigned(values, at) {
                    None => Evaluated::Fault(Fault::Unassigned { value: at.0 }),
                    Some(a) => settle(mix_result(f, t, a), given, used),
                },
            },
        },
        Op::Index { array, index } => match assigned(values, array) {
            None => Evaluated::Fault(Fault::Unassigned { value: array.0 }),
            Some(a) => match assigned(values, index) {
                None => Evaluated::Fault(Fault::Unassigned { value: index.0 }),
                Some(i) => settle(index_result(a, i), given, used),
            },
        },
        Op::Sample { binding, coordinate } => match binding {
            Binding::Texture { texture, sampler } => match assigned(values, coordinate) {
                None => Evaluated::Fault(Fault::Unassigned { value: coordinate.0 }),
                Some(at) => settle_value(
                    Ask::Sample(texture, sampler, at),
                    Fault::SampleFailed,
                    given,
                    used,
                ),
            },
            _ => Evaluated::Fault(Fault::TypeMismatch),
        },
    }
}

/// What a statement did, which is how a `break` or a `return` leaves a nested body.
#[derive(Clone, Copy, PartialEq, Eq, Structural, Debug)]
pub enum Flow {
    Next,
    Break,
    Continue,
    Return,
}

/// A running stage: its values, what it has written, and how many answers it has used.
#[verifier::ext_equal]
pub ghost struct State {
    pub values: Seq<Option<Datum>>,
    pub outputs: Written,
    pub used: int,
}

/// How far a run got, and the state it is left in.
#[verifier::ext_equal]
pub ghost enum Ran {
    Flow(Flow, State),
    Fault(Fault, State),
    Waits(Ask, State),
}

impl Ran {
    /// The state a run is left in, wherever it stopped.
    pub open spec fn left(self) -> State {
        match self {
            Ran::Flow(_, state) => state,
            Ran::Fault(_, state) => state,
            Ran::Waits(_, state) => state,
        }
    }
}

/// The outputs with one value stored.
pub open spec fn storing(outputs: Written, output: Output, value: Datum) -> Written {
    match output {
        Output::Position => Written { position: Some(value), ..outputs },
        Output::PointSize => Written { point_size: Some(value.word(0)), ..outputs },
        Output::Varying(location) => Written { varyings: outputs.varyings.push((location, value)), ..outputs },
        Output::Colour(index) => Written { colour: outputs.colour.push((index, value)), ..outputs },
        Output::Integer(index) => Written { integer: outputs.integer.push((index, value.word(0))), ..outputs },
        Output::Depth => Written { depth: Some(value.word(0)), ..outputs },
        Output::SampleMask => Written { sample_mask: Some(value.word(0)), ..outputs },
    }
}

/// The first case of a switch with this value, counted from a position.
pub open spec fn case_of(cases: Seq<(i32, Vec<Stmt>)>, selector: int, from: int) -> Option<int>
    decreases cases.len() - from,
{
    if from < 0 || from >= cases.len() {
        None
    } else if cases[from].0 == selector {
        Some(from)
    } else {
        case_of(cases, selector, from + 1)
    }
}

/// Run one statement.
pub open spec fn run_statement(statement: Stmt, state: State, given: Seq<Reply>) -> Ran
    decreases statement, 0nat, 0nat,
{
    match statement {
        Stmt::Assign(name, op) => match evaluated(op, state.values, given, state.used) {
            Evaluated::Fault(fault) => Ran::Fault(fault, state),
            Evaluated::Waits(ask) => Ran::Waits(ask, state),
            Evaluated::Done(value, used) => if name.0 < state.values.len() {
                Ran::Flow(
                    Flow::Next,
                    State { values: state.values.update(name.0 as int, Some(value)), used, ..state },
                )
            } else {
                Ran::Fault(Fault::TypeMismatch, state)
            },
        },
        Stmt::Store(output, name) => match assigned(state.values, name) {
            None => Ran::Fault(Fault::Unassigned { value: name.0 }, state),
            Some(value) => Ran::Flow(
                Flow::Next,
                State { outputs: storing(state.outputs, output, value), ..state },
            ),
        },
        Stmt::If { condition, then_body, else_body } => match assigned(state.values, condition) {
            None => Ran::Fault(Fault::Unassigned { value: condition.0 }, state),
            Some(value) => if value.word(0) != 0 {
                run_body(then_body@, 0, state, given)
            } else {
                run_body(else_body@, 0, state, given)
            },
        },
        Stmt::Switch { selector, cases, default_body } => match assigned(state.values, selector) {
            None => Ran::Fault(Fault::Unassigned { value: selector.0 }, state),
            Some(value) => match case_of(cases@, signed(value.word(0)), 0) {
                Some(i) => if 0 <= i < cases@.len() {
                    run_body(cases@[i].1@, 0, state, given)
                } else {
                    run_body(default_body@, 0, state, given)
                },
                None => run_body(default_body@, 0, state, given),
            },
        },
        Stmt::Loop { trips, body } => run_loop(body@, trips as nat, state, given),
        Stmt::Break => Ran::Flow(Flow::Break, state),
        Stmt::Continue => Ran::Flow(Flow::Continue, state),
        Stmt::Return => Ran::Flow(Flow::Return, state),
        Stmt::Discard => Ran::Flow(
            Flow::Return,
            State { outputs: Written { discarded: true, ..state.outputs }, ..state },
        ),
    }
}

/// Run the statements of a body from a position on, until one of them leaves it.
pub open spec fn run_body(body: Seq<Stmt>, from: nat, state: State, given: Seq<Reply>) -> Ran
    decreases body, 0nat, (body.len() - from) as nat,
{
    if from >= body.len() {
        Ran::Flow(Flow::Next, state)
    } else {
        match run_statement(body[from as int], state, given) {
            Ran::Flow(Flow::Next, next) => run_body(body, from + 1, next, given),
            stopped => stopped,
        }
    }
}

/// Run a body a stated number of times. A `break` ends the loop, a `continue` its trip, a `return` the stage.
pub open spec fn run_loop(body: Seq<Stmt>, trips: nat, state: State, given: Seq<Reply>) -> Ran
    decreases body, trips + 1, 0nat,
{
    if trips == 0 {
        Ran::Flow(Flow::Next, state)
    } else {
        match run_body(body, 0, state, given) {
            Ran::Flow(Flow::Break, next) => Ran::Flow(Flow::Next, next),
            Ran::Flow(Flow::Return, next) => Ran::Flow(Flow::Return, next),
            Ran::Flow(_, next) => run_loop(body, (trips - 1) as nat, next, given),
            stopped => stopped,
        }
    }
}

/// A stage that has assigned and written nothing.
pub open spec fn fresh(values: nat) -> State {
    State { values: Seq::new(values, |i: int| None), outputs: blank(), used: 0 }
}

/// Run a module with the answers given so far.
pub open spec fn run(module: Module, given: Seq<Reply>) -> Ran {
    run_body(module.body@, 0, fresh(module.types@.len()), given)
}

/// Why a run stopped before its end.
#[derive(Debug)]
pub enum Stop {
    Fault(Fault),
    /// The run needs this from its environment.
    Pending(Request),
}

/// Whether a result is how far an evaluation got.
spec fn settles(result: Result<(Val, usize), Stop>, evaluation: Evaluated) -> bool {
    match result {
        Ok((value, used)) => evaluation == Evaluated::Done(value@, used as int),
        Err(Stop::Fault(fault)) => evaluation == Evaluated::Fault(fault),
        Err(Stop::Pending(request)) => evaluation == Evaluated::Waits(request@),
    }
}

/// Whether a result is how far a run got.
spec fn arrives(result: Result<Flow, Stop>, state: State, ran: Ran) -> bool {
    match result {
        Ok(flow) => ran == Ran::Flow(flow, state),
        Err(Stop::Fault(fault)) => ran == Ran::Fault(fault, state),
        Err(Stop::Pending(request)) => ran == Ran::Waits(request@, state),
    }
}

/// The interpreter's reusable state: one slot per value the module assigns, and the outputs.
#[derive(Debug)]
pub struct Machine {
    values: Vec<Option<Val>>,
    outputs: Outputs,
    used: usize,
}

fn words_of(words: &Vec<u32>, kind: Type) -> (value: Val)
    ensures
        value@ == (Datum { kind, words: words@ }),
{
    Val::new(kind, words.as_slice())
}

/// An operation's outcome with the answers that are there.
fn settled(computed: Computed, answers: &[Answer], used: usize) -> (result: Result<(Val, usize), Stop>)
    requires
        used <= answers@.len(),
    ensures
        settles(result, settle(computed@, replies(answers@), used as int)),
        result matches Ok((_, now)) ==> now <= answers@.len(),
{
    match computed {
        Computed::Done(value) => Ok((value, used)),
        Computed::Fault(fault) => Err(Stop::Fault(fault)),
        Computed::Measure(work) => Err(Stop::Pending(Request::Arithmetic(work))),
        Computed::Job(work, kind) => {
            if used >= answers.len() {
                return Err(Stop::Pending(Request::Arithmetic(work)));
            }
            assert(replies(answers@)[used as int] == answers@[used as int]@);
            match &answers[used] {
                Answer::Words(words) => {
                    if words.len() == work.width {
                        Ok((words_of(words, kind), used + 1))
                    } else {
                        Err(Stop::Fault(Fault::TypeMismatch))
                    }
                },
                Answer::Value(_) => Err(Stop::Fault(Fault::TypeMismatch)),
            }
        },
    }
}

/// Normalising a vector: its length first, then the division by it.
fn settled_normalize(value: &Val, work: FloatWork, answers: &[Answer], used: usize) -> (result: Result<
    (Val, usize),
    Stop,
>)
    requires
        used <= answers@.len(),
    ensures
        settles(result, settle_normalize(value@, work@, replies(answers@), used as int)),
        result matches Ok((_, now)) ==> now <= answers@.len(),
{
    if used >= answers.len() {
        return Err(Stop::Pending(Request::Arithmetic(work)));
    }
    assert(replies(answers@)[used as int] == answers@[used as int]@);
    match &answers[used] {
        Answer::Words(words) => {
            if words.len() == 1 {
                settled(normalize(value, words[0]), answers, used + 1)
            } else {
                Err(Stop::Fault(Fault::TypeMismatch))
            }
        },
        Answer::Value(_) => Err(Stop::Fault(Fault::TypeMismatch)),
    }
}

/// A value the environment supplies.
fn settled_value(request: Request, missing: Fault, answers: &[Answer], used: usize) -> (result: Result<
    (Val, usize),
    Stop,
>)
    requires
        used <= answers@.len(),
    ensures
        settles(result, settle_value(request@, missing, replies(answers@), used as int)),
        result matches Ok((_, now)) ==> now <= answers@.len(),
{
    if used >= answers.len() {
        return Err(Stop::Pending(request));
    }
    assert(replies(answers@)[used as int] == answers@[used as int]@);
    match &answers[used] {
        Answer::Value(Some(value)) => Ok((value.duplicate(), used + 1)),
        Answer::Value(None) => Err(Stop::Fault(missing)),
        Answer::Words(_) => Err(Stop::Fault(Fault::TypeMismatch)),
    }
}

impl Machine {
    /// The state of the run this machine holds.
    closed spec fn state(self) -> State {
        State { values: stored(self.values@), outputs: self.outputs@, used: self.used as int }
    }

    /// What the stage wrote.
    pub closed spec fn written(self) -> Written {
        self.outputs@
    }

    /// A machine that has run nothing.
    pub fn new() -> (made: Machine)
        ensures
            made.written() == blank(),
    {
        Machine { values: Vec::new(), outputs: Outputs::new(), used: 0 }
    }

    /// What the stage wrote.
    pub fn outputs(&self) -> (outputs: &Outputs)
        ensures
            outputs@ == self.written(),
    {
        &self.outputs
    }

    /// Make ready for a module of `count` values.
    fn reset(&mut self, count: usize)
        ensures
            final(self).state() == fresh(count as nat),
    {
        self.values.clear();
        self.outputs.clear();
        self.used = 0;
        while self.values.len() < count
            invariant
                self.values@.len() <= count,
                self.outputs@ == blank(),
                self.used == 0,
                forall|i: int| 0 <= i < self.values@.len() ==> (#[trigger] self.values@[i]) is None,
            decreases count - self.values@.len(),
        {
            self.values.push(None);
        }
        assert(stored(self.values@) =~= fresh(count as nat).values);
    }

    /// The value a name stands for.
    fn read(&self, name: Value) -> (value: Result<&Val, Fault>)
        ensures
            match value {
                Ok(found) => assigned(self.state().values, name) == Some(found@),
                Err(fault) => assigned(self.state().values, name) is None && fault == (Fault::Unassigned {
                    value: name.0,
                }),
            },
    {
        let slot: usize = name.0 as usize;
        if slot >= self.values.len() {
            return Err(Fault::Unassigned { value: name.0 });
        }
        assert(stored(self.values@)[slot as int] == held(self.values@[slot as int]));
        match &self.values[slot] {
            Some(value) => Ok(value),
            None => Err(Fault::Unassigned { value: name.0 }),
        }
    }

    /// The words of parts one after the other.
    fn gather(&self, parts: &Vec<Value>) -> (words: Result<Vec<u32>, Fault>)
        ensures
            match words {
                Ok(found) => gathered(self.state().values, parts@) == Ok::<Seq<u32>, Fault>(found@)
                    && found@.len() <= 16,
                Err(fault) => gathered(self.state().values, parts@) == Err::<Seq<u32>, Fault>(fault),
            },
    {
        let mut words: Vec<u32> = Vec::new();
        let mut next: usize = 0;
        let ghost values = self.state().values;
        assert(parts@.take(0) =~= Seq::<Value>::empty());
        while next < parts.len()
            invariant
                next <= parts@.len(),
                values == self.state().values,
                words@.len() <= 16,
                gathered(values, parts@.take(next as int)) == Ok::<Seq<u32>, Fault>(words@),
            decreases parts@.len() - next,
        {
            let name = parts[next];
            let ghost longer = parts@.take(next + 1);
            proof {
                assert(longer.drop_last() =~= parts@.take(next as int));
                assert(longer.last() == name);
            }
            match self.read(name) {
                Err(fault) => {
                    proof {
                        gathering_stops(values, parts@, next + 1);
                    }
                    return Err(fault);
                },
                Ok(part) => {
                    let more = part.words();
                    if more.len() > INLINE_WORDS - words.len() {
                        proof {
                            gathering_stops(values, parts@, next + 1);
                        }
                        return Err(Fault::TypeMismatch);
                    }
                    let ghost had = words@;
                    let mut at: usize = 0;
                    while at < more.len()
                        invariant
                            at <= more@.len(),
                            words@ == had + more@.take(at as int),
                        decreases more@.len() - at,
                    {
                        words.push(more[at]);
                        at = at + 1;
                        assert(words@ =~= had + more@.take(at as int));
                    }
                    assert(more@.take(more@.len() as int) =~= more@);
                },
            }
            next = next + 1;
        }
        assert(parts@.take(parts@.len() as int) =~= parts@);
        Ok(words)
    }

    /// Evaluate an operation over the values assigned so far.
    fn operation(&self, op: &Op, answers: &[Answer]) -> (result: Result<(Val, usize), Stop>)
        requires
            self.state().used <= answers@.len(),
        ensures
            settles(
                result,
                evaluated(*op, self.state().values, replies(answers@), self.state().used),
            ),
            result matches Ok((_, now)) ==> now <= answers@.len(),
    {
        let used: usize = self.used;
        match op {
            Op::Const(value) => {
                let made = match value {
                    Constant::Bool(truth) => Val::scalar_bool(*truth),
                    Constant::I32(number) => Val::scalar_i32(*number),
                    Constant::U32(number) => Val::scalar_u32(*number),
                    Constant::F32(bits) => Val::scalar_f32(*bits),
                };
                assert(made@ =~= constant(*value));
                Ok((made, used))
            },
            Op::Load(binding) => {
                if matches!(binding, Binding::Texture { .. }) {
                    return Err(Stop::Fault(Fault::MissingBinding));
                }
                settled_value(Request::Input(*binding), Fault::MissingBinding, answers, used)
            },
            Op::Compose(kind, parts) => {
                match self.gather(parts) {
                    Err(fault) => Err(Stop::Fault(fault)),
                    Ok(words) => {
                        match Val::measure(kind) {
                            Some(size) => {
                                if words.len() == size {
                                    Ok((words_of(&words, kind.copy()), used))
                                } else {
                                    Err(Stop::Fault(Fault::TypeMismatch))
                                }
                            },
                            None => Err(Stop::Fault(Fault::TypeMismatch)),
                        }
                    },
                }
            },
            Op::Extract(name, component) => {
                match self.read(*name) {
                    Err(fault) => Err(Stop::Fault(fault)),
                    Ok(value) => settled(extract(value, *component), answers, used),
                }
            },
            Op::Unary(which, name) => {
                match self.read(*name) {
                    Err(fault) => Err(Stop::Fault(fault)),
                    Ok(value) => match unary(*which, value) {
                        Computed::Measure(work) => settled_normalize(value, work, answers, used),
                        computed => settled(computed, answers, used),
                    },
                }
            },
            Op::Binary(which, l, r) => {
                match self.read(*l) {
                    Err(fault) => Err(Stop::Fault(fault)),
                    Ok(left) => match self.read(*r) {
                        Err(fault) => Err(Stop::Fault(fault)),
                        Ok(right) => settled(binary(*which, left, right), answers, used),
                    },
                }
            },
            Op::Compare(kind, l, r) => {
                match self.read(*l) {
                    Err(fault) => Err(Stop::Fault(fault)),
                    Ok(left) => match self.read(*r) {
                        Err(fault) => Err(Stop::Fault(fault)),
                        Ok(right) => Ok((Val::scalar_bool(compare(*kind, left, right)), used)),
                    },
                }
            },
            Op::Select { condition, on_true, on_false } => {
                match self.read(*condition) {
                    Err(fault) => Err(Stop::Fault(fault)),
                    Ok(c) => match self.read(*on_true) {
                        Err(fault) => Err(Stop::Fault(fault)),
                        Ok(t) => match self.read(*on_false) {
                            Err(fault) => Err(Stop::Fault(fault)),
                            Ok(f) => settled(select(c, t, f), answers, used),
                        },
                    },
                }
            },
            Op::Transcendental(which, name, second) => {
                match self.read(*name) {
                    Err(fault) => Err(Stop::Fault(fault)),
                    Ok(value) => match second {
                        None => settled(transcendental(*which, value, None), answers, used),
                        Some(other) => match self.read(*other) {
                            Err(fault) => Err(Stop::Fault(fault)),
                            Ok(operand) => settled(
                                transcendental(*which, value, Some(operand)),
                                answers,
                                used,
                            ),
                        },
                    },
                }
            },
            Op::Clamp { value, low, high } => {
                match self.read(*value) {
                    Err(fault) => Err(Stop::Fault(fault)),
                    Ok(v) => match self.read(*low) {
                        Err(fault) => Err(Stop::Fault(fault)),
                        Ok(l) => match self.read(*high) {
                            Err(fault) => Err(Stop::Fault(fault)),
                            Ok(h) => settled(clamp(v, l, h), answers, used),
                        },
                    },
                }
            },
            Op::Mix { from, to, at } => {
                match self.read(*from) {
                    Err(fault) => Err(Stop::Fault(fault)),
                    Ok(f) => match self.read(*to) {
                        Err(fault) => Err(Stop::Fault(fault)),
                        Ok(t) => match self.read(*at) {
                            Err(fault) => Err(Stop::Fault(fault)),
                            Ok(a) => settled(mix(f, t, a), answers, used),
                        },
                    },
                }
            },
            Op::Index { array, index } => {
                match self.read(*array) {
                    Err(fault) => Err(Stop::Fault(fault)),
                    Ok(a) => match self.read(*index) {
                        Err(fault) => Err(Stop::Fault(fault)),
                        Ok(i) => settled(element(a, i), answers, used),
                    },
                }
            },
            Op::Sample { binding, coordinate } => {
                match binding {
                    Binding::Texture { texture, sampler } => match self.read(*coordinate) {
                        Err(fault) => Err(Stop::Fault(fault)),
                        Ok(at) => settled_value(
                            Request::Sample {
                                texture: *texture,
                                sampler: *sampler,
                                coordinate: at.duplicate(),
                            },
                            Fault::SampleFailed,
                            answers,
                            used,
                        ),
                    },
                    _ => Err(Stop::Fault(Fault::TypeMismatch)),
                }
            },
        }
    }

    /// Store one value into the outputs.
    fn store(&mut self, output: Output, value: Val)
        ensures
            final(self).state() == (State {
                outputs: storing(old(self).state().outputs, output, value@),
                ..old(self).state()
            }),
    {
        let ghost before = self.outputs@;
        match output {
            Output::Position => {
                self.outputs.position = Some(value);
            },
            Output::PointSize => {
                self.outputs.point_size = Some(value.f32_at(0));
            },
            Output::Varying(location) => {
                let ghost had = self.outputs.varyings@;
                self.outputs.varyings.push((location, value));
                assert(located(self.outputs.varyings@) =~= located(had).push((location, value@)));
            },
            Output::Colour(index) => {
                let ghost had = self.outputs.colour@;
                self.outputs.colour.push((index, value));
                assert(located(self.outputs.colour@) =~= located(had).push((index, value@)));
            },
            Output::Integer(index) => {
                self.outputs.integer.push((index, value.u32_at(0)));
            },
            Output::Depth => {
                self.outputs.depth = Some(value.f32_at(0));
            },
            Output::SampleMask => {
                self.outputs.sample_mask = Some(value.u32_at(0));
            },
        }
        assert(self.outputs@ =~= storing(before, output, value@));
    }

    /// Run one statement.
    fn statement(&mut self, statement: &Stmt, answers: &[Answer]) -> (result: Result<Flow, Stop>)
        requires
            old(self).state().used <= answers@.len(),
        ensures
            arrives(
                result,
                final(self).state(),
                run_statement(*statement, old(self).state(), replies(answers@)),
            ),
            result is Ok ==> final(self).state().used <= answers@.len(),
        decreases *statement, 0nat, 0nat,
    {
        let ghost given = replies(answers@);
        match statement {
            Stmt::Assign(name, op) => {
                let (computed, used): (Val, usize) = match self.operation(op, answers) {
                    Err(stop) => {
                        return Err(stop);
                    },
                    Ok(pair) => pair,
                };
                let slot: usize = name.0 as usize;
                if slot >= self.values.len() {
                    return Err(Stop::Fault(Fault::TypeMismatch));
                }
                let ghost had = self.values@;
                self.values.set(slot, Some(computed));
                self.used = used;
                assert(stored(self.values@) =~= stored(had).update(slot as int, Some(computed@)));
                Ok(Flow::Next)
            },
            Stmt::Store(output, name) => {
                let value = match self.read(*name) {
                    Err(fault) => {
                        return Err(Stop::Fault(fault));
                    },
                    Ok(found) => found.duplicate(),
                };
                self.store(*output, value);
                Ok(Flow::Next)
            },
            Stmt::If { condition, then_body, else_body } => {
                let taken = match self.read(*condition) {
                    Err(fault) => {
                        return Err(Stop::Fault(fault));
                    },
                    Ok(found) => found.bool_at(0),
                };
                if taken {
                    self.body(then_body, answers)
                } else {
                    self.body(else_body, answers)
                }
            },
            Stmt::Switch { selector, cases, default_body } => {
                let chosen: i32 = match self.read(*selector) {
                    Err(fault) => {
                        return Err(Stop::Fault(fault));
                    },
                    Ok(found) => found.i32_at(0),
                };
                let mut next: usize = 0;
                let ghost before = self.state();
                let ghost picked = case_of(cases@, chosen as int, 0);
                while next < cases.len()
                    invariant
                        next <= cases@.len(),
                        self.state() == before,
                        before == old(self).state(),
                        before.used <= answers@.len(),
                        given == replies(answers@),
                        picked == case_of(cases@, chosen as int, 0),
                        picked == case_of(cases@, chosen as int, next as int),
                        *statement == (Stmt::Switch {
                            selector: *selector,
                            cases: *cases,
                            default_body: *default_body,
                        }),
                        assigned(before.values, *selector) is Some,
                        chosen == signed(assigned(before.values, *selector)->Some_0.word(0)),
                    decreases cases@.len() - next,
                {
                    if cases[next].0 == chosen {
                        return self.body(&cases[next].1, answers);
                    }
                    next = next + 1;
                }
                self.body(default_body, answers)
            },
            Stmt::Loop { trips, body } => {
                let mut left: u32 = *trips;
                let ghost whole = run_loop(body@, *trips as nat, self.state(), given);
                while left > 0
                    invariant
                        whole == run_loop(body@, left as nat, self.state(), given),
                        self.state().used <= answers@.len(),
                        given == replies(answers@),
                        *statement == (Stmt::Loop { trips: *trips, body: *body }),
                        whole == run_statement(*statement, old(self).state(), given),
                    decreases left,
                {
                    match self.body(body, answers) {
                        Err(stop) => {
                            return Err(stop);
                        },
                        Ok(Flow::Break) => {
                            return Ok(Flow::Next);
                        },
                        Ok(Flow::Return) => {
                            return Ok(Flow::Return);
                        },
                        Ok(_) => {},
                    }
                    left = left - 1;
                }
                Ok(Flow::Next)
            },
            Stmt::Break => Ok(Flow::Break),
            Stmt::Continue => Ok(Flow::Continue),
            Stmt::Return => Ok(Flow::Return),
            Stmt::Discard => {
                self.outputs.discarded = true;
                Ok(Flow::Return)
            },
        }
    }

    /// Run the statements of a body until one of them leaves it.
    fn body(&mut self, body: &Vec<Stmt>, answers: &[Answer]) -> (result: Result<Flow, Stop>)
        requires
            old(self).state().used <= answers@.len(),
        ensures
            arrives(
                result,
                final(self).state(),
                run_body(body@, 0, old(self).state(), replies(answers@)),
            ),
            result is Ok ==> final(self).state().used <= answers@.len(),
        decreases body@, 0nat, 1nat,
    {
        let ghost given = replies(answers@);
        let ghost whole = run_body(body@, 0, self.state(), given);
        let mut next: usize = 0;
        while next < body.len()
            invariant
                next <= body@.len(),
                given == replies(answers@),
                whole == run_body(body@, 0, old(self).state(), given),
                whole == run_body(body@, next as nat, self.state(), given),
                self.state().used <= answers@.len(),
            decreases body@.len() - next,
        {
            match self.statement(&body[next], answers) {
                Err(stop) => {
                    return Err(stop);
                },
                Ok(Flow::Next) => {},
                Ok(flow) => {
                    return Ok(flow);
                },
            }
            next = next + 1;
        }
        Ok(Flow::Next)
    }
}

/// Gathering stops at the first part that cannot be taken.
proof fn gathering_stops(values: Seq<Option<Datum>>, parts: Seq<Value>, upto: int)
    requires
        0 <= upto <= parts.len(),
        gathered(values, parts.take(upto)) is Err,
    ensures
        gathered(values, parts) == gathered(values, parts.take(upto)),
    decreases parts.len() - upto,
{
    if upto < parts.len() {
        let longer = parts.take(upto + 1);
        assert(longer.drop_last() =~= parts.take(upto));
        gathering_stops(values, parts, upto + 1);
    } else {
        assert(parts.take(upto) =~= parts);
    }
}

/// Run one stage into a machine the caller keeps.
pub fn execute_into(module: &Module, answers: &[Answer], machine: &mut Machine) -> (outcome: Result<(), Stop>)
    ensures
        match outcome {
            Ok(_) => run(*module, replies(answers@)) is Flow,
            Err(Stop::Fault(fault)) => run(*module, replies(answers@)) is Fault && run(
                *module,
                replies(answers@),
            )->Fault_0 == fault,
            Err(Stop::Pending(request)) => run(*module, replies(answers@)) is Waits && run(
                *module,
                replies(answers@),
            )->Waits_0 == request@,
        },
        final(machine).written() == run(*module, replies(answers@)).left().outputs,
{
    machine.reset(module.types.len());
    match machine.body(&module.body, answers) {
        Ok(_) => Ok(()),
        Err(stop) => Err(stop),
    }
}

/// Run one stage.
pub fn execute(module: &Module, answers: &[Answer]) -> (outcome: Result<Outputs, Stop>)
    ensures
        match outcome {
            Ok(outputs) => run(*module, replies(answers@)) is Flow && outputs@ == run(
                *module,
                replies(answers@),
            )->Flow_1.outputs,
            Err(Stop::Fault(fault)) => run(*module, replies(answers@)) is Fault && run(
                *module,
                replies(answers@),
            )->Fault_0 == fault,
            Err(Stop::Pending(request)) => run(*module, replies(answers@)) is Waits && run(
                *module,
                replies(answers@),
            )->Waits_0 == request@,
        },
{
    let mut machine = Machine::new();
    match execute_into(module, answers, &mut machine) {
        Ok(_) => Ok(machine.outputs),
        Err(stop) => Err(stop),
    }
}

/// Which varying declaration a location names: the first of that location.
pub fn varying_of(module: &Module, location: u32) -> (found: Option<&Varying>)
    ensures
        match found {
            Some(varying) => exists|i: int|
                {
                    &&& 0 <= i < module.varyings@.len()
                    &&& #[trigger] module.varyings@[i] == *varying
                    &&& varying.location == location
                    &&& forall|j: int|
                        0 <= j < i ==> (#[trigger] module.varyings@[j]).location != location
                },
            None => forall|j: int|
                0 <= j < module.varyings@.len() ==> (#[trigger] module.varyings@[j]).location != location,
        },
{
    let mut next: usize = 0;
    while next < module.varyings.len()
        invariant
            next <= module.varyings@.len(),
            forall|j: int| 0 <= j < next ==> (#[trigger] module.varyings@[j]).location != location,
        decreases module.varyings@.len() - next,
    {
        if module.varyings[next].location == location {
            assert(module.varyings@[next as int].location == location);
            return Some(&module.varyings[next]);
        }
        next = next + 1;
    }
    None
}

/// Whether a fragment stage must run once per sample rather than once per pixel.
pub open spec fn samples_apart(module: Module) -> bool {
    exists|i: int|
        0 <= i < module.varyings@.len() && (#[trigger] module.varyings@[i]).sampling is Sample
}

/// Whether a fragment stage must run once per sample rather than once per pixel.
pub fn per_sample(module: &Module) -> (apart: bool)
    ensures
        apart == samples_apart(*module),
{
    let mut next: usize = 0;
    while next < module.varyings.len()
        invariant
            next <= module.varyings@.len(),
            forall|j: int| 0 <= j < next ==> !((#[trigger] module.varyings@[j]).sampling is Sample),
        decreases module.varyings@.len() - next,
    {
        if module.varyings[next].sampling == Sampling::Sample {
            return true;
        }
        next = next + 1;
    }
    false
}

/// The stage a module is.
pub fn stage(module: &Module) -> (which: Stage)
    ensures
        which == module.stage,
{
    module.stage
}

// ---------------------------------------------------------------------------------------------
// Laws of a run.
// ---------------------------------------------------------------------------------------------
/// Whether one list of answers begins with another.
pub open spec fn extends(given: Seq<Reply>, more: Seq<Reply>) -> bool {
    given.len() <= more.len() && more.take(given.len() as int) == given
}

/// Whether evaluating with more answers comes to what it came to with fewer, and goes on from no earlier one.
spec fn once(fewer: Evaluated, more: Evaluated, used: int) -> bool {
    &&& !(fewer is Waits) ==> more == fewer
    &&& fewer matches Evaluated::Done(_, now) ==> now >= used
}

proof fn an_answer_stays(given: Seq<Reply>, more: Seq<Reply>, used: int)
    requires
        extends(given, more),
        0 <= used < given.len(),
    ensures
        used < more.len(),
        more[used] == given[used],
{
    assert(more.take(given.len() as int)[used] == more[used]);
}

proof fn settled_once(outcome: Outcome, given: Seq<Reply>, more: Seq<Reply>, used: int)
    requires
        extends(given, more),
        0 <= used,
    ensures
        once(settle(outcome, given, used), settle(outcome, more, used), used),
{
    if used < given.len() {
        an_answer_stays(given, more, used);
    }
}

proof fn normalized_once(value: Datum, work: Work, given: Seq<Reply>, more: Seq<Reply>, used: int)
    requires
        extends(given, more),
        0 <= used,
    ensures
        once(
            settle_normalize(value, work, given, used),
            settle_normalize(value, work, more, used),
            used,
        ),
{
    if used < given.len() {
        an_answer_stays(given, more, used);
        if let Reply::Words(words) = given[used] {
            settled_once(normalized(value, words[0]), given, more, used + 1);
        }
    }
}

proof fn supplied_once(ask: Ask, missing: Fault, given: Seq<Reply>, more: Seq<Reply>, used: int)
    requires
        extends(given, more),
        0 <= used,
    ensures
        once(settle_value(ask, missing, given, used), settle_value(ask, missing, more, used), used),
{
    if used < given.len() {
        an_answer_stays(given, more, used);
    }
}

proof fn unary_once(
    unary: UnaryOp,
    name: Value,
    values: Seq<Option<Datum>>,
    given: Seq<Reply>,
    more: Seq<Reply>,
    used: int,
)
    requires
        extends(given, more),
        0 <= used,
    ensures
        once(evaluated(Op::Unary(unary, name), values, given, used), evaluated(Op::Unary(unary, name), values, more, used), used),
{
    if let Some(value) = assigned(values, name) {
        let outcome = unary_result(unary, value);
        if let Outcome::Measure(work) = outcome {
            normalized_once(value, work, given, more, used);
        } else {
            settled_once(outcome, given, more, used);
        }
    }
}

proof fn binary_once(
    binary: BinaryOp,
    l: Value,
    r: Value,
    values: Seq<Option<Datum>>,
    given: Seq<Reply>,
    more: Seq<Reply>,
    used: int,
)
    requires
        extends(given, more),
        0 <= used,
    ensures
        once(evaluated(Op::Binary(binary, l, r), values, given, used), evaluated(Op::Binary(binary, l, r), values, more, used), used),
{
    if let (Some(left), Some(right)) = (assigned(values, l), assigned(values, r)) {
        settled_once(binary_result(binary, left, right), given, more, used);
    }
}

proof fn select_once(
    condition: Value,
    on_true: Value,
    on_false: Value,
    values: Seq<Option<Datum>>,
    given: Seq<Reply>,
    more: Seq<Reply>,
    used: int,
)
    requires
        extends(given, more),
        0 <= used,
    ensures
        once(evaluated((Op::Select { condition, on_true, on_false }), values, given, used), evaluated((Op::Select { condition, on_true, on_false }), values, more, used), used),
{
    if let (Some(c), Some(t), Some(f)) = (
        assigned(values, condition),
        assigned(values, on_true),
        assigned(values, on_false),
    ) {
        settled_once(select_result(c, t, f), given, more, used);
    }
}

proof fn transcendental_once(
    which: Transcendental,
    name: Value,
    second: Option<Value>,
    values: Seq<Option<Datum>>,
    given: Seq<Reply>,
    more: Seq<Reply>,
    used: int,
)
    requires
        extends(given, more),
        0 <= used,
    ensures
        once(evaluated(Op::Transcendental(which, name, second), values, given, used), evaluated(Op::Transcendental(which, name, second), values, more, used), used),
{
    if let Some(value) = assigned(values, name) {
        match second {
            None => settled_once(transcendental_result(which, value, None), given, more, used),
            Some(other) => if let Some(operand) = assigned(values, other) {
                settled_once(transcendental_result(which, value, Some(operand)), given, more, used);
            },
        }
    }
}

proof fn clamp_once(
    value: Value,
    low: Value,
    high: Value,
    values: Seq<Option<Datum>>,
    given: Seq<Reply>,
    more: Seq<Reply>,
    used: int,
)
    requires
        extends(given, more),
        0 <= used,
    ensures
        once(evaluated((Op::Clamp { value, low, high }), values, given, used), evaluated((Op::Clamp { value, low, high }), values, more, used), used),
{
    if let (Some(v), Some(l), Some(h)) = (assigned(values, value), assigned(values, low), assigned(values, high)) {
        settled_once(clamp_result(v, l, h), given, more, used);
    }
}

proof fn mix_once(
    from: Value,
    to: Value,
    at: Value,
    values: Seq<Option<Datum>>,
    given: Seq<Reply>,
    more: Seq<Reply>,
    used: int,
)
    requires
        extends(given, more),
        0 <= used,
    ensures
        once(evaluated((Op::Mix { from, to, at }), values, given, used), evaluated((Op::Mix { from, to, at }), values, more, used), used),
{
    if let (Some(f), Some(t), Some(a)) = (assigned(values, from), assigned(values, to), assigned(values, at)) {
        settled_once(mix_result(f, t, a), given, more, used);
    }
}

proof fn index_once(
    array: Value,
    index: Value,
    values: Seq<Option<Datum>>,
    given: Seq<Reply>,
    more: Seq<Reply>,
    used: int,
)
    requires
        extends(given, more),
        0 <= used,
    ensures
        once(evaluated((Op::Index { array, index }), values, given, used), evaluated((Op::Index { array, index }), values, more, used), used),
{
    if let (Some(a), Some(i)) = (assigned(values, array), assigned(values, index)) {
        settled_once(index_result(a, i), given, more, used);
    }
}

proof fn extract_once(
    name: Value,
    component: u32,
    values: Seq<Option<Datum>>,
    given: Seq<Reply>,
    more: Seq<Reply>,
    used: int,
)
    requires
        extends(given, more),
        0 <= used,
    ensures
        once(evaluated(Op::Extract(name, component), values, given, used), evaluated(Op::Extract(name, component), values, more, used), used),
{
    if let Some(value) = assigned(values, name) {
        settled_once(extract_result(value, component), given, more, used);
    }
}

proof fn sample_once(
    binding: Binding,
    coordinate: Value,
    values: Seq<Option<Datum>>,
    given: Seq<Reply>,
    more: Seq<Reply>,
    used: int,
)
    requires
        extends(given, more),
        0 <= used,
    ensures
        once(evaluated((Op::Sample { binding, coordinate }), values, given, used), evaluated((Op::Sample { binding, coordinate }), values, more, used), used),
{
    if let (Binding::Texture { texture, sampler }, Some(at)) = (binding, assigned(values, coordinate)) {
        supplied_once(Ask::Sample(texture, sampler, at), Fault::SampleFailed, given, more, used);
    }
}

proof fn evaluated_once(
    op: Op,
    values: Seq<Option<Datum>>,
    given: Seq<Reply>,
    more: Seq<Reply>,
    used: int,
)
    requires
        extends(given, more),
        0 <= used,
    ensures
        once(evaluated(op, values, given, used), evaluated(op, values, more, used), used),
{
    match op {
        Op::Const(_) => {},
        Op::Load(binding) => supplied_once(Ask::Input(binding), Fault::MissingBinding, given, more, used),
        Op::Compose(_, _) => {},
        Op::Extract(name, component) => extract_once(name, component, values, given, more, used),
        Op::Unary(unary, name) => unary_once(unary, name, values, given, more, used),
        Op::Binary(binary, l, r) => binary_once(binary, l, r, values, given, more, used),
        Op::Compare(_, _, _) => {},
        Op::Select { condition, on_true, on_false } => select_once(
            condition,
            on_true,
            on_false,
            values,
            given,
            more,
            used,
        ),
        Op::Transcendental(which, name, second) => transcendental_once(
            which,
            name,
            second,
            values,
            given,
            more,
            used,
        ),
        Op::Clamp { value, low, high } => clamp_once(value, low, high, values, given, more, used),
        Op::Mix { from, to, at } => mix_once(from, to, at, values, given, more, used),
        Op::Index { array, index } => index_once(array, index, values, given, more, used),
        Op::Sample { binding, coordinate } => sample_once(binding, coordinate, values, given, more, used),
    }
}

proof fn statement_once(statement: Stmt, state: State, given: Seq<Reply>, more: Seq<Reply>)
    requires
        extends(given, more),
        0 <= state.used,
    ensures
        !(run_statement(statement, state, given) is Waits) ==> run_statement(statement, state, more)
            == run_statement(statement, state, given),
        run_statement(statement, state, given) matches Ran::Flow(_, next) ==> next.used >= state.used,
    decreases statement, 0nat, 0nat,
{
    match statement {
        Stmt::Assign(name, op) => {
            evaluated_once(op, state.values, given, more, state.used);
        },
        Stmt::If { condition, then_body, else_body } => {
            body_once(then_body@, 0, state, given, more);
            body_once(else_body@, 0, state, given, more);
        },
        Stmt::Switch { selector, cases, default_body } => {
            if let Some(value) = assigned(state.values, selector) {
                if let Some(i) = case_of(cases@, signed(value.word(0)), 0) {
                    if 0 <= i < cases@.len() {
                        body_once(cases@[i].1@, 0, state, given, more);
                    }
                }
            }
            body_once(default_body@, 0, state, given, more);
        },
        Stmt::Loop { trips, body } => {
            loop_once(body@, trips as nat, state, given, more);
        },
        _ => {},
    }
}

proof fn body_once(body: Seq<Stmt>, from: nat, state: State, given: Seq<Reply>, more: Seq<Reply>)
    requires
        extends(given, more),
        0 <= state.used,
    ensures
        !(run_body(body, from, state, given) is Waits) ==> run_body(body, from, state, more) == run_body(
            body,
            from,
            state,
            given,
        ),
        run_body(body, from, state, given) matches Ran::Flow(_, next) ==> next.used >= state.used,
    decreases body, 0nat, (body.len() - from) as nat,
{
    if from < body.len() {
        statement_once(body[from as int], state, given, more);
        if let Ran::Flow(Flow::Next, next) = run_statement(body[from as int], state, given) {
            body_once(body, from + 1, next, given, more);
        }
    }
}

proof fn loop_once(body: Seq<Stmt>, trips: nat, state: State, given: Seq<Reply>, more: Seq<Reply>)
    requires
        extends(given, more),
        0 <= state.used,
    ensures
        !(run_loop(body, trips, state, given) is Waits) ==> run_loop(body, trips, state, more) == run_loop(
            body,
            trips,
            state,
            given,
        ),
        run_loop(body, trips, state, given) matches Ran::Flow(_, next) ==> next.used >= state.used,
    decreases body, trips + 1, 0nat,
{
    if trips > 0 {
        body_once(body, 0, state, given, more);
        match run_body(body, 0, state, given) {
            Ran::Flow(Flow::Next, next) => {
                loop_once(body, (trips - 1) as nat, next, given, more);
            },
            Ran::Flow(Flow::Continue, next) => {
                loop_once(body, (trips - 1) as nat, next, given, more);
            },
            _ => {},
        }
    }
}

/// A run that came to an end, well or not, comes to the same end however many answers follow: an answer
/// once given is never asked for again.
pub proof fn more_answers_change_no_finished_run(module: Module, given: Seq<Reply>, more: Seq<Reply>)
    requires
        extends(given, more),
        !(run(module, given) is Waits),
    ensures
        run(module, more) == run(module, given),
{
    body_once(module.body@, 0, fresh(module.types@.len()), given, more);
}

/// A discard ends the stage: nothing behind it runs.
pub proof fn a_discard_ends_the_body(body: Seq<Stmt>, from: nat, state: State, given: Seq<Reply>)
    requires
        from < body.len(),
        body[from as int] is Discard,
    ensures
        run_body(body, from, state, given) == Ran::Flow(
            Flow::Return,
            State { outputs: Written { discarded: true, ..state.outputs }, ..state },
        ),
{
    assert(run_statement(body[from as int], state, given) == Ran::Flow(
        Flow::Return,
        State { outputs: Written { discarded: true, ..state.outputs }, ..state },
    ));
}

/// A value that was never assigned is refused by name wherever it is read.
pub proof fn an_unassigned_value_is_refused(output: Output, name: Value, state: State, given: Seq<Reply>)
    requires
        assigned(state.values, name) is None,
    ensures
        run_statement(Stmt::Store(output, name), state, given) == Ran::Fault(
            Fault::Unassigned { value: name.0 },
            state,
        ),
{
}

/// A value that was assigned is the one that is read, and no other value changes.
pub proof fn an_assigned_value_is_read(name: Value, op: Op, other: Value, state: State, given: Seq<Reply>)
    requires
        name.0 < state.values.len(),
        evaluated(op, state.values, given, state.used) is Done,
    ensures
        ({
            let (value, used) = (
                evaluated(op, state.values, given, state.used)->Done_0,
                evaluated(op, state.values, given, state.used)->Done_1,
            );
            run_statement(Stmt::Assign(name, op), state, given) matches Ran::Flow(Flow::Next, next) && assigned(
                next.values,
                name,
            ) == Some(value) && (other != name ==> assigned(next.values, other) == assigned(state.values, other))
                && next.outputs == state.outputs && next.used == used && next.values.len() == state.values.len()
        }),
{
}

/// A store writes to its own output alone: a position, a size, a depth and a mask are the last one stored, and a varying,
/// a colour and an identity go behind the ones stored before, with their location.
pub proof fn a_store_reaches_its_own_output(outputs: Written, value: Datum, at: u32)
    requires
        value.words.len() > 0,
    ensures
        storing(outputs, Output::Position, value) == (Written { position: Some(value), ..outputs }),
        storing(outputs, Output::PointSize, value) == (Written { point_size: Some(value.words[0]), ..outputs }),
        storing(outputs, Output::Depth, value) == (Written { depth: Some(value.words[0]), ..outputs }),
        storing(outputs, Output::SampleMask, value) == (Written { sample_mask: Some(value.words[0]), ..outputs }),
        storing(outputs, Output::Varying(at), value) == (Written {
            varyings: outputs.varyings.push((at, value)),
            ..outputs
        }),
        storing(outputs, Output::Colour(at), value) == (Written { colour: outputs.colour.push((at, value)), ..outputs }),
        storing(outputs, Output::Integer(at), value) == (Written {
            integer: outputs.integer.push((at, value.words[0])),
            ..outputs
        }),
{
}

/// A store writes the value its name stands for and goes on.
pub proof fn a_store_writes_its_value(output: Output, name: Value, state: State, given: Seq<Reply>)
    requires
        assigned(state.values, name) is Some,
    ensures
        run_statement(Stmt::Store(output, name), state, given) == Ran::Flow(
            Flow::Next,
            State { outputs: storing(state.outputs, output, assigned(state.values, name)->Some_0), ..state },
        ),
{
}

/// A branch runs the one body its condition picks and no other.
pub proof fn a_branch_runs_one_body(
    condition: Value,
    then_body: Vec<Stmt>,
    else_body: Vec<Stmt>,
    state: State,
    given: Seq<Reply>,
)
    requires
        assigned(state.values, condition) is Some,
        assigned(state.values, condition)->Some_0.words.len() > 0,
    ensures
        run_statement(Stmt::If { condition, then_body, else_body }, state, given) == if assigned(
            state.values,
            condition,
        )->Some_0.words[0] != 0 {
            run_body(then_body@, 0, state, given)
        } else {
            run_body(else_body@, 0, state, given)
        },
{
}

proof fn a_case_is_the_first_that_matches(cases: Seq<(i32, Vec<Stmt>)>, selector: int, from: int)
    requires
        0 <= from <= cases.len(),
    ensures
        match case_of(cases, selector, from) {
            Some(i) => from <= i < cases.len() && cases[i].0 == selector && forall|j: int|
                from <= j < i ==> (#[trigger] cases[j]).0 != selector,
            None => forall|j: int| from <= j < cases.len() ==> (#[trigger] cases[j]).0 != selector,
        },
    decreases cases.len() - from,
{
    if from < cases.len() {
        a_case_is_the_first_that_matches(cases, selector, from + 1);
    }
}

/// A switch runs the first case with its selector's number, and the default where there is none.
pub proof fn a_switch_runs_its_case(
    selector: Value,
    cases: Vec<(i32, Vec<Stmt>)>,
    default_body: Vec<Stmt>,
    state: State,
    given: Seq<Reply>,
    i: int,
)
    requires
        assigned(state.values, selector) is Some,
        assigned(state.values, selector)->Some_0.words.len() > 0,
    ensures
        ({
            let word = assigned(state.values, selector)->Some_0.words[0];
            let number = if word < 0x8000_0000 {
                word as int
            } else {
                word - 0x1_0000_0000
            };
            let ran = run_statement(Stmt::Switch { selector, cases, default_body }, state, given);
            &&& 0 <= i < cases@.len() && cases@[i].0 == number && (forall|j: int|
                0 <= j < i ==> (#[trigger] cases@[j]).0 != number) ==> ran == run_body(cases@[i].1@, 0, state, given)
            &&& (forall|j: int| 0 <= j < cases@.len() ==> (#[trigger] cases@[j]).0 != number) ==> ran == run_body(
                default_body@,
                0,
                state,
                given,
            )
        }),
{
    let word = assigned(state.values, selector)->Some_0.words[0];
    a_case_is_the_first_that_matches(cases@, signed(word), 0);
}

/// A body runs its statements in order: the first, and where that one goes on, the rest from the state it left.
pub proof fn a_body_runs_in_order(body: Seq<Stmt>, from: nat, state: State, given: Seq<Reply>)
    ensures
        from >= body.len() ==> run_body(body, from, state, given) == Ran::Flow(Flow::Next, state),
        from < body.len() ==> match run_statement(body[from as int], state, given) {
            Ran::Flow(Flow::Next, next) => run_body(body, from, state, given) == run_body(body, from + 1, next, given),
            Ran::Flow(flow, next) => run_body(body, from, state, given) == Ran::Flow(flow, next),
            Ran::Fault(fault, next) => run_body(body, from, state, given) == Ran::Fault(fault, next),
            Ran::Waits(ask, next) => run_body(body, from, state, given) == Ran::Waits(ask, next),
        },
{
}

/// A loop runs its body as often as it states: no trip changes nothing, a trip that goes on or continues is followed by
/// the trips that are left, a break goes on behind the loop, and a return ends the stage.
pub proof fn a_loop_runs_its_trips(trips: u32, body: Vec<Stmt>, state: State, given: Seq<Reply>)
    ensures
        trips == 0 ==> run_statement(Stmt::Loop { trips, body }, state, given) == Ran::Flow(Flow::Next, state),
        trips > 0 ==> ({
            let ran = run_statement(Stmt::Loop { trips, body }, state, given);
            let rest = |next: State| run_statement(Stmt::Loop { trips: (trips - 1) as u32, body }, next, given);
            match run_body(body@, 0, state, given) {
                Ran::Flow(Flow::Next, next) => ran == rest(next),
                Ran::Flow(Flow::Continue, next) => ran == rest(next),
                Ran::Flow(Flow::Break, next) => ran == Ran::Flow(Flow::Next, next),
                Ran::Flow(Flow::Return, next) => ran == Ran::Flow(Flow::Return, next),
                Ran::Fault(fault, next) => ran == Ran::Fault(fault, next),
                Ran::Waits(ask, next) => ran == Ran::Waits(ask, next),
            }
        }),
{
}

/// A jump is what it is called and changes nothing.
pub proof fn a_jump_changes_nothing(state: State, given: Seq<Reply>)
    ensures
        run_statement(Stmt::Break, state, given) == Ran::Flow(Flow::Break, state),
        run_statement(Stmt::Continue, state, given) == Ran::Flow(Flow::Continue, state),
        run_statement(Stmt::Return, state, given) == Ran::Flow(Flow::Return, state),
{
}

/// A stage starts with nothing assigned, nothing written and no answer used.
pub proof fn a_stage_starts_afresh(module: Module, given: Seq<Reply>, name: Value)
    ensures
        run(module, given) == run_body(module.body@, 0, fresh(module.types@.len()), given),
        assigned(fresh(module.types@.len()).values, name) is None,
        fresh(module.types@.len()).used == 0,
        fresh(module.types@.len()).outputs.colour.len() == 0 && fresh(module.types@.len()).outputs.varyings.len() == 0
            && fresh(module.types@.len()).outputs.position is None && fresh(module.types@.len()).outputs.depth is None
            && !fresh(module.types@.len()).outputs.discarded,
{
}

/// A constant is the value it states: a truth as one or nothing, an integer as its word, a number as its bits.
pub proof fn a_constant_is_its_value(truth: bool, integer: i32, word: u32)
    ensures
        constant(Constant::Bool(truth)).words =~= seq![
            if truth {
                1u32
            } else {
                0u32
            },
        ],
        constant(Constant::I32(integer)).words.len() == 1 && super::arithmetic::twos_complement(
            constant(Constant::I32(integer)).words[0],
        ) == integer,
        constant(Constant::U32(word)).words =~= seq![word],
        constant(Constant::F32(word)).words =~= seq![word],
        constant(Constant::Bool(truth)).kind == Type::Scalar(ScalarType::Bool),
        constant(Constant::I32(integer)).kind == Type::Scalar(ScalarType::I32),
        constant(Constant::U32(word)).kind == Type::Scalar(ScalarType::U32),
        constant(Constant::F32(word)).kind == Type::Scalar(ScalarType::F32),
{
}

/// What an operation is applied to, name by name: its operands stand in the order they are written.
pub proof fn operands_are_read_in_order(
    values: Seq<Option<Datum>>,
    given: Seq<Reply>,
    used: int,
    first: Value,
    second: Value,
    third: Value,
    unary: UnaryOp,
    binary: BinaryOp,
    kind: super::shader::CompareKind,
    which: Transcendental,
)
    requires
        assigned(values, first) is Some,
        assigned(values, second) is Some,
        assigned(values, third) is Some,
    ensures
        ({
            let (a, b, c) = (
                assigned(values, first)->Some_0,
                assigned(values, second)->Some_0,
                assigned(values, third)->Some_0,
            );
            let at = |op: Op| evaluated(op, values, given, used);
            &&& at(Op::Binary(binary, first, second)) == settle(binary_result(binary, a, b), given, used)
            &&& at(Op::Compare(kind, first, second)) matches Evaluated::Done(value, now) && now == used && value.kind
                == Type::Scalar(ScalarType::Bool) && value.words =~= seq![
                if comparison(kind, a, b) {
                    1u32
                } else {
                    0u32
                },
            ]
            &&& at(Op::Select { condition: first, on_true: second, on_false: third }) == settle(
                select_result(a, b, c),
                given,
                used,
            )
            &&& at(Op::Clamp { value: first, low: second, high: third }) == settle(clamp_result(a, b, c), given, used)
            &&& at(Op::Mix { from: first, to: second, at: third }) == settle(mix_result(a, b, c), given, used)
            &&& at(Op::Index { array: first, index: second }) == settle(index_result(a, b), given, used)
            &&& at(Op::Transcendental(which, first, Some(second))) == settle(
                transcendental_result(which, a, Some(b)),
                given,
                used,
            )
            &&& at(Op::Transcendental(which, first, None)) == settle(
                transcendental_result(which, a, None),
                given,
                used,
            )
            &&& !(unary is Normalize) && !(unary is Length) ==> at(Op::Unary(unary, first)) == settle(
                unary_result(unary, a),
                given,
                used,
            )
        }),
{
}

/// Arithmetic that was asked for is answered with its words, in order, and one answer is used; without an answer the run
/// waits for it, and an answer of another shape is refused.
pub proof fn an_answer_is_the_value(work: Work, kind: Type, given: Seq<Reply>, used: int)
    requires
        0 <= used,
    ensures
        used >= given.len() ==> settle(Outcome::Job(work, kind), given, used) == Evaluated::Waits(Ask::Arithmetic(work)),
        used < given.len() ==> match given[used] {
            Reply::Words(words) => if words.len() == work.width {
                settle(Outcome::Job(work, kind), given, used) == Evaluated::Done(Datum { kind, words }, used + 1)
            } else {
                settle(Outcome::Job(work, kind), given, used) is Fault
            },
            Reply::Value(_) => settle(Outcome::Job(work, kind), given, used) is Fault,
        },
{
}

/// A load asks for its own binding and a sample for its own texture, sampler and coordinate; the answer is the value, and
/// no answer to be had is refused.
pub proof fn an_input_is_asked_for_by_name(
    binding: Binding,
    texture: u32,
    sampler: u32,
    coordinate: Value,
    values: Seq<Option<Datum>>,
    given: Seq<Reply>,
    used: int,
)
    requires
        0 <= used,
        !(binding is Texture),
        assigned(values, coordinate) is Some,
    ensures
        ({
            let loaded = evaluated(Op::Load(binding), values, given, used);
            let sampled = evaluated(
                Op::Sample { binding: Binding::Texture { texture, sampler }, coordinate },
                values,
                given,
                used,
            );
            &&& used >= given.len() ==> loaded == Evaluated::Waits(Ask::Input(binding)) && sampled == Evaluated::Waits(
                Ask::Sample(texture, sampler, assigned(values, coordinate)->Some_0),
            )
            &&& used < given.len() ==> match given[used] {
                Reply::Value(Some(value)) => loaded == Evaluated::Done(value, used + 1) && sampled == Evaluated::Done(
                    value,
                    used + 1,
                ),
                Reply::Value(None) => loaded == Evaluated::Fault(Fault::MissingBinding) && sampled == Evaluated::Fault(
                    Fault::SampleFailed,
                ),
                Reply::Words(_) => loaded is Fault && sampled is Fault,
            }
        }),
{
}

/// A composed value is its parts' words one after the other, in the order the parts are written.
pub proof fn a_composition_is_its_parts(values: Seq<Option<Datum>>, parts: Seq<Value>, last: Value)
    requires
        gathered(values, parts) is Ok,
        assigned(values, last) is Some,
        gathered(values, parts)->Ok_0.len() + assigned(values, last)->Some_0.words.len() <= 16,
    ensures
        gathered(values, parts.push(last)) == Ok::<Seq<u32>, Fault>(
            gathered(values, parts)->Ok_0 + assigned(values, last)->Some_0.words,
        ),
        gathered(values, Seq::<Value>::empty()) == Ok::<Seq<u32>, Fault>(Seq::empty()),
{
    assert(parts.push(last).drop_last() =~= parts);
}


/// A fragment stage runs apart for each sample as soon as one varying is read there, and not for varyings that are read
/// at the centre or the centroid.
pub proof fn one_varying_runs_a_stage_apart(module: Module, i: int)
    requires
        0 <= i < module.varyings@.len(),
    ensures
        module.varyings@[i].sampling is Sample ==> samples_apart(module),
        (forall|k: int|
            0 <= k < module.varyings@.len() ==> (#[trigger] module.varyings@[k]).sampling is Centre
                || module.varyings@[k].sampling is Centroid) ==> !samples_apart(module),
{
}

} // verus!
