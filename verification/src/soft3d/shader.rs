//! The shader language: types, operations and statements of a module that has been validated.
use vstd::prelude::*;

verus! {

/// Which stage a module is.
#[derive(Clone, Copy, PartialEq, Eq, Structural, Debug)]
pub enum Stage {
    Vertex,
    Fragment,
}

#[derive(Clone, Copy, PartialEq, Eq, Structural, Debug)]
pub enum ScalarType {
    Bool,
    I32,
    U32,
    F32,
}

/// The type of a value.
#[derive(Debug)]
pub enum Type {
    Scalar(ScalarType),
    Vector(ScalarType, u8),
    /// A square matrix of `f32`, by its side.
    Matrix(u8),
    Array(Box<Type>, u32),
}

impl Type {
    /// How many words a value of this type occupies.
    pub open spec fn size(self) -> int
        decreases self,
    {
        match self {
            Type::Scalar(_) => 1,
            Type::Vector(_, components) => components as int,
            Type::Matrix(side) => side * side,
            Type::Array(element, length) => element.size() * length,
        }
    }

    /// The scalar this type is made of.
    pub open spec fn scalar(self) -> ScalarType
        decreases self,
    {
        match self {
            Type::Scalar(scalar) => scalar,
            Type::Vector(scalar, _) => scalar,
            Type::Matrix(_) => ScalarType::F32,
            Type::Array(element, _) => element.scalar(),
        }
    }

    /// A copy of this type.
    pub fn copy(&self) -> (copied: Type)
        ensures
            copied == *self,
        decreases self,
    {
        match self {
            Type::Scalar(scalar) => Type::Scalar(*scalar),
            Type::Vector(scalar, components) => Type::Vector(*scalar, *components),
            Type::Matrix(side) => Type::Matrix(*side),
            Type::Array(element, length) => Type::Array(Box::new(element.copy()), *length),
        }
    }

    /// Whether two types are the same.
    pub fn same(&self, other: &Type) -> (equal: bool)
        ensures
            equal == (*self == *other),
        decreases self,
    {
        match (self, other) {
            (Type::Scalar(a), Type::Scalar(b)) => *a == *b,
            (Type::Vector(a, n), Type::Vector(b, m)) => *a == *b && *n == *m,
            (Type::Matrix(n), Type::Matrix(m)) => *n == *m,
            (Type::Array(a, n), Type::Array(b, m)) => *n == *m && a.same(b),
            _ => false,
        }
    }
}

#[derive(Clone, Copy, PartialEq, Eq, Structural, Debug)]
pub enum Constant {
    Bool(bool),
    I32(i32),
    U32(u32),
    /// The bit pattern of a binary32 number.
    F32(u32),
}

#[derive(Clone, Copy, PartialEq, Eq, Structural, Debug)]
pub enum BuiltIn {
    VertexIndex,
    InstanceIndex,
    FragmentCoordinate,
    FrontFacing,
    SampleIndex,
    SampleMaskIn,
}

/// Where an input comes from.
#[derive(Clone, Copy, PartialEq, Eq, Structural, Debug)]
pub enum Binding {
    Uniform { block: u32, member: u32 },
    Attribute { location: u32 },
    Varying { location: u32 },
    BuiltIn(BuiltIn),
    Texture { texture: u32, sampler: u32 },
}

/// Where a stage writes.
#[derive(Clone, Copy, PartialEq, Eq, Structural, Debug)]
pub enum Output {
    Position,
    PointSize,
    Varying(u32),
    Colour(u32),
    Integer(u32),
    Depth,
    SampleMask,
}

#[derive(Clone, Copy, PartialEq, Eq, Structural, Debug)]
pub enum UnaryOp {
    Negate,
    Not,
    Complement,
    Abs,
    Floor,
    Ceil,
    Fract,
    Length,
    Normalize,
    Convert(ScalarType),
}

#[derive(Clone, Copy, PartialEq, Eq, Structural, Debug)]
pub enum BinaryOp {
    Add,
    Subtract,
    Multiply,
    Divide,
    Modulo,
    And,
    Or,
    Xor,
    ShiftLeft,
    ShiftRight,
    Min,
    Max,
    Dot,
    Cross,
    MatrixProduct,
}

#[derive(Clone, Copy, PartialEq, Eq, Structural, Debug)]
pub enum CompareKind {
    Equal,
    NotEqual,
    Less,
    LessOrEqual,
    Greater,
    GreaterOrEqual,
}

#[derive(Clone, Copy, PartialEq, Eq, Structural, Debug)]
pub enum Transcendental {
    Sqrt,
    InverseSqrt,
    Sin,
    Cos,
    Tan,
    Asin,
    Acos,
    Atan,
    Atan2,
    Exp,
    Exp2,
    Log,
    Log2,
    Pow,
}

/// The name of a value a module assigns.
#[derive(Clone, Copy, PartialEq, Eq, Structural, Debug)]
pub struct Value(pub u32);

/// What computes a value.
#[derive(Debug)]
pub enum Op {
    Const(Constant),
    Load(Binding),
    Compose(Type, Vec<Value>),
    Extract(Value, u32),
    Unary(UnaryOp, Value),
    Binary(BinaryOp, Value, Value),
    Compare(CompareKind, Value, Value),
    Select { condition: Value, on_true: Value, on_false: Value },
    Transcendental(Transcendental, Value, Option<Value>),
    Clamp { value: Value, low: Value, high: Value },
    Mix { from: Value, to: Value, at: Value },
    Index { array: Value, index: Value },
    Sample { binding: Binding, coordinate: Value },
}

#[derive(Debug)]
#[allow(inconsistent_fields)]
pub enum Stmt {
    Assign(Value, Op),
    Store(Output, Value),
    If { condition: Value, then_body: Vec<Stmt>, else_body: Vec<Stmt> },
    Switch { selector: Value, cases: Vec<(i32, Vec<Stmt>)>, default_body: Vec<Stmt> },
    Loop { trips: u32, body: Vec<Stmt> },
    Break,
    Continue,
    Return,
    Discard,
}

/// Whether a statement stores a depth, in whatever branch of it.
pub open spec fn statement_stores_depth(statement: Stmt) -> bool
    decreases statement, 0nat, 0nat,
{
    match statement {
        Stmt::Store(output, _) => output is Depth,
        Stmt::If { condition, then_body, else_body } => body_stores_depth(then_body@, 0) || body_stores_depth(
            else_body@,
            0,
        ),
        Stmt::Switch { selector, cases, default_body } => body_stores_depth(default_body@, 0) || cases_store_depth(
            cases@,
            0,
        ),
        Stmt::Loop { trips, body } => body_stores_depth(body@, 0),
        _ => false,
    }
}

/// Whether some case of a switch from one on stores a depth.
pub open spec fn cases_store_depth(cases: Seq<(i32, Vec<Stmt>)>, from: nat) -> bool
    decreases cases, 0nat, (cases.len() - from) as nat,
{
    if from >= cases.len() {
        false
    } else {
        body_stores_depth(cases[from as int].1@, 0) || cases_store_depth(cases, from + 1)
    }
}

/// Whether some statement of a body from one on stores a depth.
pub open spec fn body_stores_depth(body: Seq<Stmt>, from: nat) -> bool
    decreases body, 0nat, (body.len() - from) as nat,
{
    if from >= body.len() {
        false
    } else {
        statement_stores_depth(body[from as int]) || body_stores_depth(body, from + 1)
    }
}

fn finds_a_depth(statement: &Stmt) -> (found: bool)
    ensures
        found == statement_stores_depth(*statement),
    decreases *statement, 0nat, 0nat,
{
    match statement {
        Stmt::Store(output, _) => match output {
            Output::Depth => true,
            _ => false,
        },
        Stmt::If { condition, then_body, else_body } => stores_depth(then_body) || stores_depth(else_body),
        Stmt::Switch { selector, cases, default_body } => {
            if stores_depth(default_body) {
                return true;
            }
            let mut next: usize = 0;
            let ghost rest = cases_store_depth(cases@, 0);
            while next < cases.len()
                invariant
                    next <= cases@.len(),
                    *statement == (Stmt::Switch {
                        selector: *selector,
                        cases: *cases,
                        default_body: *default_body,
                    }),
                    !body_stores_depth(default_body@, 0),
                    rest == cases_store_depth(cases@, 0),
                    rest == cases_store_depth(cases@, next as nat),
                decreases cases@.len() - next,
            {
                let case: &(i32, Vec<Stmt>) = &cases[next];
                assert(*cases == statement->cases);
                assert(decreases_to!(*statement => statement->cases));
                assert(decreases_to!(*cases => cases@));
                assert(decreases_to!(cases@ => cases@[next as int]));
                assert(decreases_to!(cases@[next as int] => cases@[next as int].1));
                assert(decreases_to!(cases@[next as int].1 => cases@[next as int].1@));
                if stores_depth(&case.1) {
                    return true;
                }
                next = next + 1;
            }
            false
        },
        Stmt::Loop { trips, body } => stores_depth(body),
        _ => false,
    }
}

/// Whether some statement of a body stores a depth.
pub fn stores_depth(body: &Vec<Stmt>) -> (found: bool)
    ensures
        found == body_stores_depth(body@, 0),
    decreases body@, 0nat, 1nat,
{
    let mut next: usize = 0;
    let ghost rest = body_stores_depth(body@, 0);
    while next < body.len()
        invariant
            next <= body@.len(),
            rest == body_stores_depth(body@, 0),
            rest == body_stores_depth(body@, next as nat),
        decreases body@.len() - next,
    {
        if finds_a_depth(&body[next]) {
            return true;
        }
        next = next + 1;
    }
    false
}

/// How a varying is carried from vertices to fragments.
#[derive(Clone, Copy, PartialEq, Eq, Structural, Debug)]
pub enum Interpolation {
    Smooth,
    NoPerspective,
    Flat,
}

/// Where in a pixel a varying is evaluated.
#[derive(Clone, Copy, PartialEq, Eq, Structural, Debug)]
pub enum Sampling {
    Centre,
    Centroid,
    Sample,
}

/// A varying a module declares.
#[derive(Debug)]
pub struct Varying {
    pub location: u32,
    pub kind: Type,
    pub interpolation: Interpolation,
    pub sampling: Sampling,
}

/// A shader module.
#[derive(Debug)]
pub struct Module {
    pub stage: Stage,
    /// The type of each value, by its name.
    pub types: Vec<Type>,
    pub varyings: Vec<Varying>,
    pub body: Vec<Stmt>,
}


/// An array is as large as all of its elements together, a matrix as all of its columns, and a vector as its
/// components: each has one word for every scalar of it.
pub proof fn a_type_is_as_large_as_its_parts(element: Type, length: u32, scalar: ScalarType, side: u8)
    ensures
        Type::Array(Box::new(element), 0).size() == 0,
        length > 0 ==> Type::Array(Box::new(element), length).size() == Type::Array(
            Box::new(element),
            (length - 1) as u32,
        ).size() + element.size(),
        Type::Array(Box::new(element), length).scalar() == element.scalar(),
        Type::Vector(scalar, side).size() == side * Type::Scalar(scalar).size(),
        Type::Vector(scalar, side).scalar() == scalar,
        Type::Matrix(side).size() == side * Type::Vector(ScalarType::F32, side).size(),
        Type::Matrix(side).scalar() == ScalarType::F32,
        Type::Scalar(scalar).size() == 1,
        Type::Scalar(scalar).scalar() == scalar,
{
    let each = element.size();
    if length > 0 {
        assert(each * length == each * (length - 1) + each) by (nonlinear_arith);
    }
}

/// A body stores a depth where one of its statements does, wherever that stands.
pub proof fn a_depth_is_found_wherever_it_stands(body: Seq<Stmt>, at: int)
    requires
        0 <= at < body.len(),
    ensures
        statement_stores_depth(body[at]) ==> body_stores_depth(body, 0),
        body_stores_depth(body, 0) ==> exists|i: int| 0 <= i < body.len() && #[trigger] statement_stores_depth(body[i]),
{
    a_depth_is_found_from(body, 0, at);
}

proof fn a_depth_is_found_from(body: Seq<Stmt>, from: nat, at: int)
    ensures
        from <= at < body.len() && statement_stores_depth(body[at]) ==> body_stores_depth(body, from),
        body_stores_depth(body, from) ==> exists|i: int|
            from <= i < body.len() && #[trigger] statement_stores_depth(body[i]),
    decreases body.len() - from,
{
    if from < body.len() {
        a_depth_is_found_from(body, from + 1, at);
        if body_stores_depth(body, from) && !statement_stores_depth(body[from as int]) {
            let i = choose|i: int| from + 1 <= i < body.len() && #[trigger] statement_stores_depth(body[i]);
            assert(from <= i < body.len() && statement_stores_depth(body[i]));
        }
    }
}

proof fn a_case_is_found_from(cases: Seq<(i32, Vec<Stmt>)>, from: nat, at: int)
    ensures
        from <= at < cases.len() && body_stores_depth(cases[at].1@, 0) ==> cases_store_depth(cases, from),
    decreases cases.len() - from,
{
    if from < cases.len() {
        a_case_is_found_from(cases, from + 1, at);
    }
}

/// A depth that is stored inside a statement is stored by it: in either body of a branch, in any case of a switch or
/// its default, and in the body of a loop.
pub proof fn a_depth_is_found_inside(inner: Vec<Stmt>, outer: Stmt, at: int)
    requires
        body_stores_depth(inner@, 0),
        match outer {
            Stmt::If { condition, then_body, else_body } => then_body == inner || else_body == inner,
            Stmt::Switch { selector, cases, default_body } => default_body == inner || 0 <= at < cases@.len()
                && cases@[at].1 == inner,
            Stmt::Loop { trips, body } => body == inner,
            _ => false,
        },
    ensures
        statement_stores_depth(outer),
{
    if let Stmt::Switch { selector, cases, default_body } = outer {
        a_case_is_found_from(cases@, 0, at);
    }
}

} // verus!
