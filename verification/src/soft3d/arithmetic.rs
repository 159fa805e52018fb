//! The operations of a shader on values.
//!
//! Everything that is decided by the words of a value as integers is computed here. Floating-point
//! arithmetic is not: an operation that needs it names the numbers it needs it on, lane by lane, and what
//! shape the answer has.
use super::interpreter::Fault;
use super::shader::{BinaryOp, CompareKind, ScalarType, Transcendental, Type, UnaryOp};
use super::value::{signed, to_signed, unsigned, Datum, Val, INLINE_WORDS};
use crate::bits;
use vstd::prelude::*;

verus! {

/// A floating-point operation on lanes of up to three numbers.
#[derive(Clone, Copy, PartialEq, Eq, Structural, Debug)]
pub enum FloatOp {
    Floor,
    Ceil,
    /// `x - floor(x)`.
    Fract,
    /// To a signed integer, towards zero and saturating.
    ToI32,
    /// To an unsigned integer, towards zero and saturating.
    ToU32,
    FromI32,
    FromU32,
    Add,
    Subtract,
    Multiply,
    Divide,
    /// The Euclidean remainder, which is never negative: `a - |b| * floor(a / |b|)`.
    Modulo,
    Min,
    Max,
    /// The square root of the sum of the squares of all lanes.
    Length,
    /// The sum of the products of the first two numbers of each lane of a run, from the first lane on.
    SumOfProducts,
    /// The cross product of the three lanes, whose two sides are of these scalar types.
    Cross { left: ScalarType, right: ScalarType },
    /// `min(max(a, b), c)`.
    Clamp,
    /// `(1 - c) * a + c * b`.
    Mix,
    Transcendental(Transcendental),
}

/// Floating-point work: `width` result words, each from its share of the lanes.
#[derive(Debug)]
pub struct FloatWork {
    pub op: FloatOp,
    pub lanes: Vec<(u32, u32, u32)>,
    pub width: usize,
}

/// Floating-point work as a value.
#[verifier::ext_equal]
pub ghost struct Work {
    pub op: FloatOp,
    pub lanes: Seq<(u32, u32, u32)>,
    pub width: int,
}

impl View for FloatWork {
    type V = Work;

    open spec fn view(&self) -> Work {
        Work { op: self.op, lanes: self.lanes@, width: self.width as int }
    }
}

/// What an operation comes to.
#[verifier::ext_equal]
pub ghost enum Outcome {
    Done(Datum),
    Fault(Fault),
    /// The words of a value of this type are still to be computed.
    Job(Work, Type),
    /// The length of a vector is still to be computed, to normalise it by.
    Measure(Work),
}

/// What an operation comes to.
#[derive(Debug)]
pub enum Computed {
    Done(Val),
    Fault(Fault),
    Job(FloatWork, Type),
    Measure(FloatWork),
}

impl View for Computed {
    type V = Outcome;

    open spec fn view(&self) -> Outcome {
        match self {
            Computed::Done(value) => Outcome::Done(value@),
            Computed::Fault(fault) => Outcome::Fault(*fault),
            Computed::Job(work, kind) => Outcome::Job(work@, *kind),
            Computed::Measure(work) => Outcome::Measure(work@),
        }
    }
}

/// As many lanes as fit inline.
pub open spec fn fitting(count: nat) -> nat {
    if count <= INLINE_WORDS {
        count
    } else {
        INLINE_WORDS as nat
    }
}

fn fit(count: usize) -> (fitted: usize)
    ensures
        fitted == fitting(count as nat),
        fitted <= 16,
        fitted <= count,
{
    if count <= INLINE_WORDS {
        count
    } else {
        INLINE_WORDS
    }
}

/// The word an operand gives to a lane: a single word goes to every lane.
pub open spec fn spread(value: Datum, lane: int) -> u32 {
    if value.words.len() == 1 {
        value.word(0)
    } else {
        value.word(lane)
    }
}

fn spread_word(value: &Val, lane: usize) -> (word: u32)
    ensures
        word == spread(value@, lane as int),
{
    if value.len() == 1 {
        value.u32_at(0)
    } else {
        value.u32_at(lane)
    }
}

/// The lanes of one operand.
pub open spec fn single_lanes(value: Datum, count: nat) -> Seq<(u32, u32, u32)> {
    Seq::new(count, |i: int| (value.word(i), 0u32, 0u32))
}

fn lanes_of_one(value: &Val, count: usize) -> (lanes: Vec<(u32, u32, u32)>)
    ensures
        lanes@ == single_lanes(value@, count as nat),
{
    let mut lanes: Vec<(u32, u32, u32)> = Vec::new();
    let mut next: usize = 0;
    while next < count
        invariant
            next <= count,
            lanes@ == single_lanes(value@, next as nat),
        decreases count - next,
    {
        lanes.push((value.u32_at(next), 0, 0));
        next = next + 1;
        assert(lanes@ =~= single_lanes(value@, next as nat));
    }
    lanes
}

/// The lanes of two operands, a single word going to every lane.
pub open spec fn paired_lanes(left: Datum, right: Datum, count: nat) -> Seq<(u32, u32, u32)> {
    Seq::new(count, |i: int| (spread(left, i), spread(right, i), 0u32))
}

fn lanes_of_two(left: &Val, right: &Val, count: usize) -> (lanes: Vec<(u32, u32, u32)>)
    ensures
        lanes@ == paired_lanes(left@, right@, count as nat),
{
    let mut lanes: Vec<(u32, u32, u32)> = Vec::new();
    let mut next: usize = 0;
    while next < count
        invariant
            next <= count,
            lanes@ == paired_lanes(left@, right@, next as nat),
        decreases count - next,
    {
        lanes.push((spread_word(left, next), spread_word(right, next), 0));
        next = next + 1;
        assert(lanes@ =~= paired_lanes(left@, right@, next as nat));
    }
    lanes
}

// ---------------------------------------------------------------------------------------------
// One operand.
// ---------------------------------------------------------------------------------------------
/// The floating-point operation a unary operation is on values of a scalar type, if it is one.
pub open spec fn unary_float(op: UnaryOp, scalar: ScalarType) -> Option<FloatOp> {
    match op {
        UnaryOp::Floor => Some(FloatOp::Floor),
        UnaryOp::Ceil => Some(FloatOp::Ceil),
        UnaryOp::Fract => Some(FloatOp::Fract),
        UnaryOp::Convert(target) => match (scalar, target) {
            (ScalarType::F32, ScalarType::I32) => Some(FloatOp::ToI32),
            (ScalarType::F32, ScalarType::U32) => Some(FloatOp::ToU32),
            (ScalarType::I32, ScalarType::F32) => Some(FloatOp::FromI32),
            (ScalarType::U32, ScalarType::F32) => Some(FloatOp::FromU32),
            _ => None,
        },
        _ => None,
    }
}

fn unary_float_op(op: UnaryOp, scalar: ScalarType) -> (float: Option<FloatOp>)
    ensures
        float == unary_float(op, scalar),
{
    match op {
        UnaryOp::Floor => Some(FloatOp::Floor),
        UnaryOp::Ceil => Some(FloatOp::Ceil),
        UnaryOp::Fract => Some(FloatOp::Fract),
        UnaryOp::Convert(target) => match (scalar, target) {
            (ScalarType::F32, ScalarType::I32) => Some(FloatOp::ToI32),
            (ScalarType::F32, ScalarType::U32) => Some(FloatOp::ToU32),
            (ScalarType::I32, ScalarType::F32) => Some(FloatOp::FromI32),
            (ScalarType::U32, ScalarType::F32) => Some(FloatOp::FromU32),
            _ => None,
        },
        _ => None,
    }
}

/// A truth as a word.
pub open spec fn truth_word(truth: bool) -> u32 {
    if truth {
        1
    } else {
        0
    }
}

/// The word with its sign bit turned over.
pub open spec fn sign_turned(word: u32) -> u32 {
    if word >= 0x8000_0000 {
        (word - 0x8000_0000) as u32
    } else {
        (word + 0x8000_0000) as u32
    }
}

/// One lane of a unary operation that needs no floating-point arithmetic.
pub open spec fn unary_word(op: UnaryOp, scalar: ScalarType, word: u32) -> u32 {
    match op {
        UnaryOp::Negate => if scalar is F32 {
            sign_turned(word)
        } else {
            unsigned(-word)
        },
        UnaryOp::Not => truth_word(word == 0),
        UnaryOp::Complement => (u32::MAX - word) as u32,
        UnaryOp::Abs => match scalar {
            ScalarType::F32 => bits::magnitude(word) as u32,
            ScalarType::I32 => if word >= 0x8000_0000 {
                unsigned(-word)
            } else {
                word
            },
            _ => word,
        },
        UnaryOp::Convert(target) => match (scalar, target) {
            (ScalarType::F32, ScalarType::Bool) => truth_word(bits::magnitude(word) != 0),
            (ScalarType::Bool, ScalarType::F32) => if word != 0 {
                bits::ONE
            } else {
                0
            },
            (ScalarType::Bool, _) => truth_word(word != 0),
            (_, ScalarType::Bool) => truth_word(word != 0),
            _ => word,
        },
        _ => word,
    }
}

fn wrapping_negate(word: u32) -> (negated: u32)
    ensures
        negated == unsigned(-word),
{
    if word == 0 {
        0
    } else {
        u32::MAX - word + 1
    }
}

fn unary_lane(op: UnaryOp, scalar: ScalarType, word: u32) -> (result: u32)
    ensures
        result == unary_word(op, scalar, word),
{
    let one: u32 = if word != 0 {
        1
    } else {
        0
    };
    let bare: u32 = if word >= 0x8000_0000 {
        word - 0x8000_0000
    } else {
        word
    };
    match op {
        UnaryOp::Negate => match scalar {
            ScalarType::F32 => if word >= 0x8000_0000 {
                bare
            } else {
                word + 0x8000_0000
            },
            _ => wrapping_negate(word),
        },
        UnaryOp::Not => 1 - one,
        UnaryOp::Complement => u32::MAX - word,
        UnaryOp::Abs => match scalar {
            ScalarType::F32 => bare,
            ScalarType::I32 => if word >= 0x8000_0000 {
                wrapping_negate(word)
            } else {
                word
            },
            _ => word,
        },
        UnaryOp::Convert(target) => match (scalar, target) {
            (ScalarType::F32, ScalarType::Bool) => if bare != 0 {
                1
            } else {
                0
            },
            (ScalarType::Bool, ScalarType::F32) => if word != 0 {
                bits::ONE
            } else {
                0
            },
            (ScalarType::Bool, _) => one,
            (_, ScalarType::Bool) => one,
            _ => word,
        },
        _ => word,
    }
}

/// The type of a unary operation's result.
pub open spec fn unary_kind(op: UnaryOp, kind: Type) -> Type {
    match op {
        UnaryOp::Not => match kind {
            Type::Vector(_, components) => Type::Vector(ScalarType::Bool, components),
            _ => Type::Scalar(ScalarType::Bool),
        },
        UnaryOp::Convert(target) => match kind {
            Type::Vector(_, components) => Type::Vector(target, components),
            _ => Type::Scalar(target),
        },
        _ => kind,
    }
}

fn unary_kind_of(op: UnaryOp, kind: &Type) -> (result: Type)
    ensures
        result == unary_kind(op, *kind),
{
    match op {
        UnaryOp::Not => match kind {
            Type::Vector(_, components) => Type::Vector(ScalarType::Bool, *components),
            _ => Type::Scalar(ScalarType::Bool),
        },
        UnaryOp::Convert(target) => match kind {
            Type::Vector(_, components) => Type::Vector(target, *components),
            _ => Type::Scalar(target),
        },
        _ => kind.copy(),
    }
}

/// What a unary operation comes to.
pub open spec fn unary_result(op: UnaryOp, value: Datum) -> Outcome {
    let scalar = value.kind.scalar();
    let count = fitting(value.words.len());
    let length = Work {
        op: FloatOp::Length,
        lanes: single_lanes(value, value.words.len()),
        width: 1,
    };
    match op {
        UnaryOp::Length => Outcome::Job(length, Type::Scalar(ScalarType::F32)),
        UnaryOp::Normalize => Outcome::Measure(length),
        _ => match unary_float(op, scalar) {
            Some(float) => Outcome::Job(
                Work { op: float, lanes: single_lanes(value, count), width: count as int },
                unary_kind(op, value.kind),
            ),
            None => Outcome::Done(
                Datum {
                    kind: unary_kind(op, value.kind),
                    words: Seq::new(count, |i: int| unary_word(op, scalar, value.word(i))),
                },
            ),
        },
    }
}

/// A unary operation on a value.
pub fn unary(op: UnaryOp, value: &Val) -> (computed: Computed)
    ensures
        computed@ == unary_result(op, value@),
{
    let scalar = value.scalar_type();
    match op {
        UnaryOp::Length => {
            let lanes = lanes_of_one(value, value.len());
            return Computed::Job(
                FloatWork { op: FloatOp::Length, lanes, width: 1 },
                Type::Scalar(ScalarType::F32),
            );
        },
        UnaryOp::Normalize => {
            let lanes = lanes_of_one(value, value.len());
            return Computed::Measure(FloatWork { op: FloatOp::Length, lanes, width: 1 });
        },
        _ => {},
    }
    let count: usize = fit(value.len());
    let kind = unary_kind_of(op, &value.kind);
    match unary_float_op(op, scalar) {
        Some(float) => {
            let lanes = lanes_of_one(value, count);
            Computed::Job(FloatWork { op: float, lanes, width: count }, kind)
        },
        None => {
            let mut words: Vec<u32> = Vec::new();
            let mut next: usize = 0;
            let ghost wanted = Seq::new(count as nat, |i: int| unary_word(op, scalar, value@.word(i)));
            while next < count
                invariant
                    next <= count,
                    wanted == Seq::new(count as nat, |i: int| unary_word(op, scalar, value@.word(i))),
                    words@ == wanted.take(next as int),
                decreases count - next,
            {
                words.push(unary_lane(op, scalar, value.u32_at(next)));
                next = next + 1;
                assert(words@ =~= wanted.take(next as int));
            }
            assert(words@ =~= wanted);
            Computed::Done(Val::new(kind, words.as_slice()))
        },
    }
}

/// A vector over its own length: a length of zero, or one that is not finite, leaves the vector as it is.
pub open spec fn normalized(value: Datum, length: u32) -> Outcome {
    let count = fitting(value.words.len());
    if bits::magnitude(length) == 0 || !bits::finite(length) {
        Outcome::Done(value)
    } else {
        Outcome::Job(
            Work {
                op: FloatOp::Divide,
                lanes: Seq::new(count, |i: int| (value.word(i), length, 0u32)),
                width: count as int,
            },
            value.kind,
        )
    }
}

/// Divide a vector by its own length, given as a bit pattern.
pub fn normalize(value: &Val, length: u32) -> (computed: Computed)
    ensures
        computed@ == normalized(value@, length),
{
    if length == 0 || length == 0x8000_0000 || !bits::is_finite(length) {
        return Computed::Done(value.duplicate());
    }
    let count: usize = fit(value.len());
    let ghost wanted = Seq::new(count as nat, |i: int| (value@.word(i), length, 0u32));
    let mut lanes: Vec<(u32, u32, u32)> = Vec::new();
    let mut next: usize = 0;
    while next < count
        invariant
            next <= count,
            wanted == Seq::new(count as nat, |i: int| (value@.word(i), length, 0u32)),
            lanes@ == wanted.take(next as int),
        decreases count - next,
    {
        lanes.push((value.u32_at(next), length, 0));
        next = next + 1;
        assert(lanes@ =~= wanted.take(next as int));
    }
    assert(lanes@ =~= wanted);
    Computed::Job(FloatWork { op: FloatOp::Divide, lanes, width: count }, value.kind.copy())
}

// ---------------------------------------------------------------------------------------------
// Two operands.
// ---------------------------------------------------------------------------------------------
/// The floating-point operation a binary operation is on floating-point operands, if it is one.
pub open spec fn binary_float(op: BinaryOp) -> Option<FloatOp> {
    match op {
        BinaryOp::Add => Some(FloatOp::Add),
        BinaryOp::Subtract => Some(FloatOp::Subtract),
        BinaryOp::Multiply => Some(FloatOp::Multiply),
        BinaryOp::Divide => Some(FloatOp::Divide),
        BinaryOp::Modulo => Some(FloatOp::Modulo),
        BinaryOp::Min => Some(FloatOp::Min),
        BinaryOp::Max => Some(FloatOp::Max),
        _ => None,
    }
}

fn binary_float_op(op: BinaryOp) -> (float: Option<FloatOp>)
    ensures
        float == binary_float(op),
{
    match op {
        BinaryOp::Add => Some(FloatOp::Add),
        BinaryOp::Subtract => Some(FloatOp::Subtract),
        BinaryOp::Multiply => Some(FloatOp::Multiply),
        BinaryOp::Divide => Some(FloatOp::Divide),
        BinaryOp::Modulo => Some(FloatOp::Modulo),
        BinaryOp::Min => Some(FloatOp::Min),
        BinaryOp::Max => Some(FloatOp::Max),
        _ => None,
    }
}

/// The magnitude of an integer.
pub open spec fn distance(value: int) -> int {
    if value < 0 {
        -value
    } else {
        value
    }
}

/// Division rounding towards zero.
pub open spec fn truncated(left: int, right: int) -> int {
    if (left < 0) == (right < 0) {
        distance(left) / distance(right)
    } else {
        -(distance(left) / distance(right))
    }
}

/// One lane of a binary operation that needs no floating-point arithmetic. Sums, differences and products
/// wrap, a division or remainder by zero is zero, the signed remainder is never negative, and a shift counts
/// modulo 32.
pub open spec fn binary_word(op: BinaryOp, scalar: ScalarType, left: u32, right: u32) -> u32 {
    if scalar is F32 {
        left
    } else {
        match op {
            BinaryOp::Add => unsigned(left + right),
            BinaryOp::Subtract => unsigned(left - right),
            BinaryOp::Multiply => unsigned(left * right),
            BinaryOp::Divide => if right == 0 {
                0
            } else if scalar is I32 {
                unsigned(truncated(signed(left), signed(right)))
            } else {
                left / right
            },
            BinaryOp::Modulo => if right == 0 {
                0
            } else if scalar is I32 {
                unsigned(signed(left) % signed(right))
            } else {
                left % right
            },
            BinaryOp::And => left & right,
            BinaryOp::Or => left | right,
            BinaryOp::Xor => left ^ right,
            BinaryOp::ShiftLeft => left << (right % 32),
            BinaryOp::ShiftRight => if scalar is I32 {
                ((left as i32) >> (right % 32)) as u32
            } else {
                left >> (right % 32)
            },
            BinaryOp::Min => if scalar is I32 {
                if signed(left) <= signed(right) {
                    left
                } else {
                    right
                }
            } else if left <= right {
                left
            } else {
                right
            },
            BinaryOp::Max => if scalar is I32 {
                if signed(left) >= signed(right) {
                    left
                } else {
                    right
                }
            } else if left >= right {
                left
            } else {
                right
            },
            _ => left,
        }
    }
}

fn signed_word(value: i64) -> (word: u32)
    requires
        -0x8000_0000 <= value <= 0x8000_0000,
    ensures
        word == unsigned(value as int),
{
    if value >= 0 {
        value as u32
    } else {
        (value + 0x1_0000_0000) as u32
    }
}

fn signed_divide(left: u32, right: u32) -> (word: u32)
    requires
        right != 0,
    ensures
        word == unsigned(truncated(signed(left), signed(right))),
{
    let a: i64 = to_signed(left) as i64;
    let b: i64 = to_signed(right) as i64;
    let over: i64 = if a < 0 {
        -a
    } else {
        a
    };
    let under: i64 = if b < 0 {
        -b
    } else {
        b
    };
    let quotient: i64 = over / under;
    proof {
        let (x, y) = (over as int, under as int);
        assert(0 <= x / y <= x) by (nonlinear_arith)
            requires
                x >= 0,
                y >= 1,
        ;
    }
    if (a < 0) == (b < 0) {
        signed_word(quotient)
    } else {
        signed_word(-quotient)
    }
}

fn signed_remainder(left: u32, right: u32) -> (word: u32)
    requires
        right != 0,
    ensures
        word == unsigned(signed(left) % signed(right)),
{
    let a: i64 = to_signed(left) as i64;
    let b: i64 = to_signed(right) as i64;
    let under: i64 = if b < 0 {
        -b
    } else {
        b
    };
    let over: i64 = if a < 0 {
        -a
    } else {
        a
    };
    let part: i64 = over % under;
    let remainder: i64 = if a >= 0 || part == 0 {
        part
    } else {
        under - part
    };
    proof {
        remainder_is_euclidean(a as int, b as int, over as int, under as int, part as int, remainder as int);
    }
    signed_word(remainder)
}

proof fn remainder_is_euclidean(a: int, b: int, over: int, under: int, part: int, remainder: int)
    requires
        b != 0,
        under == distance(b),
        over == distance(a),
        part == over % under,
        remainder == if a >= 0 || part == 0 {
            part
        } else {
            under - part
        },
    ensures
        remainder == a % b,
        0 <= remainder < under,
{
    let q = over / under;
    vstd::arithmetic::div_mod::lemma_fundamental_div_mod(over, under);
    let k = if a >= 0 {
        q
    } else if part == 0 {
        -q
    } else {
        -q - 1
    };
    assert(a == k * under + remainder) by (nonlinear_arith)
        requires
            over == under * q + part,
            over == if a < 0 { -a } else { a },
            k == if a >= 0 { q } else if part == 0 { -q } else { -q - 1 },
            remainder == if a >= 0 || part == 0 { part } else { under - part },
    ;
    vstd::arithmetic::div_mod::lemma_fundamental_div_mod_converse(a, under, k, remainder);
    if b < 0 {
        assert(a % b == a % under) by (nonlinear_arith)
            requires
                b == -under,
                under > 0,
        ;
    }
}

fn binary_lane(op: BinaryOp, scalar: ScalarType, left: u32, right: u32) -> (word: u32)
    ensures
        word == binary_word(op, scalar, left, right),
{
    let is_signed = match scalar {
        ScalarType::F32 => {
            return left;
        },
        ScalarType::I32 => true,
        _ => false,
    };
    let shift: u32 = right % 32;
    match op {
        BinaryOp::Add => ((left as u64 + right as u64) % 0x1_0000_0000) as u32,
        BinaryOp::Subtract => ((left as u64 + 0x1_0000_0000 - right as u64) % 0x1_0000_0000) as u32,
        BinaryOp::Multiply => {
            proof {
                assert(0 <= left * right <= 0xffff_fffe_0000_0001) by (nonlinear_arith)
                    requires
                        0 <= left <= 0xffff_ffff,
                        0 <= right <= 0xffff_ffff,
                ;
            }
            ((left as u64 * right as u64) % 0x1_0000_0000) as u32
        },
        BinaryOp::Divide => if right == 0 {
            0
        } else if is_signed {
            signed_divide(left, right)
        } else {
            left / right
        },
        BinaryOp::Modulo => if right == 0 {
            0
        } else if is_signed {
            signed_remainder(left, right)
        } else {
            left % right
        },
        BinaryOp::And => left & right,
        BinaryOp::Or => left | right,
        BinaryOp::Xor => left ^ right,
        BinaryOp::ShiftLeft => left << shift,
        BinaryOp::ShiftRight => if is_signed {
            ((left as i32) >> shift) as u32
        } else {
            left >> shift
        },
        BinaryOp::Min => if is_signed {
            if to_signed(left) <= to_signed(right) {
                left
            } else {
                right
            }
        } else if left <= right {
            left
        } else {
            right
        },
        BinaryOp::Max => if is_signed {
            if to_signed(left) >= to_signed(right) {
                left
            } else {
                right
            }
        } else if left >= right {
            left
        } else {
            right
        },
        _ => left,
    }
}

/// What a product of matrices, or of a matrix and a vector, comes to. Matrices are column-major.
pub open spec fn matrix_result(left: Datum, right: Datum) -> Outcome {
    match left.kind {
        Type::Matrix(side) => match right.kind {
            Type::Vector(_, components) => if components != side {
                Outcome::Fault(Fault::TypeMismatch)
            } else {
                let width = fitting(side as nat);
                Outcome::Job(
                    Work {
                        op: FloatOp::SumOfProducts,
                        lanes: Seq::new(
                            width * side as nat,
                            |t: int|
                                (
                                    left.word((t % side as int) * side + t / side as int),
                                    right.word(t % side as int),
                                    0u32,
                                ),
                        ),
                        width: width as int,
                    },
                    Type::Vector(ScalarType::F32, side),
                )
            },
            Type::Matrix(other) => if other != side || side > 4 {
                Outcome::Fault(Fault::TypeMismatch)
            } else {
                Outcome::Job(
                    Work {
                        op: FloatOp::SumOfProducts,
                        lanes: Seq::new(
                            (side * side) as nat * side as nat,
                            |t: int|
                                (
                                    left.word(
                                        (t % side as int) * side + (t / side as int) % side as int,
                                    ),
                                    right.word(
                                        ((t / side as int) / side as int) * side + t % side as int,
                                    ),
                                    0u32,
                                ),
                        ),
                        width: side * side,
                    },
                    Type::Matrix(side),
                )
            },
            _ => Outcome::Fault(Fault::TypeMismatch),
        },
        _ => Outcome::Fault(Fault::TypeMismatch),
    }
}

/// The lanes of a matrix product of `rows` results: lane `t` is term `t % side` of result `t / side`.
fn product_lanes(left: &Val, right: &Val, side: usize, results: usize, flat: bool) -> (lanes: Vec<
    (u32, u32, u32),
>)
    requires
        side <= 255,
        results <= 16,
    ensures
        lanes@.len() == results * side,
        forall|t: int|
            0 <= t < results * side ==> #[trigger] lanes@[t] == if flat {
                (
                    left@.word((t % side as int) * side + t / side as int),
                    right@.word(t % side as int),
                    0u32,
                )
            } else {
                (
                    left@.word((t % side as int) * side + (t / side as int) % side as int),
                    right@.word(((t / side as int) / side as int) * side + t % side as int),
                    0u32,
                )
            },
{
    let mut lanes: Vec<(u32, u32, u32)> = Vec::new();
    if side == 0 {
        proof {
            assert(results * side == 0) by (nonlinear_arith)
                requires
                    side == 0,
            ;
        }
        return lanes;
    }
    let mut result: usize = 0;
    while result < results
        invariant
            0 < side <= 255,
            result <= results <= 16,
            lanes@.len() == result * side,
            forall|t: int|
                0 <= t < result * side ==> #[trigger] lanes@[t] == if flat {
                    (
                        left@.word((t % side as int) * side + t / side as int),
                        right@.word(t % side as int),
                        0u32,
                    )
                } else {
                    (
                        left@.word((t % side as int) * side + (t / side as int) % side as int),
                        right@.word(((t / side as int) / side as int) * side + t % side as int),
                        0u32,
                    )
                },
        decreases results - result,
    {
        let mut term: usize = 0;
        while term < side
            invariant
                0 < side <= 255,
                result < results <= 16,
                term <= side,
                lanes@.len() == result * side + term,
                forall|t: int|
                    0 <= t < result * side + term ==> #[trigger] lanes@[t] == if flat {
                        (
                            left@.word((t % side as int) * side + t / side as int),
                            right@.word(t % side as int),
                            0u32,
                        )
                    } else {
                        (
                            left@.word((t % side as int) * side + (t / side as int) % side as int),
                            right@.word(((t / side as int) / side as int) * side + t % side as int),
                            0u32,
                        )
                    },
            decreases side - term,
        {
            proof {
                let t = result * side + term;
                vstd::arithmetic::div_mod::lemma_fundamental_div_mod_converse(
                    t,
                    side as int,
                    result as int,
                    term as int,
                );
                assert(term * side <= 65025 && result * side <= 65025) by (nonlinear_arith)
                    requires
                        0 <= term <= 255,
                        0 <= side <= 255,
                        0 <= result <= 16,
                ;
                assert((result as int / side as int) * side <= result) by {
                    vstd::arithmetic::div_mod::lemma_fundamental_div_mod(result as int, side as int);
                    vstd::arithmetic::mul::lemma_mul_is_commutative(
                        result as int / side as int,
                        side as int,
                    );
                }
            }
            let lane: (u32, u32, u32) = if flat {
                (left.u32_at(term * side + result), right.u32_at(term), 0)
            } else {
                (
                    left.u32_at(term * side + result % side),
                    right.u32_at((result / side) * side + term),
                    0,
                )
            };
            lanes.push(lane);
            term = term + 1;
        }
        proof {
            assert(result * side + side == (result + 1) * side) by (nonlinear_arith);
        }
        result = result + 1;
    }
    lanes
}

/// A matrix times a vector, or a matrix times a matrix.
pub fn matrix_product(left: &Val, right: &Val) -> (computed: Computed)
    ensures
        computed@ == matrix_result(left@, right@),
{
    let side: u8 = match &left.kind {
        Type::Matrix(side) => *side,
        _ => {
            return Computed::Fault(Fault::TypeMismatch);
        },
    };
    match &right.kind {
        Type::Vector(_, components) => {
            if *components != side {
                return Computed::Fault(Fault::TypeMismatch);
            }
            let width: usize = fit(side as usize);
            let lanes = product_lanes(left, right, side as usize, width, true);
            let computed = Computed::Job(
                FloatWork { op: FloatOp::SumOfProducts, lanes, width },
                Type::Vector(ScalarType::F32, side),
            );
            proof {
                let wanted = matrix_result(left@, right@)->Job_0;
                assert(lanes@ =~= wanted.lanes);
            }
            computed
        },
        Type::Matrix(other) => {
            if *other != side || side > 4 {
                return Computed::Fault(Fault::TypeMismatch);
            }
            proof {
                let n = side as int;
                assert(0 <= n * n <= 16) by (nonlinear_arith)
                    requires
                        0 <= n <= 4,
                ;
            }
            let width: usize = side as usize * side as usize;
            let lanes = product_lanes(left, right, side as usize, width, false);
            let computed = Computed::Job(
                FloatWork { op: FloatOp::SumOfProducts, lanes, width },
                Type::Matrix(side),
            );
            proof {
                let wanted = matrix_result(left@, right@)->Job_0;
                assert(lanes@ =~= wanted.lanes);
            }
            computed
        },
        _ => Computed::Fault(Fault::TypeMismatch),
    }
}

/// What a binary operation comes to. The longer operand decides the type, and a single word goes to every
/// lane.
pub open spec fn binary_result(op: BinaryOp, left: Datum, right: Datum) -> Outcome {
    let (l, r) = (left.words.len(), right.words.len());
    let scalar = if l >= r {
        left.kind.scalar()
    } else {
        right.kind.scalar()
    };
    let kind = if l >= r {
        left.kind
    } else {
        right.kind
    };
    let count = fitting(
        if l >= r {
            l
        } else {
            r
        },
    );
    match op {
        BinaryOp::Dot => Outcome::Job(
            Work {
                op: FloatOp::SumOfProducts,
                lanes: Seq::new(
                    if l <= r {
                        l
                    } else {
                        r
                    },
                    |i: int| (left.word(i), right.word(i), 0u32),
                ),
                width: 1,
            },
            Type::Scalar(ScalarType::F32),
        ),
        BinaryOp::Cross => if l != 3 || r != 3 {
            Outcome::Fault(Fault::TypeMismatch)
        } else {
            Outcome::Job(
                Work {
                    op: FloatOp::Cross { left: left.kind.scalar(), right: right.kind.scalar() },
                    lanes: Seq::new(3, |i: int| (left.word(i), right.word(i), 0u32)),
                    width: 3,
                },
                Type::Vector(ScalarType::F32, 3),
            )
        },
        BinaryOp::MatrixProduct => matrix_result(left, right),
        _ => if scalar is F32 && binary_float(op) is Some {
            Outcome::Job(
                Work {
                    op: binary_float(op)->Some_0,
                    lanes: paired_lanes(left, right, count),
                    width: count as int,
                },
                kind,
            )
        } else {
            Outcome::Done(
                Datum {
                    kind,
                    words: Seq::new(
                        count,
                        |i: int| binary_word(op, scalar, spread(left, i), spread(right, i)),
                    ),
                },
            )
        },
    }
}

fn plain_pairs(left: &Val, right: &Val, count: usize) -> (lanes: Vec<(u32, u32, u32)>)
    ensures
        lanes@ == Seq::new(count as nat, |i: int| (left@.word(i), right@.word(i), 0u32)),
{
    let ghost wanted = Seq::new(count as nat, |i: int| (left@.word(i), right@.word(i), 0u32));
    let mut lanes: Vec<(u32, u32, u32)> = Vec::new();
    let mut next: usize = 0;
    while next < count
        invariant
            next <= count,
            wanted == Seq::new(count as nat, |i: int| (left@.word(i), right@.word(i), 0u32)),
            lanes@ == wanted.take(next as int),
        decreases count - next,
    {
        lanes.push((left.u32_at(next), right.u32_at(next), 0));
        next = next + 1;
        assert(lanes@ =~= wanted.take(next as int));
    }
    assert(lanes@ =~= wanted);
    lanes
}

/// A binary operation on two values.
pub fn binary(op: BinaryOp, left: &Val, right: &Val) -> (computed: Computed)
    ensures
        computed@ == binary_result(op, left@, right@),
{
    let (l, r): (usize, usize) = (left.len(), right.len());
    match op {
        BinaryOp::Dot => {
            let count: usize = if l <= r {
                l
            } else {
                r
            };
            let lanes = plain_pairs(left, right, count);
            return Computed::Job(
                FloatWork { op: FloatOp::SumOfProducts, lanes, width: 1 },
                Type::Scalar(ScalarType::F32),
            );
        },
        BinaryOp::Cross => {
            if l != 3 || r != 3 {
                return Computed::Fault(Fault::TypeMismatch);
            }
            let lanes = plain_pairs(left, right, 3);
            return Computed::Job(
                FloatWork {
                    op: FloatOp::Cross { left: left.scalar_type(), right: right.scalar_type() },
                    lanes,
                    width: 3,
                },
                Type::Vector(ScalarType::F32, 3),
            );
        },
        BinaryOp::MatrixProduct => {
            return matrix_product(left, right);
        },
        _ => {},
    }
    let scalar = if l >= r {
        left.scalar_type()
    } else {
        right.scalar_type()
    };
    let kind = if l >= r {
        left.kind.copy()
    } else {
        right.kind.copy()
    };
    let count: usize = fit(
        if l >= r {
            l
        } else {
            r
        },
    );
    if scalar == ScalarType::F32 {
        if let Some(float) = binary_float_op(op) {
            let lanes = lanes_of_two(left, right, count);
            return Computed::Job(FloatWork { op: float, lanes, width: count }, kind);
        }
    }
    let ghost wanted = Seq::new(
        count as nat,
        |i: int| binary_word(op, scalar, spread(left@, i), spread(right@, i)),
    );
    let mut words: Vec<u32> = Vec::new();
    let mut next: usize = 0;
    while next < count
        invariant
            next <= count,
            wanted == Seq::new(
                count as nat,
                |i: int| binary_word(op, scalar, spread(left@, i), spread(right@, i)),
            ),
            words@ == wanted.take(next as int),
        decreases count - next,
    {
        words.push(binary_lane(op, scalar, spread_word(left, next), spread_word(right, next)));
        next = next + 1;
        assert(words@ =~= wanted.take(next as int));
    }
    assert(words@ =~= wanted);
    Computed::Done(Val::new(kind, words.as_slice()))
}

/// Whether a comparison holds, by the scalar type of its left side.
pub open spec fn comparison(kind: CompareKind, left: Datum, right: Datum) -> bool {
    let (a, b) = (left.word(0), right.word(0));
    let (less, equal, greater) = match left.kind.scalar() {
        ScalarType::F32 => (bits::below(a, b), bits::same(a, b), bits::below(b, a)),
        ScalarType::I32 => (signed(a) < signed(b), a == b, signed(a) > signed(b)),
        _ => (a < b, a == b, a > b),
    };
    match kind {
        CompareKind::Equal => equal,
        CompareKind::NotEqual => !equal,
        CompareKind::Less => less,
        CompareKind::LessOrEqual => less || equal,
        CompareKind::Greater => greater,
        CompareKind::GreaterOrEqual => greater || equal,
    }
}

/// Compare the first components of two values. A comparison with a NaN is false, except for `NotEqual`.
pub fn compare(kind: CompareKind, left: &Val, right: &Val) -> (holds: bool)
    ensures
        holds == comparison(kind, left@, right@),
{
    let (a, b): (u32, u32) = (left.u32_at(0), right.u32_at(0));
    let (less, equal, greater) = match left.scalar_type() {
        ScalarType::F32 => (bits::less(a, b), bits::equal(a, b), bits::less(b, a)),
        ScalarType::I32 => (to_signed(a) < to_signed(b), a == b, to_signed(a) > to_signed(b)),
        _ => (a < b, a == b, a > b),
    };
    match kind {
        CompareKind::Equal => equal,
        CompareKind::NotEqual => !equal,
        CompareKind::Less => less,
        CompareKind::LessOrEqual => less || equal,
        CompareKind::Greater => greater,
        CompareKind::GreaterOrEqual => greater || equal,
    }
}

/// A comparison with a NaN on either side is false, except that `NotEqual` is true.
pub proof fn a_nan_compares_unequal(kind: CompareKind, left: Datum, right: Datum)
    requires
        left.kind.scalar() is F32,
        bits::nan(left.word(0)) || bits::nan(right.word(0)),
    ensures
        comparison(kind, left, right) <==> kind is NotEqual,
{
}

/// The signed remainder is never negative, and zero where the divisor is zero.
pub proof fn the_remainder_is_never_negative(left: u32, right: u32)
    ensures
        signed(binary_word(BinaryOp::Modulo, ScalarType::I32, left, right)) >= 0,
        right == 0 ==> binary_word(BinaryOp::Modulo, ScalarType::I32, left, right) == 0,
        right == 0 ==> binary_word(BinaryOp::Divide, ScalarType::I32, left, right) == 0,
        right == 0 ==> binary_word(BinaryOp::Divide, ScalarType::U32, left, right) == 0,
{
    if right != 0 {
        let (a, b) = (signed(left), signed(right));
        let part = distance(a) % distance(b);
        remainder_is_euclidean(
            a,
            b,
            distance(a),
            distance(b),
            part,
            if a >= 0 || part == 0 {
                part
            } else {
                distance(b) - part
            },
        );
    }
}

// ---------------------------------------------------------------------------------------------
// Three operands.
// ---------------------------------------------------------------------------------------------
/// What a selection comes to: component by component for a vector condition.
pub open spec fn select_result(condition: Datum, on_true: Datum, on_false: Datum) -> Outcome {
    let count = fitting(on_true.words.len());
    if condition.words.len() > 1 {
        if forall|i: int| 0 <= i < count ==> condition.word(i) != 0 || i < on_false.words.len() {
            Outcome::Done(
                Datum {
                    kind: on_true.kind,
                    words: Seq::new(
                        count,
                        |i: int|
                            if condition.word(i) != 0 {
                                on_true.word(i)
                            } else {
                                on_false.word(i)
                            },
                    ),
                },
            )
        } else {
            Outcome::Fault(Fault::TypeMismatch)
        }
    } else if condition.word(0) != 0 {
        Outcome::Done(on_true)
    } else {
        Outcome::Done(on_false)
    }
}

/// Select between two values.
pub fn select(condition: &Val, on_true: &Val, on_false: &Val) -> (computed: Computed)
    ensures
        computed@ == select_result(condition@, on_true@, on_false@),
{
    if condition.len() <= 1 {
        return Computed::Done(
            if condition.bool_at(0) {
                on_true.duplicate()
            } else {
                on_false.duplicate()
            },
        );
    }
    let count: usize = fit(on_true.len());
    let ghost wanted = Seq::new(
        count as nat,
        |i: int|
            if condition@.word(i) != 0 {
                on_true@.word(i)
            } else {
                on_false@.word(i)
            },
    );
    let mut words: Vec<u32> = Vec::new();
    let mut next: usize = 0;
    while next < count
        invariant
            next <= count,
            count == fitting(on_true@.words.len()),
            condition@.words.len() > 1,
            wanted == Seq::new(
                count as nat,
                |i: int|
                    if condition@.word(i) != 0 {
                        on_true@.word(i)
                    } else {
                        on_false@.word(i)
                    },
            ),
            words@ == wanted.take(next as int),
            forall|i: int| 0 <= i < next ==> condition@.word(i) != 0 || i < on_false@.words.len(),
        decreases count - next,
    {
        if condition.bool_at(next) {
            words.push(on_true.u32_at(next));
        } else {
            if next >= on_false.len() {
                assert(!(condition@.word(next as int) != 0 || next < on_false@.words.len()));
                return Computed::Fault(Fault::TypeMismatch);
            }
            words.push(on_false.u32_at(next));
        }
        next = next + 1;
        assert(words@ =~= wanted.take(next as int));
    }
    assert(words@ =~= wanted);
    Computed::Done(Val::new(on_true.kind.copy(), words.as_slice()))
}

/// What a clamp comes to.
pub open spec fn clamp_result(value: Datum, low: Datum, high: Datum) -> Outcome {
    let count = fitting(value.words.len());
    Outcome::Job(
        Work {
            op: FloatOp::Clamp,
            lanes: Seq::new(count, |i: int| (spread(value, i), spread(low, i), spread(high, i))),
            width: count as int,
        },
        value.kind,
    )
}

/// Hold a value between two others.
pub fn clamp(value: &Val, low: &Val, high: &Val) -> (computed: Computed)
    ensures
        computed@ == clamp_result(value@, low@, high@),
{
    let count: usize = fit(value.len());
    let ghost wanted = Seq::new(
        count as nat,
        |i: int| (spread(value@, i), spread(low@, i), spread(high@, i)),
    );
    let mut lanes: Vec<(u32, u32, u32)> = Vec::new();
    let mut next: usize = 0;
    while next < count
        invariant
            next <= count,
            wanted == Seq::new(
                count as nat,
                |i: int| (spread(value@, i), spread(low@, i), spread(high@, i)),
            ),
            lanes@ == wanted.take(next as int),
        decreases count - next,
    {
        lanes.push((spread_word(value, next), spread_word(low, next), spread_word(high, next)));
        next = next + 1;
        assert(lanes@ =~= wanted.take(next as int));
    }
    assert(lanes@ =~= wanted);
    Computed::Job(FloatWork { op: FloatOp::Clamp, lanes, width: count }, value.kind.copy())
}

/// What a mix comes to.
pub open spec fn mix_result(from: Datum, to: Datum, at: Datum) -> Outcome {
    let count = fitting(from.words.len());
    Outcome::Job(
        Work {
            op: FloatOp::Mix,
            lanes: Seq::new(count, |i: int| (from.word(i), to.word(i), spread(at, i))),
            width: count as int,
        },
        from.kind,
    )
}

/// Interpolate between two values.
pub fn mix(from: &Val, to: &Val, at: &Val) -> (computed: Computed)
    ensures
        computed@ == mix_result(from@, to@, at@),
{
    let count: usize = fit(from.len());
    let ghost wanted = Seq::new(count as nat, |i: int| (from@.word(i), to@.word(i), spread(at@, i)));
    let mut lanes: Vec<(u32, u32, u32)> = Vec::new();
    let mut next: usize = 0;
    while next < count
        invariant
            next <= count,
            wanted == Seq::new(count as nat, |i: int| (from@.word(i), to@.word(i), spread(at@, i))),
            lanes@ == wanted.take(next as int),
        decreases count - next,
    {
        lanes.push((from.u32_at(next), to.u32_at(next), spread_word(at, next)));
        next = next + 1;
        assert(lanes@ =~= wanted.take(next as int));
    }
    assert(lanes@ =~= wanted);
    Computed::Job(FloatWork { op: FloatOp::Mix, lanes, width: count }, from.kind.copy())
}

/// What a transcendental comes to. A missing second operand is zero.
pub open spec fn transcendental_result(which: Transcendental, value: Datum, second: Option<Datum>) -> Outcome {
    let count = fitting(value.words.len());
    Outcome::Job(
        Work {
            op: FloatOp::Transcendental(which),
            lanes: Seq::new(
                count,
                |i: int|
                    (
                        value.word(i),
                        match second {
                            Some(other) => spread(other, i),
                            None => 0u32,
                        },
                        0u32,
                    ),
            ),
            width: count as int,
        },
        value.kind,
    )
}

/// A transcendental function of a value.
pub fn transcendental(which: Transcendental, value: &Val, second: Option<&Val>) -> (computed: Computed)
    ensures
        computed@ == transcendental_result(
            which,
            value@,
            match second {
                Some(other) => Some(other@),
                None => None,
            },
        ),
{
    let count: usize = fit(value.len());
    let ghost shown: Option<Datum> = match second {
        Some(other) => Some(other@),
        None => None,
    };
    let ghost wanted = Seq::new(
        count as nat,
        |i: int|
            (
                value@.word(i),
                match shown {
                    Some(other) => spread(other, i),
                    None => 0u32,
                },
                0u32,
            ),
    );
    let mut lanes: Vec<(u32, u32, u32)> = Vec::new();
    let mut next: usize = 0;
    while next < count
        invariant
            next <= count,
            shown == match second {
                Some(other) => Some(other@),
                None => None::<Datum>,
            },
            wanted == Seq::new(
                count as nat,
                |i: int|
                    (
                        value@.word(i),
                        match shown {
                            Some(other) => spread(other, i),
                            None => 0u32,
                        },
                        0u32,
                    ),
            ),
            lanes@ == wanted.take(next as int),
        decreases count - next,
    {
        let other: u32 = match second {
            Some(operand) => spread_word(operand, next),
            None => 0,
        };
        lanes.push((value.u32_at(next), other, 0));
        next = next + 1;
        assert(lanes@ =~= wanted.take(next as int));
    }
    assert(lanes@ =~= wanted);
    Computed::Job(
        FloatWork { op: FloatOp::Transcendental(which), lanes, width: count },
        value.kind.copy(),
    )
}

// ---------------------------------------------------------------------------------------------
// Parts of values.
// ---------------------------------------------------------------------------------------------
/// What reading a component comes to: one past the value is refused.
pub open spec fn extract_result(value: Datum, component: u32) -> Outcome {
    if component < value.words.len() {
        Outcome::Done(
            Datum {
                kind: Type::Scalar(value.kind.scalar()),
                words: seq![value.words[component as int]],
            },
        )
    } else {
        Outcome::Fault(
            Fault::IndexOutOfRange { index: component as i64, length: value.words.len() as u32 },
        )
    }
}

/// Read one component of a value.
pub fn extract(value: &Val, component: u32) -> (computed: Computed)
    ensures
        computed@ == extract_result(value@, component),
{
    let words = value.words();
    let index: usize = component as usize;
    if index >= words.len() {
        return Computed::Fault(
            Fault::IndexOutOfRange { index: component as i64, length: words.len() as u32 },
        );
    }
    let held: [u32; 1] = [words[index]];
    assert(held@ =~= seq![value@.words[component as int]]);
    Computed::Done(Val::new(Type::Scalar(value.scalar_type()), held.as_slice()))
}

/// What reading an element of an array comes to: a computed index outside the array is refused.
pub open spec fn index_result(array: Datum, index: Datum) -> Outcome {
    let at = signed(index.word(0));
    match array.kind {
        Type::Array(element, length) => {
            let stride = element.size();
            if at < 0 || at >= length || at * stride + stride > array.words.len() {
                Outcome::Fault(Fault::IndexOutOfRange { index: at as i64, length })
            } else {
                Outcome::Done(
                    Datum { kind: *element, words: array.words.subrange(at * stride, at * stride + stride) },
                )
            }
        },
        _ => Outcome::Fault(Fault::TypeMismatch),
    }
}

/// Read one element of an array.
pub fn element(array: &Val, index: &Val) -> (computed: Computed)
    ensures
        computed@ == index_result(array@, index@),
{
    let at: i32 = index.i32_at(0);
    match &array.kind {
        Type::Array(element, length) => {
            let refused = Fault::IndexOutOfRange { index: at as i64, length: *length };
            let size = Val::measure(element);
            let ghost stride = element.size();
            if at < 0 || at as i64 >= *length as i64 {
                return Computed::Fault(refused);
            }
            let words = array.words();
            let total: usize = words.len();
            proof {
                let n = at as int;
                assert(n * stride >= 0) by (nonlinear_arith)
                    requires
                        n >= 0,
                        stride >= 0,
                ;
            }
            match size {
                None => Computed::Fault(refused),
                Some(each) => {
                    proof {
                        let (n, m) = (at as int, each as int);
                        assert(0 <= n * m <= 0x7fff_ffff * 0xffff_ffff_ffff_ffff) by (nonlinear_arith)
                            requires
                                0 <= n <= 0x7fff_ffff,
                                0 <= m <= 0xffff_ffff_ffff_ffff,
                        ;
                    }
                    let start: u128 = at as u128 * each as u128;
                    if start + each as u128 > total as u128 {
                        return Computed::Fault(refused);
                    }
                    let held = vstd::slice::slice_subrange(words, start as usize, start as usize + each);
                    Computed::Done(Val::new(element.copy(), held))
                },
            }
        },
        _ => Computed::Fault(Fault::TypeMismatch),
    }
}

// ---------------------------------------------------------------------------------------------
// Laws of the operations.
// ---------------------------------------------------------------------------------------------
/// Whether a comparison relates two numbers.
pub open spec fn compares(kind: CompareKind, left: int, right: int) -> bool {
    match kind {
        CompareKind::Equal => left == right,
        CompareKind::NotEqual => left != right,
        CompareKind::Less => left < right,
        CompareKind::LessOrEqual => left <= right,
        CompareKind::Greater => left > right,
        CompareKind::GreaterOrEqual => left >= right,
    }
}

/// The whole number a word stands for in two's complement: the upper half of the words stands below nothing.
pub open spec fn twos_complement(word: u32) -> int {
    if word < 0x8000_0000 {
        word as int
    } else {
        word - 0x1_0000_0000
    }
}

/// A comparison of values is the comparison of the numbers their first words stand for: binary32 numbers, signed
/// integers or plain ones, by the type of the left one.
pub proof fn a_comparison_is_by_number(kind: CompareKind, left: Datum, right: Datum)
    requires
        left.words.len() > 0,
        right.words.len() > 0,
    ensures
        ({
            let (a, b) = (left.words[0], right.words[0]);
            &&& left.kind.scalar() is F32 && !bits::nan(a) && !bits::nan(b) ==> comparison(kind, left, right)
                == compares(kind, bits::number(a), bits::number(b))
            &&& left.kind.scalar() is I32 ==> comparison(kind, left, right) == compares(
                kind,
                twos_complement(a),
                twos_complement(b),
            )
            &&& left.kind.scalar() is U32 || left.kind.scalar() is Bool ==> comparison(kind, left, right)
                == compares(kind, a as int, b as int)
        }),
{
    let (a, b) = (left.words[0], right.words[0]);
    if !bits::nan(a) && !bits::nan(b) {
        bits::order_is_by_number(a, b);
        bits::order_is_by_number(b, a);
    }
}

/// Whether two whole numbers are the same word.
pub open spec fn wraps_to(word: u32, value: int) -> bool {
    exists|turns: int| value == #[trigger] (turns * 0x1_0000_0000) + word
}

proof fn a_remainder_wraps(value: int)
    ensures
        wraps_to(unsigned(value), value),
{
    vstd::arithmetic::div_mod::lemma_fundamental_div_mod(value, 0x1_0000_0000);
    let turns = value / 0x1_0000_0000;
    assert(value == turns * 0x1_0000_0000 + unsigned(value));
}

/// Sums, differences and products of words are those of the numbers, whole turns of thirty-two bits left out. Signed
/// and plain words are added, subtracted and multiplied alike.
pub proof fn integers_wrap(scalar: ScalarType, left: u32, right: u32)
    requires
        !(scalar is F32),
    ensures
        wraps_to(binary_word(BinaryOp::Add, scalar, left, right), left + right),
        wraps_to(binary_word(BinaryOp::Subtract, scalar, left, right), left - right),
        wraps_to(binary_word(BinaryOp::Multiply, scalar, left, right), left * right),
{
    a_remainder_wraps(left + right);
    a_remainder_wraps(left - right);
    a_remainder_wraps(left * right);
}

/// A plain quotient times the divisor is the dividend, less a remainder short of the divisor, and the remainder is what
/// the remainder operation gives; by nothing both are nothing.
pub proof fn plain_division_has_its_remainder(scalar: ScalarType, left: u32, right: u32)
    requires
        scalar is U32 || scalar is Bool,
    ensures
        ({
            let quotient = binary_word(BinaryOp::Divide, scalar, left, right);
            let rest = binary_word(BinaryOp::Modulo, scalar, left, right);
            if right == 0 {
                quotient == 0 && rest == 0
            } else {
                left == quotient * right + rest && rest < right
            }
        }),
{
    if right != 0 {
        vstd::arithmetic::div_mod::lemma_fundamental_div_mod(left as int, right as int);
        assert(right * (left as int / right as int) == (left as int / right as int) * right) by (nonlinear_arith);
    }
}

/// A signed quotient is rounded towards nothing: what is left over has the sign of the dividend and is short of the
/// divisor. The one quotient that is too large for its word wraps.
pub proof fn signed_division_rounds_towards_nothing(left: u32, right: u32)
    requires
        right != 0,
        !(left == 0x8000_0000 && right == 0xffff_ffff),
    ensures
        ({
            let (a, b) = (twos_complement(left), twos_complement(right));
            let q = twos_complement(binary_word(BinaryOp::Divide, ScalarType::I32, left, right));
            let rest = a - q * b;
            &&& distance(rest) < distance(b)
            &&& a >= 0 ==> rest >= 0
            &&& a <= 0 ==> rest <= 0
        }),
{
    let (a, b) = (signed(left), signed(right));
    let (x, y) = (distance(a), distance(b));
    vstd::arithmetic::div_mod::lemma_fundamental_div_mod(x, y);
    let (d, r) = (x / y, x % y);
    assert(0 <= d <= x) by (nonlinear_arith)
        requires
            x == y * d + r,
            0 <= r < y,
            x >= 0,
    ;
    assert(d == 0x8000_0000 ==> y == 1) by (nonlinear_arith)
        requires
            x == y * d + r,
            0 <= r < y,
            0 <= x <= 0x8000_0000,
    ;
    let t = truncated(a, b);
    let q = twos_complement(binary_word(BinaryOp::Divide, ScalarType::I32, left, right));
    assert(-0x8000_0000 <= t < 0x8000_0000);
    assert(q == t);
    assert(a - t * b == (if a < 0 {
        -r
    } else {
        r
    })) by (nonlinear_arith)
        requires
            x == y * d + r,
            x == (if a < 0 {
                -a
            } else {
                a
            }),
            y == (if b < 0 {
                -b
            } else {
                b
            }),
            t == (if (a < 0) == (b < 0) {
                d
            } else {
                -d
            }),
    ;
}

/// A signed remainder is a whole number of divisors away from the dividend, is not below nothing and is short of the
/// divisor.
pub proof fn a_signed_remainder_is_congruent(left: u32, right: u32)
    requires
        right != 0,
    ensures
        ({
            let (a, b) = (twos_complement(left), twos_complement(right));
            let rest = twos_complement(binary_word(BinaryOp::Modulo, ScalarType::I32, left, right));
            &&& 0 <= rest < distance(b)
            &&& exists|turns: int| a - rest == #[trigger] (turns * b)
        }),
{
    let (a, b) = (signed(left), signed(right));
    let part = distance(a) % distance(b);
    let rest = if a >= 0 || part == 0 {
        part
    } else {
        distance(b) - part
    };
    remainder_is_euclidean(a, b, distance(a), distance(b), part, rest);
    assert(unsigned(rest) == rest);
    let under = distance(b);
    vstd::arithmetic::div_mod::lemma_fundamental_div_mod(a, under);
    assert(a % under == rest) by {
        if b < 0 {
            assert(a % b == a % under) by (nonlinear_arith)
                requires
                    b == -under,
                    under > 0,
            ;
        }
    }
    let k = a / under;
    let turns = if b < 0 {
        -k
    } else {
        k
    };
    assert(a - rest == turns * b) by (nonlinear_arith)
        requires
            a == under * k + rest,
            turns == (if b < 0 {
                -k
            } else {
                k
            }),
            b == (if b < 0 {
                -under
            } else {
                under
            }),
    ;
    assert(twos_complement(left) == a && twos_complement(right) == b);
    assert(binary_word(BinaryOp::Modulo, ScalarType::I32, left, right) == rest);
    assert(twos_complement(left) - twos_complement(rest as u32) == turns * twos_complement(right));
}

/// Bitwise operations are by bit: a bit of the result is the and, the or or the exclusive or of the operands' bits, and
/// of a complement the other one.
pub proof fn bitwise_operations_are_by_bit(scalar: ScalarType, left: u32, right: u32, index: u32)
    requires
        !(scalar is F32),
        index < 32,
    ensures
        ({
            let (l, r) = ((left >> index) % 2 == 1, (right >> index) % 2 == 1);
            let bit = |word: u32| (word >> index) % 2 == 1;
            &&& bit(binary_word(BinaryOp::And, scalar, left, right)) == (l && r)
            &&& bit(binary_word(BinaryOp::Or, scalar, left, right)) == (l || r)
            &&& bit(binary_word(BinaryOp::Xor, scalar, left, right)) == (l != r)
            &&& bit(unary_word(UnaryOp::Complement, scalar, left)) == !l
        }),
{
    let (l, r) = (left, right);
    assert(((l & r) >> index) % 2 == 1 <==> (l >> index) % 2 == 1 && (r >> index) % 2 == 1) by (bit_vector)
        requires
            index < 32,
    ;
    assert(((l | r) >> index) % 2 == 1 <==> (l >> index) % 2 == 1 || (r >> index) % 2 == 1) by (bit_vector)
        requires
            index < 32,
    ;
    assert(((l ^ r) >> index) % 2 == 1 <==> !((l >> index) % 2 == 1 <==> (r >> index) % 2 == 1)) by (bit_vector)
        requires
            index < 32,
    ;
    let other = (0xffff_ffff - l) as u32;
    assert((0xffff_ffffu32 - l) as u32 == !l) by (bit_vector);
    assert(((!l) >> index) % 2 == 1 <==> !((l >> index) % 2 == 1)) by (bit_vector)
        requires
            index < 32,
    ;
}

/// Shifting left multiplies by a power of two and wraps; shifting right divides by one and rounds down, a signed word as
/// the number it stands for. Whole turns of thirty-two places are no shift.
pub proof fn shifts_are_by_powers_of_two(left: u32, right: u32)
    ensures
        ({
            let power = vstd::arithmetic::power2::pow2((right % 32) as nat) as int;
            let plain = binary_word(BinaryOp::ShiftRight, ScalarType::U32, left, right);
            &&& wraps_to(binary_word(BinaryOp::ShiftLeft, ScalarType::U32, left, right), left * power)
            &&& wraps_to(binary_word(BinaryOp::ShiftLeft, ScalarType::I32, left, right), left * power)
            &&& plain * power <= left < (plain + 1) * power
            &&& left < 0x8000_0000 ==> binary_word(BinaryOp::ShiftRight, ScalarType::I32, left, right) == plain
            &&& left >= 0x8000_0000 ==> binary_word(BinaryOp::ShiftRight, ScalarType::I32, left, right)
                == 0xffff_ffff - binary_word(
                BinaryOp::ShiftRight,
                ScalarType::U32,
                (0xffff_ffff - left) as u32,
                right,
            )
        }),
{
    let places = right % 32;
    let power = vstd::arithmetic::power2::pow2(places as nat) as int;
    vstd::arithmetic::power2::lemma_pow2_pos(places as nat);
    a_shift_wraps(left, places);
    vstd::bits::lemma_u32_shr_is_div(left, places);
    vstd::arithmetic::div_mod::lemma_fundamental_div_mod(left as int, power);
    let q = left as int / power;
    assert(q * power <= left < (q + 1) * power) by (nonlinear_arith)
        requires
            left == power * q + left as int % power,
            0 <= left as int % power < power,
    ;
    a_remainder_wraps(left * power);
    assert(left < 0x8000_0000 ==> ((left as i32) >> places) as u32 == left >> places) by (bit_vector)
        requires
            places < 32,
    ;
    assert(left >= 0x8000_0000 ==> ((left as i32) >> places) as u32 == 0xffff_ffffu32 - (((0xffff_ffffu32 - left) as u32)
        >> places)) by (bit_vector)
        requires
            places < 32,
    ;
}

proof fn a_shift_wraps(left: u32, places: u32)
    requires
        places < 32,
    ensures
        left << places == unsigned(left * vstd::arithmetic::power2::pow2(places as nat)),
{
    let wide = left as u64;
    let power = vstd::arithmetic::power2::pow2(places as nat) as int;
    vstd::arithmetic::power2::lemma2_to64();
    vstd::arithmetic::power2::lemma2_to64_rest();
    if places < 31 {
        vstd::arithmetic::power2::lemma_pow2_strictly_increases(places as nat, 31);
    }
    assert(0 <= left * power <= 0xffff_ffff * 0x8000_0000) by (nonlinear_arith)
        requires
            0 <= left <= 0xffff_ffff,
            0 <= power <= 0x8000_0000,
    ;
    vstd::bits::lemma_u64_shl_is_mul(wide, places as u64);
    let shifted = wide << (places as u64);
    assert((left << places) as u64 == shifted % 0x1_0000_0000) by (bit_vector)
        requires
            places < 32,
            wide == left as u64,
            shifted == wide << (places as u64),
    ;
}

/// The smaller of two integers is one of them and no more than either, and the larger no less, as the numbers the words
/// stand for.
pub proof fn integer_extremes_are_by_number(left: u32, right: u32)
    ensures
        ({
            let least = binary_word(BinaryOp::Min, ScalarType::I32, left, right);
            let most = binary_word(BinaryOp::Max, ScalarType::I32, left, right);
            &&& (least == left || least == right) && (most == left || most == right)
            &&& twos_complement(least) <= twos_complement(left) && twos_complement(least) <= twos_complement(right)
            &&& twos_complement(most) >= twos_complement(left) && twos_complement(most) >= twos_complement(right)
        }),
        ({
            let least = binary_word(BinaryOp::Min, ScalarType::U32, left, right);
            let most = binary_word(BinaryOp::Max, ScalarType::U32, left, right);
            &&& (least == left || least == right) && (most == left || most == right)
            &&& least <= left && least <= right && most >= left && most >= right
        }),
{
}

/// A negation is the opposite number: of a binary32 value exactly, of a word whole turns left out. An absolute value is
/// the number's distance from nothing, and a negated truth is the other one.
pub proof fn unary_operations_are_by_number(word: u32)
    ensures
        bits::number(unary_word(UnaryOp::Negate, ScalarType::F32, word)) == -bits::number(word),
        wraps_to(unary_word(UnaryOp::Negate, ScalarType::I32, word), -word),
        wraps_to(unary_word(UnaryOp::Negate, ScalarType::U32, word), -word),
        bits::number(unary_word(UnaryOp::Abs, ScalarType::F32, word)) == distance(bits::number(word)),
        word != 0x8000_0000 ==> twos_complement(unary_word(UnaryOp::Abs, ScalarType::I32, word)) == distance(
            twos_complement(word),
        ),
        unary_word(UnaryOp::Abs, ScalarType::U32, word) == word,
        forall|scalar: ScalarType|
            #[trigger] unary_word(UnaryOp::Not, scalar, word) == if word == 0 {
                1u32
            } else {
                0u32
            },
{
    bits::signs_are_by_number(word);
    a_remainder_wraps(-word);
    assert(sign_turned(word) == bits::opposite(word));
}

/// A conversion keeps what a value stands for as far as its new type can: a truth is one or nothing, a number is true
/// unless it is nothing, and a word that is reread as signed or plain stays the word it is.
pub proof fn conversions_keep_what_they_can(word: u32)
    ensures
        !bits::nan(word) ==> unary_word(UnaryOp::Convert(ScalarType::Bool), ScalarType::F32, word) == if bits::number(
            word,
        ) == 0 {
            0u32
        } else {
            1u32
        },
        unary_word(UnaryOp::Convert(ScalarType::Bool), ScalarType::I32, word) == if word == 0 {
            0u32
        } else {
            1u32
        },
        unary_word(UnaryOp::Convert(ScalarType::Bool), ScalarType::U32, word) == if word == 0 {
            0u32
        } else {
            1u32
        },
        unary_word(UnaryOp::Convert(ScalarType::F32), ScalarType::Bool, word) == if word == 0 {
            0u32
        } else {
            0x3F80_0000u32
        },
        unary_word(UnaryOp::Convert(ScalarType::I32), ScalarType::Bool, word) == if word == 0 {
            0u32
        } else {
            1u32
        },
        unary_word(UnaryOp::Convert(ScalarType::U32), ScalarType::Bool, word) == if word == 0 {
            0u32
        } else {
            1u32
        },
        unary_word(UnaryOp::Convert(ScalarType::I32), ScalarType::U32, word) == word,
        unary_word(UnaryOp::Convert(ScalarType::U32), ScalarType::I32, word) == word,
        unary_word(UnaryOp::Convert(ScalarType::F32), ScalarType::F32, word) == word,
        unary_float(UnaryOp::Convert(ScalarType::I32), ScalarType::F32) == Some(FloatOp::ToI32),
        unary_float(UnaryOp::Convert(ScalarType::U32), ScalarType::F32) == Some(FloatOp::ToU32),
        unary_float(UnaryOp::Convert(ScalarType::F32), ScalarType::I32) == Some(FloatOp::FromI32),
        unary_float(UnaryOp::Convert(ScalarType::F32), ScalarType::U32) == Some(FloatOp::FromU32),
{
    if !bits::nan(word) {
        bits::order_is_by_number(word, 0);
        assert(bits::number(0) == 0);
    }
}

/// The word an operand gives to a component: its own, or the only one it has.
pub open spec fn component(value: Datum, lane: int) -> u32 {
    if value.words.len() == 1 {
        value.words[0]
    } else {
        value.words[lane]
    }
}

/// Arithmetic on floating-point operands is asked for by its own name, component by component, the left operand first;
/// the answer has as many components as the longer operand, whose type it has.
pub proof fn float_arithmetic_is_by_component(op: BinaryOp, left: Datum, right: Datum, lane: int)
    requires
        left.kind.scalar() is F32,
        right.kind.scalar() is F32,
        1 <= left.words.len() <= 16,
        1 <= right.words.len() <= 16,
        left.words.len() == right.words.len() || left.words.len() == 1 || right.words.len() == 1,
        op is Add || op is Subtract || op is Multiply || op is Divide || op is Modulo || op is Min || op is Max,
        0 <= lane < left.words.len() || 0 <= lane < right.words.len(),
    ensures
        match binary_result(op, left, right) {
            Outcome::Job(work, kind) => {
                &&& work.op == (match op {
                    BinaryOp::Add => FloatOp::Add,
                    BinaryOp::Subtract => FloatOp::Subtract,
                    BinaryOp::Multiply => FloatOp::Multiply,
                    BinaryOp::Divide => FloatOp::Divide,
                    BinaryOp::Modulo => FloatOp::Modulo,
                    BinaryOp::Min => FloatOp::Min,
                    _ => FloatOp::Max,
                })
                &&& work.lanes[lane].0 == component(left, lane)
                &&& work.lanes[lane].1 == component(right, lane)
                &&& work.width == work.lanes.len()
                &&& left.words.len() >= right.words.len() ==> work.lanes.len() == left.words.len() && kind
                    == left.kind
                &&& left.words.len() < right.words.len() ==> work.lanes.len() == right.words.len() && kind
                    == right.kind
            },
            _ => false,
        },
{
}

/// Arithmetic on integers is by component, the left operand first.
pub proof fn integer_arithmetic_is_by_component(op: BinaryOp, left: Datum, right: Datum, lane: int)
    requires
        !(left.kind.scalar() is F32),
        right.kind.scalar() == left.kind.scalar(),
        1 <= left.words.len() <= 16,
        1 <= right.words.len() <= 16,
        left.words.len() == right.words.len() || left.words.len() == 1 || right.words.len() == 1,
        !(op is Dot || op is Cross || op is MatrixProduct),
        0 <= lane < left.words.len() || 0 <= lane < right.words.len(),
    ensures
        match binary_result(op, left, right) {
            Outcome::Done(value) => {
                &&& value.words[lane] == binary_word(
                    op,
                    left.kind.scalar(),
                    component(left, lane),
                    component(right, lane),
                )
                &&& left.words.len() >= right.words.len() ==> value.words.len() == left.words.len() && value.kind
                    == left.kind
                &&& left.words.len() < right.words.len() ==> value.words.len() == right.words.len() && value.kind
                    == right.kind
            },
            _ => false,
        },
{
}

/// A unary operation is by component and keeps the number of components.
pub proof fn unary_operations_are_by_component(op: UnaryOp, value: Datum, lane: int)
    requires
        0 <= lane < value.words.len() <= 16,
        !(op is Length || op is Normalize),
    ensures
        match unary_result(op, value) {
            Outcome::Done(result) => {
                &&& result.words.len() == value.words.len()
                &&& result.words[lane] == unary_word(op, value.kind.scalar(), value.words[lane])
            },
            Outcome::Job(work, _) => {
                &&& work.width == value.words.len() && work.lanes.len() == value.words.len()
                &&& work.lanes[lane].0 == value.words[lane]
                &&& op is Floor ==> work.op is Floor
                &&& op is Ceil ==> work.op is Ceil
                &&& op is Fract ==> work.op is Fract
            },
            _ => false,
        },
        op is Floor || op is Ceil || op is Fract ==> unary_result(op, value) is Job,
        op is Negate || op is Not || op is Complement || op is Abs ==> unary_result(op, value) is Done,
{
}

/// A length is measured over every component of its own vector, and a vector is normalised by dividing every component
/// by that length; one of no length, or of one that is no number, stays as it is.
pub proof fn a_vector_is_divided_by_its_length(value: Datum, length: u32, lane: int)
    requires
        0 <= lane < value.words.len() <= 16,
    ensures
        unary_result(UnaryOp::Length, value) matches Outcome::Job(work, kind) && work.op is Length && work.width == 1
            && work.lanes.len() == value.words.len() && work.lanes[lane].0 == value.words[lane] && kind
            == Type::Scalar(ScalarType::F32),
        unary_result(UnaryOp::Normalize, value) matches Outcome::Measure(work) && work.op is Length && work.width == 1
            && work.lanes.len() == value.words.len() && work.lanes[lane].0 == value.words[lane],
        bits::finite(length) && bits::number(length) != 0 ==> (normalized(value, length) matches Outcome::Job(
            work,
            kind,
        ) && work.op is Divide && work.lanes.len() == value.words.len() && work.lanes[lane].0 == value.words[lane]
            && work.lanes[lane].1 == length && kind == value.kind),
        !bits::finite(length) || bits::number(length) == 0 ==> normalized(value, length) == Outcome::Done(value),
{
    if bits::finite(length) {
        bits::order_is_by_number(length, 0);
        assert(bits::number(0) == 0);
    }
}

/// A dot product is the sum over the components both vectors have of the products, and a cross product takes the three
/// components of each side, the left one first.
pub proof fn vector_products_pair_their_components(left: Datum, right: Datum, lane: int)
    requires
        0 <= lane < left.words.len(),
        left.words.len() == right.words.len(),
    ensures
        binary_result(BinaryOp::Dot, left, right) matches Outcome::Job(work, kind) && work.op is SumOfProducts
            && work.width == 1 && work.lanes.len() == left.words.len() && work.lanes[lane].0 == left.words[lane]
            && work.lanes[lane].1 == right.words[lane] && kind == Type::Scalar(ScalarType::F32),
        left.words.len() == 3 ==> (binary_result(BinaryOp::Cross, left, right) matches Outcome::Job(work, kind)
            && work.op is Cross && work.width == 3 && work.lanes.len() == 3 && work.lanes[lane].0 == left.words[lane]
            && work.lanes[lane].1 == right.words[lane] && kind == Type::Vector(ScalarType::F32, 3)),
        left.words.len() != 3 ==> binary_result(BinaryOp::Cross, left, right) == Outcome::Fault(Fault::TypeMismatch),
{
}

/// A matrix times a vector is, row by row, the sum over the columns of the matrix's entry times the vector's component;
/// a matrix is stored column by column.
pub proof fn a_matrix_acts_on_a_vector(left: Datum, right: Datum, side: u8, row: int, column: int)
    requires
        left.kind == Type::Matrix(side),
        right.kind == Type::Vector(ScalarType::F32, side),
        0 <= row < side <= 4,
        0 <= column < side,
        left.words.len() == side * side,
        right.words.len() == side,
    ensures
        binary_result(BinaryOp::MatrixProduct, left, right) matches Outcome::Job(work, kind) && work.op is SumOfProducts
            && work.width == side && work.lanes.len() == side * side && work.lanes[row * side + column].0
            == left.words[column * side + row] && work.lanes[row * side + column].1 == right.words[column] && kind
            == Type::Vector(ScalarType::F32, side),
{
    let (s, t) = (side as int, row * side + column);
    crate::grid::cell_is_stored(column, row, s, s);
    crate::grid::cell_is_stored(row, column, s, s);
    vstd::arithmetic::div_mod::lemma_fundamental_div_mod_converse(t, s, row, column);
    assert(fitting(side as nat) == side);
    assert(side as nat * side as nat == side * side) by (nonlinear_arith);
}

/// A matrix times a matrix is, entry by entry, the sum over a row of the left one and a column of the right one; all
/// three are stored column by column.
pub proof fn a_matrix_acts_on_a_matrix(left: Datum, right: Datum, side: u8, row: int, column: int, term: int)
    requires
        left.kind == Type::Matrix(side),
        right.kind == Type::Matrix(side),
        0 <= row < side <= 4,
        0 <= column < side,
        0 <= term < side,
        left.words.len() == side * side,
        right.words.len() == side * side,
    ensures
        binary_result(BinaryOp::MatrixProduct, left, right) matches Outcome::Job(work, kind) && work.op is SumOfProducts
            && work.width == side * side && work.lanes[(column * side + row) * side + term].0
            == left.words[term * side + row] && work.lanes[(column * side + row) * side + term].1
            == right.words[column * side + term] && kind == Type::Matrix(side),
{
    let s = side as int;
    let entry = column * s + row;
    let t = entry * s + term;
    crate::grid::cell_is_stored(row, column, s, s);
    crate::grid::cell_is_stored(term, entry, s, s * s);
    crate::grid::cell_is_stored(row, term, s, s);
    crate::grid::cell_is_stored(term, column, s, s);
    vstd::arithmetic::div_mod::lemma_fundamental_div_mod_converse(t, s, entry, term);
    vstd::arithmetic::div_mod::lemma_fundamental_div_mod_converse(entry, s, column, row);
    assert((side * side) as nat * side as nat == s * (s * s)) by (nonlinear_arith)
        requires
            s == side,
    ;
}

/// A selection takes the value its condition picks, by component where the condition has components.
pub proof fn a_selection_follows_its_condition(condition: Datum, on_true: Datum, on_false: Datum, lane: int)
    requires
        on_true.words.len() == on_false.words.len() <= 16,
        0 <= lane < on_true.words.len(),
        condition.words.len() == 1 || condition.words.len() == on_true.words.len(),
    ensures
        select_result(condition, on_true, on_false) matches Outcome::Done(value) && value.words.len()
            == on_true.words.len() && value.words[lane] == if component(condition, lane) != 0 {
            on_true.words[lane]
        } else {
            on_false.words[lane]
        },
{
}

/// A clamp takes the value, then the lower bound, then the upper one; a mix the start, then the end, then how far
/// between them; a transcendental its argument, then its second.
pub proof fn operands_keep_their_places(
    first: Datum,
    second: Datum,
    third: Datum,
    which: Transcendental,
    lane: int,
)
    requires
        0 <= lane < first.words.len() <= 16,
        second.words.len() == first.words.len(),
        third.words.len() == first.words.len() || third.words.len() == 1,
    ensures
        clamp_result(first, second, third) matches Outcome::Job(work, kind) && work.op is Clamp && work.lanes.len()
            == first.words.len() && work.lanes[lane] == (first.words[lane], second.words[lane], component(
            third,
            lane,
        )) && kind == first.kind,
        mix_result(first, second, third) matches Outcome::Job(work, kind) && work.op is Mix && work.lanes.len()
            == first.words.len() && work.lanes[lane] == (first.words[lane], second.words[lane], component(
            third,
            lane,
        )) && kind == first.kind,
        transcendental_result(which, first, Some(third)) matches Outcome::Job(work, kind) && work.op
            == FloatOp::Transcendental(which) && work.lanes.len() == first.words.len() && work.lanes[lane].0
            == first.words[lane] && work.lanes[lane].1 == component(third, lane) && kind == first.kind,
        transcendental_result(which, first, None) matches Outcome::Job(work, kind) && work.op
            == FloatOp::Transcendental(which) && work.lanes.len() == first.words.len() && work.lanes[lane].0
            == first.words[lane] && kind == first.kind,
{
}

/// Extracting a component gives that word and no other, and one past the last is refused.
pub proof fn an_extracted_component_is_its_word(value: Datum, which: u32)
    ensures
        which < value.words.len() ==> (extract_result(value, which) matches Outcome::Done(part) && part.words.len() == 1
            && part.words[0] == value.words[which as int] && part.kind == Type::Scalar(value.kind.scalar())),
        which >= value.words.len() ==> extract_result(value, which) is Fault,
{
}

/// Indexing an array gives the words of that element, in order; an index below nothing or past the last is refused.
pub proof fn an_element_is_its_words(element: Type, array: Datum, index: Datum, word: int)
    requires
        array.kind matches Type::Array(of, _) && *of == element,
        index.words.len() > 0,
        0 <= word < element.size(),
        array.words.len() == element.size() * array.kind->Array_1,
    ensures
        ({
            let at = twos_complement(index.words[0]);
            if 0 <= at < array.kind->Array_1 {
                index_result(array, index) matches Outcome::Done(part) && part.kind == element && part.words.len()
                    == element.size() && part.words[word] == array.words[at * element.size() + word]
            } else {
                index_result(array, index) is Fault
            }
        }),
{
    let at = twos_complement(index.words[0]);
    let (size, length) = (element.size(), array.kind->Array_1 as int);
    if 0 <= at < length {
        assert(0 <= at * size && at * size + size <= size * length) by (nonlinear_arith)
            requires
                0 <= at < length,
                size >= 0,
        ;
    }
}

} // verus!
