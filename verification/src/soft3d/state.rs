//! The fixed-function state of a draw: comparisons, stencil operations, and what a pass does with an
//! attachment at each end.
use crate::bits::{below, equal, less, nan, number, order_is_by_number, same};
use vstd::prelude::*;

verus! {

/// How an incoming value is held against a stored one.
#[derive(Clone, Copy, PartialEq, Eq, Structural, Debug)]
pub enum CompareOp {
    Never,
    Less,
    Equal,
    LessOrEqual,
    Greater,
    NotEqual,
    GreaterOrEqual,
    Always,
}

impl CompareOp {
    /// Whether the comparison holds of a pair that is in order, equal, or in reverse order. A pair
    /// that is none of these is unordered.
    pub open spec fn holds(self, before: bool, equal: bool, after: bool) -> bool {
        match self {
            CompareOp::Never => false,
            CompareOp::Less => before,
            CompareOp::Equal => equal,
            CompareOp::LessOrEqual => before || equal,
            CompareOp::Greater => after,
            CompareOp::NotEqual => !equal,
            CompareOp::GreaterOrEqual => after || equal,
            CompareOp::Always => true,
        }
    }

    /// Whether the comparison holds of two binary32 values.
    pub open spec fn passes(self, incoming: u32, stored: u32) -> bool {
        self.holds(below(incoming, stored), same(incoming, stored), below(stored, incoming))
    }

    /// Whether the comparison holds of two integers.
    pub open spec fn passes_integer(self, incoming: int, stored: int) -> bool {
        self.holds(incoming < stored, incoming == stored, stored < incoming)
    }

    /// Whether a test with this comparison never stores a depth behind the one it replaces.
    pub open spec fn nears(self) -> bool {
        self is Never || self is Less || self is Equal || self is LessOrEqual
    }

    /// Whether a test with this comparison never stores a depth behind the one it replaces.
    pub fn only_nears(self) -> (answer: bool)
        ensures
            answer == self.nears(),
    {
        match self {
            CompareOp::Never | CompareOp::Less | CompareOp::Equal | CompareOp::LessOrEqual => true,
            _ => false,
        }
    }

    fn decide(self, before: bool, equal: bool, after: bool) -> (answer: bool)
        ensures
            answer == self.holds(before, equal, after),
    {
        match self {
            CompareOp::Never => false,
            CompareOp::Less => before,
            CompareOp::Equal => equal,
            CompareOp::LessOrEqual => before || equal,
            CompareOp::Greater => after,
            CompareOp::NotEqual => !equal,
            CompareOp::GreaterOrEqual => after || equal,
            CompareOp::Always => true,
        }
    }

    /// Whether the comparison holds of two binary32 values.
    pub fn test(self, incoming: u32, stored: u32) -> (answer: bool)
        ensures
            answer == self.passes(incoming, stored),
    {
        self.decide(less(incoming, stored), equal(incoming, stored), less(stored, incoming))
    }

    /// Whether the comparison holds of two integers.
    pub fn test_integer(self, incoming: u32, stored: u32) -> (answer: bool)
        ensures
            answer == self.passes_integer(incoming as int, stored as int),
    {
        self.decide(incoming < stored, incoming == stored, stored < incoming)
    }
}

/// What happens to a stencil value.
#[derive(Clone, Copy, PartialEq, Eq, Structural, Debug)]
pub enum StencilOp {
    Keep,
    Zero,
    Replace,
    IncrementClamp,
    DecrementClamp,
    Invert,
    IncrementWrap,
    DecrementWrap,
}

impl StencilOp {
    /// The value the operation makes of a stored one.
    pub open spec fn applied(self, stored: u8, reference: u8) -> u8 {
        match self {
            StencilOp::Keep => stored,
            StencilOp::Zero => 0,
            StencilOp::Replace => reference,
            StencilOp::IncrementClamp => if stored == 255 {
                255
            } else {
                (stored + 1) as u8
            },
            StencilOp::DecrementClamp => if stored == 0 {
                0
            } else {
                (stored - 1) as u8
            },
            StencilOp::Invert => (255 - stored) as u8,
            StencilOp::IncrementWrap => if stored == 255 {
                0
            } else {
                (stored + 1) as u8
            },
            StencilOp::DecrementWrap => if stored == 0 {
                255
            } else {
                (stored - 1) as u8
            },
        }
    }

    /// The value the operation makes of a stored one.
    pub fn apply(self, stored: u8, reference: u8) -> (value: u8)
        ensures
            value == self.applied(stored, reference),
    {
        match self {
            StencilOp::Keep => stored,
            StencilOp::Zero => 0,
            StencilOp::Replace => reference,
            StencilOp::IncrementClamp => if stored == 255 {
                255
            } else {
                stored + 1
            },
            StencilOp::DecrementClamp => if stored == 0 {
                0
            } else {
                stored - 1
            },
            StencilOp::Invert => 255 - stored,
            StencilOp::IncrementWrap => if stored == 255 {
                0
            } else {
                stored + 1
            },
            StencilOp::DecrementWrap => if stored == 0 {
                255
            } else {
                stored - 1
            },
        }
    }
}

/// One face's stencil state.
#[derive(Clone, Copy, PartialEq, Eq, Structural, Debug)]
pub struct StencilFace {
    pub compare: CompareOp,
    pub read_mask: u8,
    pub write_mask: u8,
    pub reference: u8,
    pub on_fail: StencilOp,
    pub on_depth_fail: StencilOp,
    pub on_pass: StencilOp,
}

/// One stored depth.
#[derive(Clone, Copy, PartialEq, Eq, Structural, Debug)]
pub enum Stored {
    /// A binary32 value, by its bits.
    Float(u32),
    /// A count of steps of a normalised integer format.
    Steps(u32),
}

/// Whether a depth comparison holds. Depths of two formats are unordered.
pub open spec fn depth_passes(compare: CompareOp, incoming: Stored, stored: Stored) -> bool {
    match (incoming, stored) {
        (Stored::Float(new), Stored::Float(old)) => compare.passes(new, old),
        (Stored::Steps(new), Stored::Steps(old)) => compare.passes_integer(new as int, old as int),
        _ => compare.holds(false, false, false),
    }
}

/// Whether a stencil comparison holds, under the read mask.
pub open spec fn stencil_passes(face: StencilFace, stored: u8) -> bool {
    face.compare.passes_integer((face.reference & face.read_mask) as int, (stored & face.read_mask) as int)
}

/// A stencil value after an operation, under the write mask.
pub open spec fn stencil_after(face: StencilFace, op: StencilOp, stored: u8) -> u8 {
    (stored & !face.write_mask) | (op.applied(stored, face.reference) & face.write_mask)
}

/// What the depth and stencil test of one sample comes to.
#[derive(Clone, Copy, PartialEq, Eq, Structural, Debug)]
pub struct Outcome {
    pub passed: bool,
    /// The depth to store, where one is.
    pub depth: Option<Stored>,
    /// The stencil value to store, where one is.
    pub stencil: Option<u8>,
}

/// The depth and stencil test of one sample: the stencil first, then the depth, each of the three
/// endings with its own stencil operation.
pub open spec fn tested(
    compare: CompareOp,
    write: bool,
    incoming: Stored,
    stored: Stored,
    stencil: Option<(StencilFace, u8)>,
) -> Outcome {
    let admitted = match stencil {
        Some((face, value)) => stencil_passes(face, value),
        None => true,
    };
    let nearer = depth_passes(compare, incoming, stored);
    Outcome {
        passed: admitted && nearer,
        depth: if admitted && nearer && write {
            Some(incoming)
        } else {
            None
        },
        stencil: match stencil {
            None => None,
            Some((face, value)) => Some(
                stencil_after(
                    face,
                    if !admitted {
                        face.on_fail
                    } else if !nearer {
                        face.on_depth_fail
                    } else {
                        face.on_pass
                    },
                    value,
                ),
            ),
        },
    }
}

/// The depth and stencil test of one sample.
pub fn depth_stencil_test(
    compare: CompareOp,
    write: bool,
    incoming: Stored,
    stored: Stored,
    stencil: Option<(StencilFace, u8)>,
) -> (outcome: Outcome)
    ensures
        outcome == tested(compare, write, incoming, stored, stencil),
{
    let admitted = match stencil {
        Some((face, value)) => face.compare.test_integer(
            (face.reference & face.read_mask) as u32,
            (value & face.read_mask) as u32,
        ),
        None => true,
    };
    let nearer = match (incoming, stored) {
        (Stored::Float(new), Stored::Float(old)) => compare.test(new, old),
        (Stored::Steps(new), Stored::Steps(old)) => compare.test_integer(new, old),
        _ => compare.decide(false, false, false),
    };
    let depth = if admitted && nearer && write {
        Some(incoming)
    } else {
        None
    };
    let stencil = match stencil {
        None => None,
        Some((face, value)) => {
            let op = if !admitted {
                face.on_fail
            } else if !nearer {
                face.on_depth_fail
            } else {
                face.on_pass
            };
            Some((value & !face.write_mask) | (op.apply(value, face.reference) & face.write_mask))
        },
    };
    Outcome { passed: admitted && nearer, depth, stencil }
}

/// What a pass does with an attachment at its start.
#[derive(Clone, Copy, PartialEq, Eq, Structural, Debug)]
pub enum LoadOp {
    Load,
    Clear,
    Discard,
}

/// What a pass does with an attachment at its end.
#[derive(Clone, Copy, PartialEq, Eq, Structural, Debug)]
pub enum StoreOp {
    Store,
    Discard,
}

/// Which channels a write reaches.
#[derive(Clone, Copy, PartialEq, Eq, Structural, Debug)]
pub struct WriteMask {
    pub red: bool,
    pub green: bool,
    pub blue: bool,
    pub alpha: bool,
}

/// Whether a comparison relates two numbers, the incoming one on the left.
pub open spec fn relates(compare: CompareOp, incoming: int, stored: int) -> bool {
    match compare {
        CompareOp::Never => false,
        CompareOp::Less => incoming < stored,
        CompareOp::Equal => incoming == stored,
        CompareOp::LessOrEqual => incoming <= stored,
        CompareOp::Greater => incoming > stored,
        CompareOp::NotEqual => incoming != stored,
        CompareOp::GreaterOrEqual => incoming >= stored,
        CompareOp::Always => true,
    }
}

/// A comparison of two values is the comparison of the numbers they stand for, and of two integers of the integers.
pub proof fn a_comparison_is_by_number(compare: CompareOp, incoming: u32, stored: u32)
    ensures
        !nan(incoming) && !nan(stored) ==> compare.passes(incoming, stored) == relates(
            compare,
            number(incoming),
            number(stored),
        ),
        compare.passes_integer(incoming as int, stored as int) == relates(compare, incoming as int, stored as int),
{
    if !nan(incoming) && !nan(stored) {
        order_is_by_number(incoming, stored);
        order_is_by_number(stored, incoming);
    }
}

/// What is left of a rejected depth: a test that fails stores no depth, whatever the state says.
pub proof fn a_failed_test_stores_no_depth(
    compare: CompareOp,
    write: bool,
    incoming: Stored,
    stored: Stored,
    stencil: Option<(StencilFace, u8)>,
)
    ensures
        !tested(compare, write, incoming, stored, stencil).passed ==> tested(
            compare,
            write,
            incoming,
            stored,
            stencil,
        ).depth is None,
{
}

/// A test that only lets nearer or equal depths through never moves a stored depth back.
pub proof fn a_nearing_test_moves_no_depth_back(
    compare: CompareOp,
    write: bool,
    incoming: Stored,
    stored: Stored,
    stencil: Option<(StencilFace, u8)>,
)
    requires
        compare.nears(),
    ensures
        match (tested(compare, write, incoming, stored, stencil).depth, stored) {
            (Some(Stored::Float(new)), Stored::Float(old)) => !below(old, new),
            (Some(Stored::Steps(new)), Stored::Steps(old)) => new <= old,
            (Some(_), _) => false,
            (None, _) => true,
        },
{
}

/// Under a mask, keeping a stencil value leaves it as it is.
pub proof fn keeping_keeps(face: StencilFace, stored: u8)
    ensures
        stencil_after(face, StencilOp::Keep, stored) == stored,
{
    let mask = face.write_mask;
    assert((stored & !mask) | (stored & mask) == stored) by (bit_vector);
}

/// A comparison and its complement never agree about two numbers.
pub proof fn complements_disagree_about_numbers(incoming: u32, stored: u32)
    requires
        !nan(incoming),
        !nan(stored),
    ensures
        CompareOp::Less.passes(incoming, stored) != CompareOp::GreaterOrEqual.passes(incoming, stored),
        CompareOp::Greater.passes(incoming, stored) != CompareOp::LessOrEqual.passes(incoming, stored),
        CompareOp::Equal.passes(incoming, stored) != CompareOp::NotEqual.passes(incoming, stored),
{
}

/// What becomes of a stencil value, as a number of eight bits: kept, none, the reference, one more or one less, stopping at
/// the ends or going round, or turned over bit by bit.
pub proof fn stencil_operations_are_by_number(stored: u8, reference: u8)
    ensures
        StencilOp::Keep.applied(stored, reference) == stored,
        StencilOp::Zero.applied(stored, reference) == 0,
        StencilOp::Replace.applied(stored, reference) == reference,
        stored < 255 ==> StencilOp::IncrementClamp.applied(stored, reference) == stored + 1,
        StencilOp::IncrementClamp.applied(255, reference) == 255,
        stored > 0 ==> StencilOp::DecrementClamp.applied(stored, reference) == stored - 1,
        StencilOp::DecrementClamp.applied(0, reference) == 0,
        StencilOp::IncrementWrap.applied(stored, reference) == (stored + 1) % 256,
        StencilOp::DecrementWrap.applied(stored, reference) == (stored + 255) % 256,
        StencilOp::Invert.applied(stored, reference) + stored == 255,
        StencilOp::DecrementWrap.applied(StencilOp::IncrementWrap.applied(stored, reference), reference) == stored,
        StencilOp::Invert.applied(StencilOp::Invert.applied(stored, reference), reference) == stored,
{
}

/// A stencil operation reaches the bits of its write mask and no other: a bit of the result is the operation's where the
/// mask has it, and the stored one where it has not.
pub proof fn a_stencil_write_is_by_bit(face: StencilFace, op: StencilOp, stored: u8, index: u8)
    requires
        index < 8,
    ensures
        ({
            let bit = |value: u8| (value >> index) % 2 == 1;
            bit(stencil_after(face, op, stored)) == if bit(face.write_mask) {
                bit(op.applied(stored, face.reference))
            } else {
                bit(stored)
            }
        }),
{
    let (mask, value) = (face.write_mask, op.applied(stored, face.reference));
    assert((((stored & !mask) | (value & mask)) >> index) % 2 == (if (mask >> index) % 2 == 1 {
        (value >> index) % 2
    } else {
        (stored >> index) % 2
    })) by (bit_vector)
        requires
            index < 8,
    ;
}

/// A stencil test holds the reference against the stored value, the reference on the left and both under the read mask.
pub proof fn a_stencil_test_is_by_number(face: StencilFace, stored: u8)
    ensures
        stencil_passes(face, stored) == relates(
            face.compare,
            (face.reference & face.read_mask) as int,
            (stored & face.read_mask) as int,
        ),
{
}

/// A sample passes where both its tests do; the stencil test comes first, so a sample it refuses has its own operation and
/// its depth is not asked; a depth is stored where the sample passed and the draw writes depth, and it is the incoming one.
pub proof fn a_sample_is_tested_in_order(
    compare: CompareOp,
    write: bool,
    incoming: Stored,
    stored: Stored,
    stencil: Option<(StencilFace, u8)>,
)
    requires
        match (incoming, stored) {
            (Stored::Float(new), Stored::Float(old)) => !nan(new) && !nan(old),
            (Stored::Steps(_), Stored::Steps(_)) => true,
            _ => false,
        },
    ensures
        ({
            let outcome = tested(compare, write, incoming, stored, stencil);
            let near = match (incoming, stored) {
                (Stored::Float(new), Stored::Float(old)) => relates(compare, number(new), number(old)),
                (Stored::Steps(new), Stored::Steps(old)) => relates(compare, new as int, old as int),
                _ => false,
            };
            &&& stencil is None ==> outcome.passed == near && outcome.stencil is None
            &&& stencil matches Some((face, value)) ==> {
                let first = relates(
                    face.compare,
                    (face.reference & face.read_mask) as int,
                    (value & face.read_mask) as int,
                );
                &&& outcome.passed == (first && near)
                &&& !first ==> outcome.stencil == Some(stencil_after(face, face.on_fail, value))
                &&& first && !near ==> outcome.stencil == Some(stencil_after(face, face.on_depth_fail, value))
                &&& first && near ==> outcome.stencil == Some(stencil_after(face, face.on_pass, value))
            }
            &&& outcome.depth == if outcome.passed && write {
                Some(incoming)
            } else {
                None
            }
        }),
{
    match (incoming, stored) {
        (Stored::Float(new), Stored::Float(old)) => a_comparison_is_by_number(compare, new, old),
        (Stored::Steps(new), Stored::Steps(old)) => a_comparison_is_by_number(compare, new, old),
        _ => {},
    }
}

} // verus!
