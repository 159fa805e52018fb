//! The runtime value of a shader: a type and a sequence of 32-bit words.
//!
//! The words are bit patterns and not numbers, so a negative zero stays one and a NaN keeps its payload.
use super::shader::{ScalarType, Type};
use crate::bits;
use vstd::prelude::*;

verus! {

/// The largest value that fits inline: a four by four matrix.
pub const INLINE_WORDS: usize = 16;

/// Where a value's words live.
#[derive(Debug)]
pub enum Words {
    Inline([u32; 16], u8),
    Heap(Vec<u32>),
}

impl View for Words {
    type V = Seq<u32>;

    open spec fn view(&self) -> Seq<u32> {
        match self {
            Words::Inline(words, len) => words@.take(
                if *len <= 16 {
                    *len as int
                } else {
                    16
                },
            ),
            Words::Heap(words) => words@,
        }
    }
}

impl Words {
    /// Hold the given words, inline when they fit.
    pub fn from_slice(words: &[u32]) -> (held: Words)
        ensures
            held@ == words@,
            held is Inline <==> words@.len() <= INLINE_WORDS,
    {
        if words.len() <= INLINE_WORDS {
            let mut inline: [u32; 16] = [0;16];
            let mut next: usize = 0;
            while next < words.len()
                invariant
                    next <= words@.len() <= 16,
                    inline@.len() == 16,
                    inline@.take(next as int) == words@.take(next as int),
                decreases words@.len() - next,
            {
                inline[next] = words[next];
                next = next + 1;
                assert(inline@.take(next as int) =~= words@.take(next as int));
            }
            assert(words@.take(words@.len() as int) =~= words@);
            return Words::Inline(inline, words.len() as u8);
        }
        let mut heap: Vec<u32> = Vec::new();
        let mut next: usize = 0;
        while next < words.len()
            invariant
                next <= words@.len(),
                heap@ == words@.take(next as int),
            decreases words@.len() - next,
        {
            heap.push(words[next]);
            next = next + 1;
            assert(heap@ =~= words@.take(next as int));
        }
        assert(words@.take(words@.len() as int) =~= words@);
        Words::Heap(heap)
    }

    /// The words, wherever they live.
    pub fn as_slice(&self) -> (words: &[u32])
        ensures
            words@ == self@,
    {
        match self {
            Words::Inline(words, len) => {
                let count: usize = if *len <= 16 {
                    *len as usize
                } else {
                    16
                };
                let held = vstd::slice::slice_subrange(words.as_slice(), 0, count);
                assert(held@ =~= words@.take(count as int));
                held
            },
            Words::Heap(words) => words.as_slice(),
        }
    }
}

/// A value as a type and its words.
#[verifier::ext_equal]
pub ghost struct Datum {
    pub kind: Type,
    pub words: Seq<u32>,
}

impl Datum {
    /// A word of the value; zero past its end.
    pub open spec fn word(self, index: int) -> u32 {
        if 0 <= index < self.words.len() {
            self.words[index]
        } else {
            0
        }
    }
}

/// A value the interpreter holds.
#[derive(Debug)]
pub struct Val {
    pub kind: Type,
    /// Column-major for a matrix, element after element for an array.
    pub store: Words,
}

impl View for Val {
    type V = Datum;

    open spec fn view(&self) -> Datum {
        Datum { kind: self.kind, words: self.store@ }
    }
}

/// The signed number a word holds in two's complement.
pub open spec fn signed(word: u32) -> int {
    if word >= 0x8000_0000 {
        word - 0x1_0000_0000
    } else {
        word as int
    }
}

/// The word that holds a number in two's complement.
pub open spec fn unsigned(value: int) -> u32 {
    (value % 0x1_0000_0000) as u32
}

/// The signed number a word holds in two's complement.
pub fn to_signed(word: u32) -> (value: i32)
    ensures
        value == signed(word),
{
    if word >= 0x8000_0000 {
        ((word - 0x8000_0000) as i64 - 0x8000_0000) as i32
    } else {
        word as i32
    }
}

/// The word that holds a number in two's complement.
pub fn to_word(value: i32) -> (word: u32)
    ensures
        word == unsigned(value as int),
        signed(word) == value,
{
    if value >= 0 {
        value as u32
    } else {
        (value as i64 + 0x1_0000_0000) as u32
    }
}

impl Val {
    /// Build from words, inline when they fit.
    pub fn new(kind: Type, words: &[u32]) -> (made: Val)
        ensures
            made@ == (Datum { kind, words: words@ }),
    {
        Val { kind, store: Words::from_slice(words) }
    }

    /// The words of the value.
    pub fn words(&self) -> (words: &[u32])
        ensures
            words@ == self@.words,
    {
        self.store.as_slice()
    }

    /// A copy of the value.
    pub fn duplicate(&self) -> (copy: Val)
        ensures
            copy@ == self@,
    {
        Val::new(self.kind.copy(), self.words())
    }

    /// A scalar of the given binary32 bit pattern.
    pub fn scalar_f32(bits: u32) -> (made: Val)
        ensures
            made@ == (Datum { kind: Type::Scalar(ScalarType::F32), words: seq![bits] }),
    {
        let words: [u32; 1] = [bits];
        assert(words@ =~= seq![bits]);
        Val::new(Type::Scalar(ScalarType::F32), words.as_slice())
    }

    pub fn scalar_i32(value: i32) -> (made: Val)
        ensures
            made@ == (Datum {
                kind: Type::Scalar(ScalarType::I32),
                words: seq![unsigned(value as int)],
            }),
    {
        let words: [u32; 1] = [to_word(value)];
        assert(words@ =~= seq![unsigned(value as int)]);
        Val::new(Type::Scalar(ScalarType::I32), words.as_slice())
    }

    pub fn scalar_u32(value: u32) -> (made: Val)
        ensures
            made@ == (Datum { kind: Type::Scalar(ScalarType::U32), words: seq![value] }),
    {
        let words: [u32; 1] = [value];
        assert(words@ =~= seq![value]);
        Val::new(Type::Scalar(ScalarType::U32), words.as_slice())
    }

    pub fn scalar_bool(value: bool) -> (made: Val)
        ensures
            made@ == (Datum {
                kind: Type::Scalar(ScalarType::Bool),
                words: seq![if value {
                    1u32
                } else {
                    0u32
                }],
            }),
    {
        let word: u32 = if value {
            1
        } else {
            0
        };
        let words: [u32; 1] = [word];
        assert(words@ =~= seq![word]);
        Val::new(Type::Scalar(ScalarType::Bool), words.as_slice())
    }

    /// A vector of the given bit patterns. Its type counts every component modulo 256; its words are the
    /// first sixteen.
    pub fn vector_f32(components: &[u32]) -> (made: Val)
        ensures
            made@ == (Datum {
                kind: Type::Vector(ScalarType::F32, components@.len() as u8),
                words: inlined(components@),
            }),
    {
        let count: usize = if components.len() <= INLINE_WORDS {
            components.len()
        } else {
            INLINE_WORDS
        };
        let held = vstd::slice::slice_subrange(components, 0, count);
        assert(held@ =~= inlined(components@));
        Val::new(Type::Vector(ScalarType::F32, components.len() as u8), held)
    }

    /// A square matrix from its columns, component by component and no more than fit inline.
    pub fn matrix(columns: &[[u32; 4]], size: u8) -> (made: Val)
        ensures
            made@ == (Datum { kind: Type::Matrix(size), words: matrix_words(columns@, size) }),
    {
        let rows: usize = if size < 4 {
            size as usize
        } else {
            4
        };
        let across: usize = if columns.len() < size as usize {
            columns.len()
        } else {
            size as usize
        };
        assert(0 <= across * rows <= 255 * 4) by (nonlinear_arith)
            requires
                0 <= across <= 255,
                0 <= rows <= 4,
        ;
        let count: usize = if across * rows < INLINE_WORDS {
            across * rows
        } else {
            INLINE_WORDS
        };
        let mut words: Vec<u32> = Vec::new();
        while words.len() < count
            invariant
                words@.len() <= count,
                count <= across * rows,
                across <= columns@.len(),
                rows <= 4,
                forall|i: int|
                    0 <= i < words@.len() ==> #[trigger] words@[i] == columns@[i / rows as int][i % rows as int],
            decreases count - words@.len(),
        {
            let next: usize = words.len();
            assert(rows > 0 && next / rows < across) by (nonlinear_arith)
                requires
                    0 <= next < across * rows,
                    0 <= rows,
                    0 <= across,
            ;
            words.push(columns[next / rows][next % rows]);
        }
        assert(words@ =~= matrix_words(columns@, size));
        Val::new(Type::Matrix(size), words.as_slice())
    }

    /// The scalar type of every word.
    pub fn scalar_type(&self) -> (scalar: ScalarType)
        ensures
            scalar == self@.kind.scalar(),
    {
        scalar_type_of(&self.kind)
    }

    pub fn len(&self) -> (count: usize)
        ensures
            count == self@.words.len(),
    {
        self.words().len()
    }

    pub fn is_empty(&self) -> (empty: bool)
        ensures
            empty == (self@.words.len() == 0),
    {
        self.words().len() == 0
    }

    /// The bit pattern of a component; positive zero past the end.
    pub fn f32_at(&self, index: usize) -> (bits: u32)
        ensures
            bits == self@.word(index as int),
    {
        self.u32_at(index)
    }

    pub fn i32_at(&self, index: usize) -> (value: i32)
        ensures
            value == signed(self@.word(index as int)),
    {
        to_signed(self.u32_at(index))
    }

    pub fn u32_at(&self, index: usize) -> (word: u32)
        ensures
            word == self@.word(index as int),
    {
        let words = self.words();
        if index < words.len() {
            words[index]
        } else {
            0
        }
    }

    pub fn bool_at(&self, index: usize) -> (truth: bool)
        ensures
            truth == (self@.word(index as int) != 0),
    {
        self.u32_at(index) != 0
    }

    /// How many words a type occupies, if that is a machine number.
    pub fn measure(kind: &Type) -> (count: Option<usize>)
        ensures
            kind.size() >= 0,
            count == if kind.size() <= usize::MAX {
                Some(kind.size() as usize)
            } else {
                None::<usize>
            },
        decreases kind,
    {
        match kind {
            Type::Scalar(_) => Some(1),
            Type::Vector(_, components) => Some(*components as usize),
            Type::Matrix(side) => {
                proof {
                    let n = *side as int;
                    assert(0 <= n * n <= 65025) by (nonlinear_arith)
                        requires
                            0 <= n <= 255,
                    ;
                }
                Some((*side as usize) * (*side as usize))
            },
            Type::Array(element, length) => {
                let each = Val::measure(element);
                let ghost size = element.size();
                let ghost copies = *length as int;
                proof {
                    assert(size * copies >= 0) by (nonlinear_arith)
                        requires
                            size >= 0,
                            copies >= 0,
                    ;
                }
                if *length == 0 {
                    return Some(0);
                }
                match each {
                    None => {
                        proof {
                            assert(size * copies >= size) by (nonlinear_arith)
                                requires
                                    size >= 0,
                                    copies >= 1,
                            ;
                        }
                        None
                    },
                    Some(words) => words.checked_mul(*length as usize),
                }
            },
        }
    }

    /// How many words a type occupies.
    pub fn words_in(kind: &Type) -> (count: usize)
        requires
            kind.size() <= usize::MAX,
        ensures
            count == kind.size(),
    {
        match Val::measure(kind) {
            Some(count) => count,
            None => 0,
        }
    }
}

/// The first words of a sequence, as many as fit inline.
pub open spec fn inlined(words: Seq<u32>) -> Seq<u32> {
    words.take(
        if words.len() <= INLINE_WORDS {
            words.len() as int
        } else {
            INLINE_WORDS as int
        },
    )
}

/// The words of a matrix: the components of its columns within its size, as many as fit inline.
pub open spec fn matrix_words(columns: Seq<[u32; 4]>, size: u8) -> Seq<u32> {
    let rows: int = if size < 4 {
        size as int
    } else {
        4
    };
    let across: int = if columns.len() < size {
        columns.len() as int
    } else {
        size as int
    };
    Seq::new(
        (if across * rows < INLINE_WORDS {
            across * rows
        } else {
            INLINE_WORDS as int
        }) as nat,
        |i: int| columns[i / rows][i % rows],
    )
}

/// A value as a register file holds it: its declared type and its words, borrowed in place.
#[derive(Clone, Copy, Debug)]
pub struct Reg<'a> {
    pub kind: &'a Type,
    pub words: &'a [u32],
}

impl View for Reg<'_> {
    type V = Datum;

    open spec fn view(&self) -> Datum {
        Datum { kind: *self.kind, words: self.words@ }
    }
}

impl<'a> Reg<'a> {
    pub fn new(kind: &'a Type, words: &'a [u32]) -> (made: Reg<'a>)
        ensures
            made@ == (Datum { kind: *kind, words: words@ }),
    {
        Reg { kind, words }
    }

    /// The scalar type of every word.
    pub fn scalar_type(&self) -> (scalar: ScalarType)
        ensures
            scalar == self@.kind.scalar(),
    {
        scalar_type_of(self.kind)
    }

    pub fn len(&self) -> (count: usize)
        ensures
            count == self@.words.len(),
    {
        self.words.len()
    }

    pub fn is_empty(&self) -> (empty: bool)
        ensures
            empty == (self@.words.len() == 0),
    {
        self.words.len() == 0
    }

    /// The bit pattern of a component; positive zero past the end.
    pub fn f32_at(&self, index: usize) -> (bits: u32)
        ensures
            bits == self@.word(index as int),
    {
        self.u32_at(index)
    }

    pub fn i32_at(&self, index: usize) -> (value: i32)
        ensures
            value == signed(self@.word(index as int)),
    {
        to_signed(self.u32_at(index))
    }

    pub fn u32_at(&self, index: usize) -> (word: u32)
        ensures
            word == self@.word(index as int),
    {
        if index < self.words.len() {
            self.words[index]
        } else {
            0
        }
    }

    pub fn bool_at(&self, index: usize) -> (truth: bool)
        ensures
            truth == (self@.word(index as int) != 0),
    {
        self.u32_at(index) != 0
    }

    /// The bit patterns of the first four components, which is what vector arithmetic reads.
    pub fn to_f32(&self) -> (four: [u32; 4])
        ensures
            forall|i: int| 0 <= i < 4 ==> #[trigger] four@[i] == self@.word(i),
    {
        [self.u32_at(0), self.u32_at(1), self.u32_at(2), self.u32_at(3)]
    }

    /// An owned value, for what is kept after the run.
    pub fn to_val(&self) -> (owned: Val)
        ensures
            owned@ == self@,
    {
        Val::new(self.kind.copy(), self.words)
    }
}

/// The scalar a type is made of. An array answers its element's.
pub fn scalar_type_of(kind: &Type) -> (scalar: ScalarType)
    ensures
        scalar == kind.scalar(),
    decreases kind,
{
    match kind {
        Type::Scalar(scalar) => *scalar,
        Type::Vector(scalar, _) => *scalar,
        Type::Matrix(_) => ScalarType::F32,
        Type::Array(element, _) => scalar_type_of(element),
    }
}


// ---------------------------------------------------------------------------------------------
// Laws of values.
// ---------------------------------------------------------------------------------------------
/// A matrix holds column after column, each from its first row to its last: the word of a row and a column is as many
/// columns on as the column says, and then as many rows.
pub proof fn a_matrix_is_held_by_column(columns: Seq<[u32; 4]>, size: u8, column: int, row: int)
    requires
        size <= 4,
        columns.len() == size,
        0 <= column < size,
        0 <= row < size,
    ensures
        matrix_words(columns, size).len() == size * size,
        0 <= column * size + row < size * size,
        matrix_words(columns, size)[column * size + row] == columns[column]@[row],
{
    let n = size as int;
    let i = column * n + row;
    assert(0 <= i < n * n && n * n <= 16) by (nonlinear_arith)
        requires
            i == column * n + row,
            0 <= column < n,
            0 <= row < n,
            n <= 4,
    ;
    vstd::arithmetic::div_mod::lemma_fundamental_div_mod_converse(i, n, column, row);
}

/// What a scalar is made of is what is read from it, and past it there is nothing.
pub proof fn a_scalar_is_read_as_it_was_made(made: Val, value: i32, truth: bool, read: i32, answer: bool, index: usize)
    ensures
        call_ensures(Val::scalar_i32, (value,), made) && call_ensures(Val::i32_at, (&made, index), read) ==> read == (
        if index == 0 {
            value as int
        } else {
            0
        }),
        call_ensures(Val::scalar_bool, (truth,), made) && call_ensures(Val::bool_at, (&made, index), answer) ==> answer
            == (index == 0 && truth),
{
}

/// What a vector is made of is what is read from it, component by component.
pub proof fn a_vector_is_read_as_it_was_made(components: &[u32], made: Val, index: usize, read: u32)
    requires
        components@.len() <= INLINE_WORDS,
        call_ensures(Val::vector_f32, (components,), made),
        call_ensures(Val::f32_at, (&made, index), read),
    ensures
        index < components@.len() ==> read == components@[index as int],
        index >= components@.len() ==> read == 0,
        made@.kind == Type::Vector(ScalarType::F32, components@.len() as u8),
        made@.kind.size() == made@.words.len(),
{
}

/// A signed word and its number are the same modulo two to the thirty-second, and the number is one of the smallest
/// thirty-two bits can hold on either side of nothing.
pub proof fn a_signed_word_is_its_number(word: u32, value: i32)
    ensures
        -0x8000_0000 <= signed(word) <= 0x7fff_ffff,
        (signed(word) - word) % 0x1_0000_0000 == 0,
        (unsigned(value as int) - value) % 0x1_0000_0000 == 0,
        signed(unsigned(value as int)) == value,
        unsigned(signed(word)) == word,
{
}

} // verus!
