//! The icon container: a list of typed entries, each an icon image in one of two codings.
//!
//! A modern entry holds a PNG file and a legacy one three run-length coded colour planes with the alpha
//! plane in an entry of its own. PNG coding is not done here: where a PNG has to be read or written the
//! functions below name it and stop, and the caller comes back with the answer appended to the ones it
//! gave before.
use vstd::prelude::*;

verus! {

/// Why an icon was refused.
#[derive(Clone, Copy, PartialEq, Eq, Structural, Debug)]
pub enum Error {
    Truncated,
    Invalid,
    Unsupported,
    TooLarge,
}

/// An image of four bytes per pixel: red, green, blue and alpha.
#[derive(Clone, Debug)]
pub struct RgbaImage {
    pub width: u32,
    pub height: u32,
    /// Bytes from one row to the next.
    pub pitch: u32,
    pub pixels: Vec<u8>,
}

/// An image as a value.
pub ghost struct Picture {
    pub width: u32,
    pub height: u32,
    pub pitch: u32,
    pub pixels: Seq<u8>,
}

impl View for RgbaImage {
    type V = Picture;

    open spec fn view(&self) -> Picture {
        Picture { width: self.width, height: self.height, pitch: self.pitch, pixels: self.pixels@ }
    }
}

impl Picture {
    /// How many pixels the picture has.
    pub open spec fn area(self) -> int {
        self.width * self.height
    }

    /// Whether the rows are packed and the storage is exactly theirs.
    pub open spec fn packed(self) -> bool {
        self.pitch == self.width * 4 && self.pixels.len() == self.width * self.height * 4
    }
}

impl RgbaImage {
    /// A packed image over the given pixels, refusing storage of another length.
    pub fn new(width: u32, height: u32, pixels: Vec<u8>) -> (made: Result<RgbaImage, Error>)
        ensures
            made == if width * 4 > u32::MAX {
                Err::<RgbaImage, Error>(Error::TooLarge)
            } else if pixels@.len() != width * height * 4 {
                Err(Error::Invalid)
            } else {
                Ok(RgbaImage { width, height, pitch: (width * 4) as u32, pixels })
            },
    {
        if width > 0x3fff_ffff {
            return Err(Error::TooLarge);
        }
        proof {
            area_fits(width, height);
        }
        if pixels.len() as u128 != width as u128 * height as u128 * 4 {
            return Err(Error::Invalid);
        }
        Ok(RgbaImage { width, height, pitch: width * 4, pixels })
    }

    /// How many pixels the image has.
    pub fn pixel_count(&self) -> (count: u64)
        ensures
            count == self@.area(),
    {
        proof {
            area_fits(self.width, self.height);
        }
        self.width as u64 * self.height as u64
    }

    /// A copy of the image.
    fn duplicate(&self) -> (copy: RgbaImage)
        ensures
            copy@ == self@,
    {
        let mut pixels: Vec<u8> = Vec::new();
        append(&mut pixels, self.pixels.as_slice(), 0, self.pixels.len());
        assert(pixels@ =~= self.pixels@);
        RgbaImage { width: self.width, height: self.height, pitch: self.pitch, pixels }
    }
}

proof fn area_fits(width: u32, height: u32)
    ensures
        0 <= width * height <= 0xffff_fffe_0000_0001,
{
    assert(0 <= width * height <= 0xffff_fffe_0000_0001) by (nonlinear_arith)
        requires
            0 <= width <= 0xffff_ffff,
            0 <= height <= 0xffff_ffff,
    ;
}

/// Append `source[from .. to]` to `output`.
fn append(output: &mut Vec<u8>, source: &[u8], from: usize, to: usize)
    requires
        from <= to <= source@.len(),
    ensures
        final(output)@ == old(output)@ + source@.subrange(from as int, to as int),
{
    let mut next: usize = from;
    while next < to
        invariant
            from <= next <= to <= source@.len(),
            output@ == old(output)@ + source@.subrange(from as int, next as int),
        decreases to - next,
    {
        output.push(source[next]);
        next = next + 1;
        assert(output@ =~= old(output)@ + source@.subrange(from as int, next as int));
    }
    assert(output@ =~= old(output)@ + source@.subrange(from as int, to as int));
}

// ---------------------------------------------------------------------------------------------
// Entry types.
// ---------------------------------------------------------------------------------------------
/// The four bytes of an entry type.
pub open spec fn tag(a: u8, b: u8, c: u8, d: u8) -> Seq<u8> {
    seq![a, b, c, d]
}

/// The side of the image a modern entry holds.
pub open spec fn modern_side(kind: Seq<u8>) -> Option<u32> {
    if kind == tag(0x69, 0x63, 0x30, 0x37) {
        Some(128)
    } else if kind == tag(0x69, 0x63, 0x30, 0x38) {
        Some(256)
    } else if kind == tag(0x69, 0x63, 0x30, 0x39) {
        Some(512)
    } else if kind == tag(0x69, 0x63, 0x31, 0x30) {
        Some(1024)
    } else {
        None
    }
}

/// The modern entry type for an image side.
pub open spec fn modern_kind(side: u32) -> Option<Seq<u8>> {
    if side == 128 {
        Some(tag(0x69, 0x63, 0x30, 0x37))
    } else if side == 256 {
        Some(tag(0x69, 0x63, 0x30, 0x38))
    } else if side == 512 {
        Some(tag(0x69, 0x63, 0x30, 0x39))
    } else if side == 1024 {
        Some(tag(0x69, 0x63, 0x31, 0x30))
    } else {
        None
    }
}

/// The side of the image whose colour planes a legacy entry holds.
pub open spec fn colour_side(kind: Seq<u8>) -> Option<u32> {
    if kind == tag(0x69, 0x73, 0x33, 0x32) {
        Some(16)
    } else if kind == tag(0x69, 0x6c, 0x33, 0x32) {
        Some(32)
    } else if kind == tag(0x69, 0x68, 0x33, 0x32) {
        Some(48)
    } else if kind == tag(0x69, 0x74, 0x33, 0x32) {
        Some(128)
    } else {
        None
    }
}

/// The side of the image whose alpha plane a legacy entry holds.
pub open spec fn mask_side(kind: Seq<u8>) -> Option<u32> {
    if kind == tag(0x73, 0x38, 0x6d, 0x6b) {
        Some(16)
    } else if kind == tag(0x6c, 0x38, 0x6d, 0x6b) {
        Some(32)
    } else if kind == tag(0x68, 0x38, 0x6d, 0x6b) {
        Some(48)
    } else if kind == tag(0x74, 0x38, 0x6d, 0x6b) {
        Some(128)
    } else {
        None
    }
}

/// The colour and mask entry types an image side is written as, where it is written in legacy form.
pub open spec fn legacy_kinds(side: u32) -> Option<(Seq<u8>, Seq<u8>)> {
    if side == 16 {
        Some((tag(0x69, 0x73, 0x33, 0x32), tag(0x73, 0x38, 0x6d, 0x6b)))
    } else if side == 32 {
        Some((tag(0x69, 0x6c, 0x33, 0x32), tag(0x6c, 0x38, 0x6d, 0x6b)))
    } else if side == 48 {
        Some((tag(0x69, 0x68, 0x33, 0x32), tag(0x68, 0x38, 0x6d, 0x6b)))
    } else {
        None
    }
}

fn is_kind(kind: &[u8; 4], a: u8, b: u8, c: u8, d: u8) -> (same: bool)
    ensures
        same == (kind@ == tag(a, b, c, d)),
{
    let same = kind[0] == a && kind[1] == b && kind[2] == c && kind[3] == d;
    proof {
        let wanted = tag(a, b, c, d);
        if same {
            assert(kind@ =~= wanted);
        } else {
            assert(wanted[0] == a && wanted[1] == b && wanted[2] == c && wanted[3] == d);
        }
    }
    same
}

/// The side of the image a modern entry type holds.
pub fn modern_size(kind: &[u8; 4]) -> (size: Option<u32>)
    ensures
        size == modern_side(kind@),
{
    if is_kind(kind, 0x69, 0x63, 0x30, 0x37) {
        Some(128)
    } else if is_kind(kind, 0x69, 0x63, 0x30, 0x38) {
        Some(256)
    } else if is_kind(kind, 0x69, 0x63, 0x30, 0x39) {
        Some(512)
    } else if is_kind(kind, 0x69, 0x63, 0x31, 0x30) {
        Some(1024)
    } else {
        None
    }
}

/// The modern entry type for an image side.
pub fn modern_kind_for_size(size: u32) -> (kind: Option<[u8; 4]>)
    ensures
        match kind {
            Some(k) => modern_kind(size) == Some(k@),
            None => modern_kind(size) is None,
        },
{
    let kind: [u8; 4] = if size == 128 {
        [0x69, 0x63, 0x30, 0x37]
    } else if size == 256 {
        [0x69, 0x63, 0x30, 0x38]
    } else if size == 512 {
        [0x69, 0x63, 0x30, 0x39]
    } else if size == 1024 {
        [0x69, 0x63, 0x31, 0x30]
    } else {
        return None;
    };
    assert(kind@ =~= modern_kind(size)->Some_0);
    Some(kind)
}

/// The side of the image whose colours a legacy entry type holds.
pub fn legacy_color_size(kind: &[u8; 4]) -> (size: Option<u32>)
    ensures
        size == colour_side(kind@),
{
    if is_kind(kind, 0x69, 0x73, 0x33, 0x32) {
        Some(16)
    } else if is_kind(kind, 0x69, 0x6c, 0x33, 0x32) {
        Some(32)
    } else if is_kind(kind, 0x69, 0x68, 0x33, 0x32) {
        Some(48)
    } else if is_kind(kind, 0x69, 0x74, 0x33, 0x32) {
        Some(128)
    } else {
        None
    }
}

/// The side of the image whose alpha a legacy entry type holds.
pub fn legacy_mask_size(kind: &[u8; 4]) -> (size: Option<u32>)
    ensures
        size == mask_side(kind@),
{
    if is_kind(kind, 0x73, 0x38, 0x6d, 0x6b) {
        Some(16)
    } else if is_kind(kind, 0x6c, 0x38, 0x6d, 0x6b) {
        Some(32)
    } else if is_kind(kind, 0x68, 0x38, 0x6d, 0x6b) {
        Some(48)
    } else if is_kind(kind, 0x74, 0x38, 0x6d, 0x6b) {
        Some(128)
    } else {
        None
    }
}

/// The colour and mask entry types of an image side that is written in legacy form.
pub fn legacy_kinds_for_size(size: u32) -> (kinds: Option<([u8; 4], [u8; 4])>)
    ensures
        match kinds {
            Some((colour, mask)) => legacy_kinds(size) == Some((colour@, mask@)),
            None => legacy_kinds(size) is None,
        },
{
    let kinds: ([u8; 4], [u8; 4]) = if size == 16 {
        ([0x69, 0x73, 0x33, 0x32], [0x73, 0x38, 0x6d, 0x6b])
    } else if size == 32 {
        ([0x69, 0x6c, 0x33, 0x32], [0x6c, 0x38, 0x6d, 0x6b])
    } else if size == 48 {
        ([0x69, 0x68, 0x33, 0x32], [0x68, 0x38, 0x6d, 0x6b])
    } else {
        return None;
    };
    proof {
        let wanted = legacy_kinds(size)->Some_0;
        assert(kinds.0@ =~= wanted.0);
        assert(kinds.1@ =~= wanted.1);
    }
    Some(kinds)
}

/// The type an image is written as is read back as the same side, and never as another role.
pub proof fn kinds_name_their_side(side: u32)
    ensures
        modern_kind(side) matches Some(kind) ==> modern_side(kind) == Some(side) && colour_side(kind) is None
            && mask_side(kind) is None && kind.len() == 4,
        legacy_kinds(side) matches Some((colour, mask)) ==> colour_side(colour) == Some(side) && mask_side(
            mask,
        ) == Some(side) && modern_side(colour) is None && modern_side(mask) is None && colour_side(mask)
            is None && mask_side(colour) is None && colour.len() == 4 && mask.len() == 4,
{
    if let Some(kind) = modern_kind(side) {
        different_bytes(kind);
    }
    if let Some((colour, mask)) = legacy_kinds(side) {
        different_bytes(colour);
        different_bytes(mask);
    }
}

/// Two entry types are the same only where their four bytes are.
proof fn different_bytes(kind: Seq<u8>)
    ensures
        forall|a: u8, b: u8, c: u8, d: u8|
            kind == #[trigger] tag(a, b, c, d) ==> kind.len() == 4 && kind[0] == a && kind[1] == b && kind[2]
                == c && kind[3] == d,
{
}

/// The pixel count of a square image.
pub fn pixel_count(size: u32) -> (count: Result<usize, Error>)
    ensures
        count == if size * size <= usize::MAX {
            Ok::<usize, Error>((size * size) as usize)
        } else {
            Err(Error::TooLarge)
        },
{
    proof {
        area_fits(size, size);
    }
    let count: u64 = size as u64 * size as u64;
    if count <= usize::MAX as u64 {
        Ok(count as usize)
    } else {
        Err(Error::TooLarge)
    }
}

// ---------------------------------------------------------------------------------------------
// Run-length coding.
// ---------------------------------------------------------------------------------------------
/// Decode runs from position `at` until `need` bytes have come out: the bytes, and the position after the
/// last run. A run past `need` is invalid and a run past the input truncated.
pub open spec fn unpacked(input: Seq<u8>, at: int, need: int) -> Result<(Seq<u8>, int), Error>
    decreases need,
{
    if need <= 0 {
        Ok((Seq::empty(), at))
    } else if at >= input.len() {
        Err(Error::Truncated)
    } else if input[at] >= 0x80 {
        let length = input[at] - 0x80 + 3;
        if at + 1 >= input.len() {
            Err(Error::Truncated)
        } else if length > need {
            Err(Error::Invalid)
        } else {
            match unpacked(input, at + 2, need - length) {
                Err(fault) => Err(fault),
                Ok((rest, end)) => Ok((Seq::new(length as nat, |i: int| input[at + 1]) + rest, end)),
            }
        }
    } else {
        let length = input[at] + 1;
        if at + 1 + length > usize::MAX {
            Err(Error::TooLarge)
        } else if length > need {
            Err(Error::Invalid)
        } else if at + 1 + length > input.len() {
            Err(Error::Truncated)
        } else {
            match unpacked(input, at + 1 + length, need - length) {
                Err(fault) => Err(fault),
                Ok((rest, end)) => Ok((input.subrange(at + 1, at + 1 + length) + rest, end)),
            }
        }
    }
}

/// What decoding has brought out, and the position it has read up to, when it ends or is refused.
#[verifier::opaque]
pub open spec fn left_off(input: Seq<u8>, at: int, need: int) -> (Seq<u8>, int)
    decreases need,
{
    if need <= 0 || at >= input.len() {
        (Seq::empty(), at)
    } else if input[at] >= 0x80 {
        let length = input[at] - 0x80 + 3;
        if at + 1 >= input.len() {
            (Seq::empty(), at + 1)
        } else if length > need {
            (Seq::empty(), at + 2)
        } else {
            let rest = left_off(input, at + 2, need - length);
            (Seq::new(length as nat, |i: int| input[at + 1]) + rest.0, rest.1)
        }
    } else {
        let length = input[at] + 1;
        if at + 1 + length > usize::MAX || length > need || at + 1 + length > input.len() {
            (Seq::empty(), at + 1)
        } else {
            let rest = left_off(input, at + 1 + length, need - length);
            (input.subrange(at + 1, at + 1 + length) + rest.0, rest.1)
        }
    }
}

/// Decode one run-length coded plane of `expected` bytes, appending it to `output` and moving `cursor` past
/// it.
pub fn decode_packbits_component(
    input: &[u8],
    cursor: &mut usize,
    expected: usize,
    output: &mut Vec<u8>,
) -> (outcome: Result<(), Error>)
    requires
        *old(cursor) <= input@.len(),
    ensures
        *final(cursor) <= input@.len(),
        match outcome {
            Ok(_) => old(output)@.len() + expected <= usize::MAX && unpacked(
                input@,
                *old(cursor) as int,
                expected as int,
            ) == Ok::<(Seq<u8>, int), Error>(
                (final(output)@.skip(old(output)@.len() as int), *final(cursor) as int),
            ) && final(output)@.take(old(output)@.len() as int) == old(output)@ && final(output)@.len()
                == old(output)@.len() + expected,
            Err(fault) => if old(output)@.len() + expected > usize::MAX {
                fault == Error::TooLarge
            } else {
                unpacked(input@, *old(cursor) as int, expected as int) == Err::<(Seq<u8>, int), Error>(
                    fault,
                )
            },
        },
        if old(output)@.len() + expected > usize::MAX {
            final(output)@ == old(output)@ && *final(cursor) == *old(cursor)
        } else {
            let reached = left_off(input@, *old(cursor) as int, expected as int);
            final(output)@ == old(output)@ + reached.0 && *final(cursor) == reached.1
        },
{
    reveal(left_off);
    let start: usize = output.len();
    if expected > usize::MAX - start {
        return Err(Error::TooLarge);
    }
    let target: usize = start + expected;
    let ghost before = output@;
    let ghost from = *cursor as int;
    let ghost all = unpacked(input@, from, expected as int);
    let ghost reached = left_off(input@, from, expected as int);
    assert(output@ + reached.0 =~= before + reached.0);
    while output.len() < target
        invariant
            before.len() == start,
            target == start + expected,
            start <= output@.len() <= target,
            *cursor <= input@.len(),
            output@.take(start as int) == before,
            all == unpacked(input@, from, expected as int),
            match unpacked(input@, *cursor as int, target - output@.len()) {
                Err(fault) => all == Err::<(Seq<u8>, int), Error>(fault),
                Ok((rest, end)) => all == Ok::<(Seq<u8>, int), Error>((output@.skip(start as int) + rest, end)),
            },
            before == old(output)@,
            from == *old(cursor),
            target <= usize::MAX,
            reached == left_off(input@, from, expected as int),
            before + reached.0 == output@ + left_off(input@, *cursor as int, target - output@.len()).0,
            reached.1 == left_off(input@, *cursor as int, target - output@.len()).1,
        decreases target - output@.len(),
    {
        reveal(left_off);
        let ghost had = output@;
        let ghost at = *cursor as int;
        let ghost need = target - output@.len();
        assert(had + Seq::<u8>::empty() =~= had);
        if *cursor >= input.len() {
            return Err(Error::Truncated);
        }
        let control: u8 = input[*cursor];
        *cursor = *cursor + 1;
        if control >= 0x80 {
            let length: usize = (control - 0x80) as usize + 3;
            if *cursor >= input.len() {
                return Err(Error::Truncated);
            }
            let value: u8 = input[*cursor];
            *cursor = *cursor + 1;
            if length > target - output.len() {
                return Err(Error::Invalid);
            }
            let mut copies: usize = 0;
            while copies < length
                invariant
                    copies <= length,
                    output@ == had + Seq::new(copies as nat, |i: int| value),
                decreases length - copies,
            {
                output.push(value);
                copies = copies + 1;
                assert(output@ =~= had + Seq::new(copies as nat, |i: int| value));
            }
            proof {
                let run = Seq::new(length as nat, |i: int| input@[at + 1]);
                assert(Seq::new(length as nat, |i: int| value) =~= run);
                let after = left_off(input@, at + 2, need - length);
                assert(had + (run + after.0) =~= output@ + after.0);
                assert(output@.take(start as int) =~= before);
                if let Ok((rest, end)) = unpacked(input@, at + 2, need - length) {
                    assert(had.skip(start as int) + (run + rest) =~= output@.skip(start as int) + rest);
                }
            }
        } else {
            let length: usize = control as usize + 1;
            if length > usize::MAX - *cursor {
                return Err(Error::TooLarge);
            }
            let end: usize = *cursor + length;
            if length > target - output.len() {
                return Err(Error::Invalid);
            }
            if end > input.len() {
                return Err(Error::Truncated);
            }
            append(output, input, *cursor, end);
            *cursor = end;
            proof {
                let run = input@.subrange(at + 1, at + 1 + length);
                let after = left_off(input@, at + 1 + length, need - length);
                assert(had + (run + after.0) =~= output@ + after.0);
                assert(output@.take(start as int) =~= before);
                if let Ok((rest, stop)) = unpacked(input@, at + 1 + length, need - length) {
                    assert(had.skip(start as int) + (run + rest) =~= output@.skip(start as int) + rest);
                }
            }
        }
    }
    proof {
        assert(output@.skip(start as int) + Seq::<u8>::empty() =~= output@.skip(start as int));
        assert(output@ + Seq::<u8>::empty() =~= output@);
    }
    Ok(())
}

/// How many equal bytes follow one another from a position, counting at most `most`.
pub open spec fn run_at(input: Seq<u8>, at: int, most: int) -> int
    decreases most,
{
    if most <= 1 || at + 1 >= input.len() || input[at + 1] != input[at] {
        1
    } else {
        1 + run_at(input, at + 1, most - 1)
    }
}

/// Where a literal that has reached `at` from `start` ends: before three equal bytes, at 128 bytes, or at
/// the end of the input.
pub open spec fn literal_end(input: Seq<u8>, start: int, at: int) -> int
    decreases input.len() - at,
{
    if at >= input.len() || at - start >= 128 {
        at
    } else {
        let run = run_at(input, at, 3);
        if run >= 3 || run < 1 {
            at
        } else if run > 128 - (at - start) {
            start + 128
        } else {
            literal_end(input, start, at + run)
        }
    }
}

/// The run-length coding of a plane from a position on: a run of three or more equal bytes as a count and
/// the byte, anything else as a literal.
pub open spec fn packed_from(input: Seq<u8>, at: int) -> Seq<u8>
    decreases input.len() - at,
{
    if at < 0 || at >= input.len() {
        Seq::empty()
    } else {
        proof {
            run_is_within(input, at, 130);
        }
        let run = run_at(input, at, 130);
        if run >= 3 {
            seq![(0x80 + (run - 3)) as u8, input[at]] + packed_from(input, at + run)
        } else {
            let end = literal_end(input, at, at + run);
            if end <= at || end > input.len() {
                Seq::empty()
            } else {
                seq![(end - at - 1) as u8] + input.subrange(at, end) + packed_from(input, end)
            }
        }
    }
}

/// A run is at least one byte, at most what was asked for, within the input, and of one value.
pub proof fn run_is_within(input: Seq<u8>, at: int, most: int)
    requires
        0 <= at < input.len(),
        most >= 1,
    ensures
        1 <= run_at(input, at, most) <= most,
        at + run_at(input, at, most) <= input.len(),
        forall|i: int| at <= i < at + run_at(input, at, most) ==> #[trigger] input[i] == input[at],
    decreases most,
{
    if !(most <= 1 || at + 1 >= input.len() || input[at + 1] != input[at]) {
        run_is_within(input, at + 1, most - 1);
    }
}

/// Counting one byte more of a run that has held so far.
proof fn run_grows(input: Seq<u8>, at: int, held: int, most: int)
    requires
        0 <= at,
        1 <= held <= most,
        at + held <= input.len(),
        forall|i: int| at <= i < at + held ==> #[trigger] input[i] == input[at],
    ensures
        held == most || at + held >= input.len() || input[at + held] != input[at] ==> run_at(
            input,
            at,
            most,
        ) == held,
    decreases held,
{
    if held > 1 {
        assert(input[at + 1] == input[at]);
        assert forall|i: int| at + 1 <= i < at + held implies #[trigger] input[i] == input[at + 1] by {}
        run_grows(input, at + 1, held - 1, most - 1);
    }
}

/// The length of a run of equal bytes, counting at most `most`.
fn run_length(input: &[u8], at: usize, most: usize) -> (run: usize)
    requires
        at < input@.len(),
        1 <= most <= 130,
    ensures
        run == run_at(input@, at as int, most as int),
        1 <= run <= most,
        at + run <= input@.len(),
{
    let mut run: usize = 1;
    while run < most && run < input.len() - at && input[at + run] == input[at]
        invariant
            at < input@.len(),
            1 <= run <= most <= 130,
            at + run <= input@.len(),
            forall|i: int| at <= i < at + run ==> #[trigger] input@[i] == input@[at as int],
        decreases most - run,
    {
        run = run + 1;
    }
    proof {
        run_grows(input@, at as int, run as int, most as int);
    }
    run
}

proof fn literal_is_within(input: Seq<u8>, start: int, at: int)
    requires
        0 <= start < at <= input.len(),
        at - start <= 128,
    ensures
        at <= literal_end(input, start, at) <= input.len(),
        literal_end(input, start, at) - start <= 128,
    decreases input.len() - at,
{
    if at < input.len() && at - start < 128 {
        run_is_within(input, at, 3);
        let run = run_at(input, at, 3);
        if run < 3 && run <= 128 - (at - start) {
            literal_is_within(input, start, at + run);
        }
    }
}

/// Run-length code one plane, appending it to `output`.
pub fn encode_packbits_component(input: &[u8], output: &mut Vec<u8>)
    ensures
        final(output)@ == old(output)@ + packed_from(input@, 0),
{
    let mut index: usize = 0;
    while index < input.len()
        invariant
            index <= input@.len(),
            output@ + packed_from(input@, index as int) == old(output)@ + packed_from(input@, 0),
        decreases input@.len() - index,
    {
        let ghost had = output@;
        let ghost at = index as int;
        let repeat: usize = run_length(input, index, 130);
        if repeat >= 3 {
            let head: u8 = 0x80 + (repeat - 3) as u8;
            output.push(head);
            output.push(input[index]);
            index = index + repeat;
            proof {
                let coded = seq![head, input@[at]];
                assert(coded + packed_from(input@, index as int) == packed_from(input@, at));
                assert(output@ + packed_from(input@, index as int) =~= had + (coded + packed_from(
                    input@,
                    index as int,
                )));
            }
            continue ;
        }
        let start: usize = index;
        index = index + repeat;
        let ghost end = literal_end(input@, at, at + repeat);
        proof {
            literal_is_within(input@, at, at + repeat);
        }
        let mut open = true;
        while open && index < input.len() && index - start < 128
            invariant
                start == at,
                start < index <= input@.len(),
                index - start <= 128,
                at < end <= input@.len(),
                end - at <= 128,
                open ==> literal_end(input@, start as int, index as int) == end,
                !open ==> index == end,
            decreases input@.len() - index, (if open { 1int } else { 0 }),
        {
            let next_repeat: usize = run_length(input, index, 3);
            if next_repeat >= 3 {
                open = false;
            } else {
                let room: usize = 128 - (index - start);
                if next_repeat <= room {
                    index = index + next_repeat;
                } else {
                    index = index + room;
                }
            }
        }
        assert(index == end);
        let head: u8 = (index - start - 1) as u8;
        output.push(head);
        append(output, input, start, index);
        proof {
            let coded = seq![head] + input@.subrange(at, end);
            assert(packed_from(input@, at) == coded + packed_from(input@, end));
            assert(output@ + packed_from(input@, end) =~= had + (coded + packed_from(input@, end)));
        }
    }
    assert(output@ + Seq::<u8>::empty() =~= output@);
}

/// Reading back what was coded: decoding the coding of a plane, wherever it stands, gives the plane and ends
/// right behind it.
pub proof fn unpacking_undoes_packing(input: Seq<u8>, at: int, stream: Seq<u8>, from: int)
    requires
        0 <= at <= input.len(),
        0 <= from,
        stream.len() <= usize::MAX,
        from + packed_from(input, at).len() <= stream.len(),
        stream.subrange(from, from + packed_from(input, at).len()) == packed_from(input, at),
    ensures
        unpacked(stream, from, input.len() - at) == Ok::<(Seq<u8>, int), Error>(
            (input.skip(at), from + packed_from(input, at).len()),
        ),
    decreases input.len() - at,
{
    let coded = packed_from(input, at);
    if at < input.len() {
        run_is_within(input, at, 130);
        let run = run_at(input, at, 130);
        let window = stream.subrange(from, from + coded.len());
        if run >= 3 {
            let rest = packed_from(input, at + run);
            assert(coded == seq![(0x80 + (run - 3)) as u8, input[at]] + rest);
            assert(window[0] == stream[from] && window[1] == stream[from + 1]);
            assert(stream[from] == 0x80 + (run - 3));
            let tail = stream.subrange(from + 2, from + 2 + rest.len());
            assert forall|i: int| 0 <= i < rest.len() implies #[trigger] tail[i] == rest[i] by {
                assert(window[2 + i] == coded[2 + i]);
            }
            assert(tail =~= rest);
            unpacking_undoes_packing(input, at + run, stream, from + 2);
            assert(Seq::new(run as nat, |i: int| stream[from + 1]) + input.skip(at + run) =~= input.skip(at));
        } else {
            literal_is_within(input, at, at + run);
            let end = literal_end(input, at, at + run);
            let rest = packed_from(input, end);
            let length = end - at;
            assert(coded == seq![(length - 1) as u8] + input.subrange(at, end) + rest);
            assert(window[0] == stream[from]);
            assert(stream[from] == length - 1);
            let literal = input.subrange(at, end);
            let head = stream.subrange(from + 1, from + 1 + length);
            assert forall|i: int| 0 <= i < length implies #[trigger] head[i] == literal[i] by {
                assert(window[1 + i] == coded[1 + i]);
            }
            assert(head =~= literal);
            let tail = stream.subrange(from + 1 + length, from + 1 + length + rest.len());
            assert forall|i: int| 0 <= i < rest.len() implies #[trigger] tail[i] == rest[i] by {
                assert(window[1 + length + i] == coded[1 + length + i]);
            }
            assert(tail =~= rest);
            unpacking_undoes_packing(input, end, stream, from + 1 + length);
            assert(input.subrange(at, end) + input.skip(end) =~= input.skip(at));
        }
    } else {
        assert(input.skip(at) =~= Seq::<u8>::empty());
    }
}

// ---------------------------------------------------------------------------------------------
// Legacy colour planes.
// ---------------------------------------------------------------------------------------------
/// The three colour planes of a legacy entry, one after the other. The 128 pixel type may carry four zero
/// bytes in front, and nothing may follow the last plane.
#[verifier::opaque]
pub open spec fn legacy_planes(payload: Seq<u8>, side: u32) -> Result<Seq<u8>, Error> {
    let count = side * side;
    let coded = if side == 128 && payload.len() >= 4 && payload[0] == 0 && payload[1] == 0 && payload[2] == 0
        && payload[3] == 0 {
        payload.skip(4)
    } else {
        payload
    };
    if count * 3 > usize::MAX {
        Err(Error::TooLarge)
    } else {
        match unpacked(coded, 0, count) {
            Err(fault) => Err(fault),
            Ok((red, second)) => match unpacked(coded, second, count) {
                Err(fault) => Err(fault),
                Ok((green, third)) => match unpacked(coded, third, count) {
                    Err(fault) => Err(fault),
                    Ok((blue, end)) => if end != coded.len() {
                        Err(Error::Invalid)
                    } else {
                        Ok(red + green + blue)
                    },
                },
            },
        }
    }
}

/// Decode the colour planes of a legacy entry.
pub fn decode_legacy_rgb(payload: &[u8], size: u32) -> (planes: Result<Vec<u8>, Error>)
    ensures
        match planes {
            Ok(bytes) => legacy_planes(payload@, size) == Ok::<Seq<u8>, Error>(bytes@),
            Err(fault) => legacy_planes(payload@, size) == Err::<Seq<u8>, Error>(fault),
        },
{
    proof {
        reveal(legacy_planes);
        area_fits(size, size);
    }
    let wide: u64 = size as u64 * size as u64;
    if wide as u128 * 3 > usize::MAX as u128 {
        return Err(Error::TooLarge);
    }
    let count: usize = wide as usize;
    let coded: &[u8] = if size == 128 && payload.len() >= 4 && payload[0] == 0 && payload[1] == 0 && payload[2]
        == 0 && payload[3] == 0 {
        let rest = vstd::slice::slice_subrange(payload, 4, payload.len());
        assert(rest@ =~= payload@.skip(4));
        rest
    } else {
        payload
    };
    let mut cursor: usize = 0;
    let mut colors: Vec<u8> = Vec::new();
    match decode_packbits_component(coded, &mut cursor, count, &mut colors) {
        Err(fault) => {
            return Err(fault);
        },
        Ok(_) => {},
    }
    let ghost red = colors@;
    assert(colors@.skip(0) =~= red);
    match decode_packbits_component(coded, &mut cursor, count, &mut colors) {
        Err(fault) => {
            return Err(fault);
        },
        Ok(_) => {},
    }
    let ghost green = colors@.skip(count as int);
    let ghost both = colors@;
    assert(both =~= red + green);
    match decode_packbits_component(coded, &mut cursor, count, &mut colors) {
        Err(fault) => {
            return Err(fault);
        },
        Ok(_) => {},
    }
    assert(colors@ =~= red + green + colors@.skip(2 * count as int));
    if cursor != coded.len() {
        return Err(Error::Invalid);
    }
    Ok(colors)
}

/// One channel of a picture, pixel by pixel.
pub open spec fn channel(pixels: Seq<u8>, which: int) -> Seq<u8> {
    Seq::new(pixels.len() / 4, |i: int| pixels[4 * i + which])
}

/// One channel of an image, pixel by pixel.
fn channel_of(pixels: &Vec<u8>, which: usize) -> (values: Vec<u8>)
    requires
        which < 4,
    ensures
        values@ == channel(pixels@, which as int),
{
    let total: usize = pixels.len();
    let count: usize = total / 4;
    let mut values: Vec<u8> = Vec::new();
    let mut next: usize = 0;
    while next < count
        invariant
            which < 4,
            total == pixels@.len(),
            count == total / 4,
            next <= count,
            values@ == channel(pixels@, which as int).take(next as int),
        decreases count - next,
    {
        values.push(pixels[4 * next + which]);
        next = next + 1;
        assert(values@ =~= channel(pixels@, which as int).take(next as int));
    }
    assert(values@ =~= channel(pixels@, which as int));
    values
}

/// The coded colour planes of an image, refusing one whose rows are not packed.
pub open spec fn legacy_colours(image: Picture) -> Result<Seq<u8>, Error> {
    if image.width * image.width > usize::MAX || image.width * image.width * 4 > usize::MAX {
        Err(Error::TooLarge)
    } else if image.pixels.len() != image.width * image.width * 4 {
        Err(Error::Invalid)
    } else if image.width * 4 > u32::MAX {
        Err(Error::TooLarge)
    } else if image.pitch != image.width * 4 {
        Err(Error::Invalid)
    } else {
        Ok(
            packed_from(channel(image.pixels, 0), 0) + packed_from(channel(image.pixels, 1), 0) + packed_from(
                channel(image.pixels, 2),
                0,
            ),
        )
    }
}

/// Code the colour planes of an image.
pub fn encode_legacy_rgb(image: &RgbaImage) -> (coded: Result<Vec<u8>, Error>)
    ensures
        match coded {
            Ok(bytes) => legacy_colours(image@) == Ok::<Seq<u8>, Error>(bytes@),
            Err(fault) => legacy_colours(image@) == Err::<Seq<u8>, Error>(fault),
        },
{
    proof {
        area_fits(image.width, image.width);
    }
    let wide: u128 = image.width as u128 * image.width as u128;
    if wide * 4 > usize::MAX as u128 {
        return Err(Error::TooLarge);
    }
    if image.pixels.len() as u128 != wide * 4 {
        return Err(Error::Invalid);
    }
    if image.width > 0x3fff_ffff {
        return Err(Error::TooLarge);
    }
    if image.pitch != image.width * 4 {
        return Err(Error::Invalid);
    }
    let mut output: Vec<u8> = Vec::new();
    let red = channel_of(&image.pixels, 0);
    let green = channel_of(&image.pixels, 1);
    let blue = channel_of(&image.pixels, 2);
    encode_packbits_component(red.as_slice(), &mut output);
    encode_packbits_component(green.as_slice(), &mut output);
    encode_packbits_component(blue.as_slice(), &mut output);
    assert(output@ =~= packed_from(red@, 0) + packed_from(green@, 0) + packed_from(blue@, 0));
    Ok(output)
}

/// Reading back the colour planes that were coded from a picture gives the picture's own channels.
pub proof fn planes_come_back(image: Picture)
    requires
        legacy_colours(image) is Ok,
        image.width != 128,
        legacy_colours(image)->Ok_0.len() <= usize::MAX,
    ensures
        legacy_planes(legacy_colours(image)->Ok_0, image.width) == Ok::<Seq<u8>, Error>(
            channel(image.pixels, 0) + channel(image.pixels, 1) + channel(image.pixels, 2),
        ),
{
    reveal(legacy_planes);
    let count = image.width * image.width;
    let (red, green, blue) = (
        channel(image.pixels, 0),
        channel(image.pixels, 1),
        channel(image.pixels, 2),
    );
    let (a, b, c) = (packed_from(red, 0), packed_from(green, 0), packed_from(blue, 0));
    let stream = a + b + c;
    assert(red.len() == count && green.len() == count && blue.len() == count);
    let (p, q, r) = (a.len() as int, (a.len() + b.len()) as int, (a.len() + b.len() + c.len()) as int);
    assert(stream.subrange(0, p) =~= a);
    assert(stream.subrange(p, q) =~= b);
    assert(stream.subrange(q, r) =~= c);
    unpacking_undoes_packing(red, 0, stream, 0);
    unpacking_undoes_packing(green, 0, stream, p);
    unpacking_undoes_packing(blue, 0, stream, q);
    assert(red.skip(0) =~= red && green.skip(0) =~= green && blue.skip(0) =~= blue);
}

// ---------------------------------------------------------------------------------------------
// Reading the container.
// ---------------------------------------------------------------------------------------------
/// A big-endian number of four bytes.
pub open spec fn be32(bytes: Seq<u8>, at: int) -> int {
    bytes[at] * 0x100_0000 + bytes[at + 1] * 0x1_0000 + bytes[at + 2] * 0x100 + bytes[at + 3]
}

fn read_be32(bytes: &[u8], at: usize) -> (value: u32)
    requires
        at + 4 <= bytes@.len(),
    ensures
        value == be32(bytes@, at as int),
{
    bytes[at] as u32 * 0x100_0000 + bytes[at + 1] as u32 * 0x1_0000 + bytes[at + 2] as u32 * 0x100 + bytes[at
        + 3] as u32
}

/// Whether a payload starts as a PNG file does.
pub open spec fn starts_as_png(payload: Seq<u8>) -> bool {
    payload.len() >= 8 && payload[0] == 0x89 && payload[1] == 0x50 && payload[2] == 0x4e && payload[3] == 0x47
        && payload[4] == 0x0d && payload[5] == 0x0a && payload[6] == 0x1a && payload[7] == 0x0a
}

fn is_png(payload: &[u8]) -> (yes: bool)
    ensures
        yes == starts_as_png(payload@),
{
    payload.len() >= 8 && payload[0] == 0x89 && payload[1] == 0x50 && payload[2] == 0x4e && payload[3] == 0x47
        && payload[4] == 0x0d && payload[5] == 0x0a && payload[6] == 0x1a && payload[7] == 0x0a
}

/// What the entries read so far have given.
#[verifier::ext_equal]
pub ghost struct Gathered {
    /// The images of modern entries, in file order.
    pub images: Seq<Picture>,
    /// The colour planes of legacy entries by image side, in file order.
    pub colours: Seq<(u32, Seq<u8>)>,
    /// The alpha planes of legacy entries by image side, in file order.
    pub masks: Seq<(u32, Seq<u8>)>,
    /// Whether a modern entry held something other than a PNG.
    pub unsupported: bool,
    /// How many PNG answers have been used.
    pub used: int,
}

/// Nothing read yet.
pub open spec fn nothing() -> Gathered {
    Gathered {
        images: Seq::empty(),
        colours: Seq::empty(),
        masks: Seq::empty(),
        unsupported: false,
        used: 0,
    }
}

/// The plane of a side in a list of planes, if it is there.
pub open spec fn plane_of(planes: Seq<(u32, Seq<u8>)>, side: u32) -> Option<Seq<u8>>
    decreases planes.len(),
{
    if planes.len() == 0 {
        None
    } else if planes[0].0 == side {
        Some(planes[0].1)
    } else {
        plane_of(planes.skip(1), side)
    }
}

/// What one entry makes of what was gathered before it.
pub ghost enum Taken {
    Fault(Error),
    /// A PNG whose picture the caller has not supplied yet.
    Waits,
    Gathered(Gathered),
}

/// Take one entry in: its type decides its role, an entry of an unknown type is passed over.
pub open spec fn take_entry(
    so_far: Gathered,
    kind: Seq<u8>,
    payload: Seq<u8>,
    pngs: Seq<Result<Picture, Error>>,
) -> Taken {
    if let Some(side) = modern_side(kind) {
        if !starts_as_png(payload) {
            Taken::Gathered(Gathered { unsupported: true, ..so_far })
        } else if so_far.used >= pngs.len() {
            Taken::Waits
        } else {
            match pngs[so_far.used] {
                Err(fault) => Taken::Fault(fault),
                Ok(image) => if image.width != side || image.height != side {
                    Taken::Fault(Error::Invalid)
                } else {
                    Taken::Gathered(
                        Gathered { images: so_far.images.push(image), used: so_far.used + 1, ..so_far },
                    )
                },
            }
        }
    } else if let Some(side) = colour_side(kind) {
        if plane_of(so_far.colours, side) is Some {
            Taken::Fault(Error::Invalid)
        } else {
            match legacy_planes(payload, side) {
                Err(fault) => Taken::Fault(fault),
                Ok(planes) => Taken::Gathered(
                    Gathered { colours: so_far.colours.push((side, planes)), ..so_far },
                ),
            }
        }
    } else if let Some(side) = mask_side(kind) {
        if payload.len() < side * side {
            Taken::Fault(Error::Truncated)
        } else if payload.len() > side * side || plane_of(so_far.masks, side) is Some {
            Taken::Fault(Error::Invalid)
        } else {
            Taken::Gathered(Gathered { masks: so_far.masks.push((side, payload)), ..so_far })
        }
    } else {
        Taken::Gathered(so_far)
    }
}

/// The end of the entry at a position, or why there is none: an entry is its type, its length including
/// these eight bytes, and its payload.
pub open spec fn entry_end(data: Seq<u8>, at: int) -> Result<int, Error> {
    if data.len() - at < 8 {
        Err(Error::Truncated)
    } else if be32(data, at + 4) < 8 {
        Err(Error::Invalid)
    } else if at + be32(data, at + 4) > usize::MAX {
        Err(Error::TooLarge)
    } else if at + be32(data, at + 4) > data.len() {
        Err(Error::Truncated)
    } else {
        Ok(at + be32(data, at + 4))
    }
}

/// Where reading the entries of a container leads.
pub ghost enum Walked {
    Fault(Error),
    /// The PNG payload that has to be decoded next, as a range of the data.
    Waits(int, int),
    Gathered(Gathered),
}

/// Read the entries from a position to the end of the data.
pub open spec fn walk(data: Seq<u8>, at: int, so_far: Gathered, pngs: Seq<Result<Picture, Error>>) -> Walked
    decreases data.len() - at,
{
    if at >= data.len() {
        Walked::Gathered(so_far)
    } else {
        match entry_end(data, at) {
            Err(fault) => Walked::Fault(fault),
            Ok(end) => match take_entry(
                so_far,
                data.subrange(at, at + 4),
                data.subrange(at + 8, end),
                pngs,
            ) {
                Taken::Fault(fault) => Walked::Fault(fault),
                Taken::Waits => Walked::Waits(at + 8, end),
                Taken::Gathered(next) => walk(data, end, next, pngs),
            },
        }
    }
}

/// The picture of a legacy image: its colour planes interleaved with its alpha plane, opaque without one.
pub open spec fn legacy_picture(side: u32, planes: Seq<u8>, mask: Option<Seq<u8>>) -> Picture {
    let count = side * side;
    Picture {
        width: side,
        height: side,
        pitch: (side * 4) as u32,
        pixels: Seq::new(
            (count * 4) as nat,
            |i: int|
                if i % 4 == 0 {
                    planes[i / 4]
                } else if i % 4 == 1 {
                    planes[count + i / 4]
                } else if i % 4 == 2 {
                    planes[2 * count + i / 4]
                } else if let Some(alpha) = mask {
                    alpha[i / 4]
                } else {
                    255u8
                },
        ),
    }
}

/// The pictures of the legacy entries, in the order of their colour entries.
pub open spec fn legacy_pictures(so_far: Gathered) -> Seq<Picture> {
    Seq::new(
        so_far.colours.len(),
        |i: int|
            legacy_picture(
                so_far.colours[i].0,
                so_far.colours[i].1,
                plane_of(so_far.masks, so_far.colours[i].0),
            ),
    )
}

/// Put a picture into a list ordered by area, behind those of the same area.
pub open spec fn placed(ordered: Seq<Picture>, image: Picture) -> Seq<Picture>
    decreases ordered.len(),
{
    if ordered.len() == 0 || ordered.last().area() <= image.area() {
        ordered.push(image)
    } else {
        placed(ordered.drop_last(), image).push(ordered.last())
    }
}

/// The pictures ordered by area, smallest first; pictures of one area keep their order.
pub open spec fn by_area(images: Seq<Picture>) -> Seq<Picture>
    decreases images.len(),
{
    if images.len() == 0 {
        Seq::empty()
    } else {
        placed(by_area(images.drop_last()), images.last())
    }
}

/// The fault of a container's header, if it has one.
pub open spec fn header_fault(data: Seq<u8>) -> Option<Error> {
    if data.len() < 8 {
        Some(Error::Truncated)
    } else if data.subrange(0, 4) != tag(0x69, 0x63, 0x6e, 0x73) {
        Some(Error::Invalid)
    } else if be32(data, 4) > data.len() {
        Some(Error::Truncated)
    } else if be32(data, 4) < data.len() {
        Some(Error::Invalid)
    } else {
        None
    }
}

/// Where decoding a container stands.
#[derive(Debug)]
pub enum Decoding {
    /// The PNG payload `data[start .. end]` has to be decoded next.
    Pending { start: usize, end: usize },
    Finished(Result<Vec<RgbaImage>, Error>),
}

/// Where decoding a container stands, as a value.
pub ghost enum Decoded {
    Pending(int, int),
    Finished(Result<Seq<Picture>, Error>),
}

/// What decoding a container gives with the PNG pictures supplied so far.
pub open spec fn decoded(data: Seq<u8>, pngs: Seq<Result<Picture, Error>>) -> Decoded {
    match header_fault(data) {
        Some(fault) => Decoded::Finished(Err(fault)),
        None => match walk(data, 8, nothing(), pngs) {
            Walked::Fault(fault) => Decoded::Finished(Err(fault)),
            Walked::Waits(start, end) => Decoded::Pending(start, end),
            Walked::Gathered(all) => {
                let images = by_area(all.images + legacy_pictures(all));
                if images.len() == 0 && all.unsupported {
                    Decoded::Finished(Err(Error::Unsupported))
                } else {
                    Decoded::Finished(Ok(images))
                }
            },
        },
    }
}

/// The pictures of a list of images.
pub open spec fn pictures(images: Seq<RgbaImage>) -> Seq<Picture> {
    Seq::new(images.len(), |i: int| images[i]@)
}

/// The answers of a list of PNG results.
pub open spec fn answers(pngs: Seq<Result<RgbaImage, Error>>) -> Seq<Result<Picture, Error>> {
    Seq::new(
        pngs.len(),
        |i: int|
            match pngs[i] {
                Ok(image) => Ok(image@),
                Err(fault) => Err(fault),
            },
    )
}

/// The planes of a list of stored planes.
spec fn planes_of(planes: Seq<(u32, Vec<u8>)>) -> Seq<(u32, Seq<u8>)> {
    Seq::new(planes.len(), |i: int| (planes[i].0, planes[i].1@))
}

proof fn plane_is_found(planes: Seq<(u32, Seq<u8>)>, side: u32, at: int)
    requires
        0 <= at < planes.len(),
        planes[at].0 == side,
        forall|i: int| 0 <= i < at ==> (#[trigger] planes[i]).0 != side,
    ensures
        plane_of(planes, side) == Some(planes[at].1),
    decreases at,
{
    if at > 0 {
        assert(planes[0].0 != side);
        let rest = planes.skip(1);
        assert(rest[at - 1] == planes[at]);
        assert forall|i: int| 0 <= i < at - 1 implies (#[trigger] rest[i]).0 != side by {
            assert(rest[i] == planes[i + 1]);
        }
        plane_is_found(rest, side, at - 1);
    }
}

proof fn plane_is_missing(planes: Seq<(u32, Seq<u8>)>, side: u32)
    requires
        forall|i: int| 0 <= i < planes.len() ==> (#[trigger] planes[i]).0 != side,
    ensures
        plane_of(planes, side) is None,
    decreases planes.len(),
{
    if planes.len() > 0 {
        let rest = planes.skip(1);
        assert forall|i: int| 0 <= i < rest.len() implies (#[trigger] rest[i]).0 != side by {
            assert(rest[i] == planes[i + 1]);
        }
        plane_is_missing(rest, side);
    }
}

/// The position of the plane of a side, if it is there.
fn find_plane(planes: &Vec<(u32, Vec<u8>)>, side: u32) -> (found: Option<usize>)
    ensures
        match found {
            Some(at) => at < planes@.len() && plane_of(planes_of(planes@), side) == Some(planes@[at as int].1@),
            None => plane_of(planes_of(planes@), side) is None,
        },
{
    let mut next: usize = 0;
    while next < planes.len()
        invariant
            next <= planes@.len(),
            forall|i: int| 0 <= i < next ==> (#[trigger] planes_of(planes@)[i]).0 != side,
        decreases planes@.len() - next,
    {
        if planes[next].0 == side {
            proof {
                plane_is_found(planes_of(planes@), side, next as int);
            }
            return Some(next);
        }
        next = next + 1;
    }
    proof {
        plane_is_missing(planes_of(planes@), side);
    }
    None
}

/// The image of a legacy entry pair.
fn legacy_image(side: u32, planes: &Vec<u8>, mask: Option<&Vec<u8>>) -> (image: RgbaImage)
    requires
        side <= 128,
        planes@.len() == side * side * 3,
        mask matches Some(alpha) ==> alpha@.len() == side * side,
    ensures
        image@ == legacy_picture(
            side,
            planes@,
            match mask {
                Some(alpha) => Some(alpha@),
                None => None,
            },
        ),
{
    proof {
        assert(side * side <= 16384) by (nonlinear_arith)
            requires
                0 <= side <= 128,
        ;
    }
    let count: usize = side as usize * side as usize;
    let mut pixels: Vec<u8> = Vec::new();
    let ghost wanted = legacy_picture(
        side,
        planes@,
        match mask {
            Some(alpha) => Some(alpha@),
            None => None,
        },
    ).pixels;
    let mut index: usize = 0;
    while index < count
        invariant
            index <= count,
            count == side * side,
            count <= 16384,
            planes@.len() == count * 3,
            mask matches Some(alpha) ==> alpha@.len() == count,
            wanted == legacy_picture(
                side,
                planes@,
                match mask {
                    Some(alpha) => Some(alpha@),
                    None => None,
                },
            ).pixels,
            pixels@ == wanted.take(4 * index as int),
        decreases count - index,
    {
        let alpha: u8 = match mask {
            Some(plane) => plane[index],
            None => 255,
        };
        let ghost had = pixels@;
        pixels.push(planes[index]);
        pixels.push(planes[count + index]);
        pixels.push(planes[count * 2 + index]);
        pixels.push(alpha);
        proof {
            let i = 4 * index as int;
            assert(i % 4 == 0 && (i + 1) % 4 == 1 && (i + 2) % 4 == 2 && (i + 3) % 4 == 3);
            assert(i / 4 == index && (i + 1) / 4 == index && (i + 2) / 4 == index && (i + 3) / 4 == index);
            assert(wanted[i] == planes@[index as int]);
            assert(wanted[i + 1] == planes@[count + index as int]);
            assert(wanted[i + 2] == planes@[2 * count + index as int]);
            assert(wanted[i + 3] == alpha);
            assert(pixels@ =~= wanted.take(4 * (index + 1) as int));
        }
        index = index + 1;
    }
    assert(pixels@ =~= wanted);
    RgbaImage { width: side, height: side, pitch: side * 4, pixels }
}

/// Put an image into a list ordered by area, behind those of the same area.
fn place(images: &mut Vec<RgbaImage>, image: RgbaImage)
    ensures
        pictures(final(images)@) == placed(pictures(old(images)@), image@),
{
    let mut at: usize = images.len();
    let ghost before = pictures(images@);
    proof {
        placing_at_the_start(before, image@);
    }
    while at > 0 && images[at - 1].pixel_count() > image.pixel_count()
        invariant
            at <= images@.len(),
            images@ == old(images)@,
            before == pictures(images@),
            placed(before, image@) == placed(before.take(at as int), image@) + before.skip(at as int),
        decreases at,
    {
        at = at - 1;
        proof {
            let shorter = before.take(at + 1);
            assert(shorter.drop_last() =~= before.take(at as int));
            assert(shorter.last() == before[at as int]);
            assert(placed(before.take(at as int), image@).push(before[at as int]) + before.skip(at + 1)
                =~= placed(before.take(at as int), image@) + before.skip(at as int));
        }
    }
    proof {
        let left = before.take(at as int);
        if at > 0 {
            assert(left.last() == before[at - 1]);
        }
        assert(placed(left, image@) == left.push(image@));
    }
    images.insert(at, image);
    assert(pictures(images@) =~= before.take(at as int).push(image@) + before.skip(at as int));
}

proof fn placing_at_the_start(before: Seq<Picture>, image: Picture)
    ensures
        placed(before, image) == placed(before.take(before.len() as int), image) + before.skip(
            before.len() as int,
        ),
{
    assert(before.take(before.len() as int) =~= before);
    assert(placed(before, image) + before.skip(before.len() as int) =~= placed(before, image));
}

/// Decode every image of a container, smallest first. `pngs` are the pictures of the PNG payloads that were
/// named before, in that order; when the next one is needed the answer names it.
pub fn decode_all(data: &[u8], pngs: &[Result<RgbaImage, Error>]) -> (standing: Decoding)
    ensures
        match standing {
            Decoding::Pending { start, end } => decoded(data@, answers(pngs@)) == Decoded::Pending(
                start as int,
                end as int,
            ) && start <= end <= data@.len(),
            Decoding::Finished(Ok(images)) => decoded(data@, answers(pngs@)) == Decoded::Finished(
                Ok(pictures(images@)),
            ),
            Decoding::Finished(Err(fault)) => decoded(data@, answers(pngs@)) == Decoded::Finished(Err(fault)),
        },
{
    if data.len() < 8 {
        return Decoding::Finished(Err(Error::Truncated));
    }
    let magic: [u8; 4] = [data[0], data[1], data[2], data[3]];
    assert(magic@ =~= data@.subrange(0, 4));
    if !is_kind(&magic, 0x69, 0x63, 0x6e, 0x73) {
        return Decoding::Finished(Err(Error::Invalid));
    }
    let declared: usize = read_be32(data, 4) as usize;
    if declared != data.len() {
        return Decoding::Finished(
            Err(
                if declared > data.len() {
                    Error::Truncated
                } else {
                    Error::Invalid
                },
            ),
        );
    }
    let ghost given = answers(pngs@);
    let ghost whole = walk(data@, 8, nothing(), given);
    let mut cursor: usize = 8;
    let mut images: Vec<RgbaImage> = Vec::new();
    let mut colours: Vec<(u32, Vec<u8>)> = Vec::new();
    let mut masks: Vec<(u32, Vec<u8>)> = Vec::new();
    let mut unsupported = false;
    let mut used: usize = 0;
    let ghost mut so_far = nothing();
    proof {
        assert(pictures(images@) =~= so_far.images);
        assert(planes_of(colours@) =~= so_far.colours);
        assert(planes_of(masks@) =~= so_far.masks);
    }
    while cursor < data.len()
        invariant
            8 <= cursor <= data@.len(),
            header_fault(data@) is None,
            given == answers(pngs@),
            whole == walk(data@, 8, nothing(), given),
            whole == walk(data@, cursor as int, so_far, given),
            so_far.images == pictures(images@),
            so_far.colours == planes_of(colours@),
            so_far.masks == planes_of(masks@),
            so_far.unsupported == unsupported,
            so_far.used == used,
            used <= pngs@.len(),
            forall|i: int|
                0 <= i < colours@.len() ==> (#[trigger] colours@[i]).0 <= 128 && colours@[i].1@.len()
                    == colours@[i].0 * colours@[i].0 * 3,
            forall|i: int|
                0 <= i < masks@.len() ==> (#[trigger] masks@[i]).0 <= 128 && masks@[i].1@.len() == masks@[i].0
                    * masks@[i].0,
        decreases data@.len() - cursor,
    {
        if data.len() - cursor < 8 {
            return Decoding::Finished(Err(Error::Truncated));
        }
        let kind: [u8; 4] = [data[cursor], data[cursor + 1], data[cursor + 2], data[cursor + 3]];
        assert(kind@ =~= data@.subrange(cursor as int, cursor + 4));
        let length: usize = read_be32(data, cursor + 4) as usize;
        if length < 8 {
            return Decoding::Finished(Err(Error::Invalid));
        }
        if length > usize::MAX - cursor {
            return Decoding::Finished(Err(Error::TooLarge));
        }
        let end: usize = cursor + length;
        if end > data.len() {
            return Decoding::Finished(Err(Error::Truncated));
        }
        let payload = vstd::slice::slice_subrange(data, cursor + 8, end);
        let ghost before = so_far;
        if let Some(size) = modern_size(&kind) {
            if is_png(payload) {
                if used >= pngs.len() {
                    return Decoding::Pending { start: cursor + 8, end };
                }
                match &pngs[used] {
                    Err(fault) => {
                        assert(given[used as int] == Err::<Picture, Error>(*fault));
                        return Decoding::Finished(Err(*fault));
                    },
                    Ok(image) => {
                        assert(given[used as int] == Ok::<Picture, Error>(image@));
                        if image.width != size || image.height != size {
                            return Decoding::Finished(Err(Error::Invalid));
                        }
                        let copy = image.duplicate();
                        let ghost had = images@;
                        images.push(copy);
                        used = used + 1;
                        proof {
                            so_far = Gathered {
                                images: before.images.push(copy@),
                                used: before.used + 1,
                                ..before
                            };
                            assert(pictures(images@) =~= pictures(had).push(copy@));
                        }
                    },
                }
            } else {
                unsupported = true;
                proof {
                    so_far = Gathered { unsupported: true, ..before };
                }
            }
        } else if let Some(size) = legacy_color_size(&kind) {
            if find_plane(&colours, size).is_some() {
                return Decoding::Finished(Err(Error::Invalid));
            }
            match decode_legacy_rgb(payload, size) {
                Err(fault) => {
                    return Decoding::Finished(Err(fault));
                },
                Ok(planes) => {
                    let ghost had = colours@;
                    proof {
                        planes_have_their_length(payload@, size);
                    }
                    colours.push((size, planes));
                    proof {
                        so_far = Gathered { colours: before.colours.push((size, planes@)), ..before };
                        assert(planes_of(colours@) =~= planes_of(had).push((size, planes@)));
                    }
                },
            }
        } else if let Some(size) = legacy_mask_size(&kind) {
            proof {
                assert(size * size <= 16384) by (nonlinear_arith)
                    requires
                        0 <= size <= 128,
                ;
            }
            let expected: usize = size as usize * size as usize;
            if payload.len() != expected || find_plane(&masks, size).is_some() {
                return Decoding::Finished(
                    Err(
                        if payload.len() < expected {
                            Error::Truncated
                        } else {
                            Error::Invalid
                        },
                    ),
                );
            }
            let mut mask: Vec<u8> = Vec::new();
            append(&mut mask, payload, 0, payload.len());
            assert(mask@ =~= payload@);
            let ghost had = masks@;
            masks.push((size, mask));
            proof {
                so_far = Gathered { masks: before.masks.push((size, mask@)), ..before };
                assert(planes_of(masks@) =~= planes_of(had).push((size, mask@)));
            }
        }
        proof {
            assert(take_entry(before, kind@, payload@, given) == Taken::Gathered(so_far));
        }
        cursor = end;
    }
    let ghost modern = so_far.images;
    let ghost legacy = legacy_pictures(so_far);
    let mut ordered: Vec<RgbaImage> = Vec::new();
    let mut next: usize = 0;
    proof {
        assert(modern.take(0) =~= Seq::<Picture>::empty());
        assert(pictures(ordered@) =~= Seq::<Picture>::empty());
    }
    while next < images.len()
        invariant
            next <= images@.len(),
            modern == pictures(images@),
            pictures(ordered@) == by_area(modern.take(next as int)),
        decreases images@.len() - next,
    {
        let image = images[next].duplicate();
        place(&mut ordered, image);
        proof {
            let longer = modern.take(next + 1);
            assert(longer.drop_last() =~= modern.take(next as int));
            assert(longer.last() == modern[next as int]);
        }
        next = next + 1;
    }
    let mut index: usize = 0;
    proof {
        assert(modern.take(images@.len() as int) =~= modern);
        assert(modern + legacy.take(0) =~= modern);
    }
    while index < colours.len()
        invariant
            index <= colours@.len(),
            so_far.colours == planes_of(colours@),
            so_far.masks == planes_of(masks@),
            legacy == legacy_pictures(so_far),
            pictures(ordered@) == by_area(modern + legacy.take(index as int)),
            forall|i: int|
                0 <= i < colours@.len() ==> (#[trigger] colours@[i]).0 <= 128 && colours@[i].1@.len()
                    == colours@[i].0 * colours@[i].0 * 3,
            forall|i: int|
                0 <= i < masks@.len() ==> (#[trigger] masks@[i]).0 <= 128 && masks@[i].1@.len() == masks@[i].0
                    * masks@[i].0,
        decreases colours@.len() - index,
    {
        let size: u32 = colours[index].0;
        let found = find_plane(&masks, size);
        let mask: Option<&Vec<u8>> = match found {
            Some(at) => {
                proof {
                    found_plane_is_of_its_side(planes_of(masks@), size);
                }
                Some(&masks[at].1)
            },
            None => None,
        };
        let image = legacy_image(size, &colours[index].1, mask);
        assert(so_far.colours[index as int] == (size, colours@[index as int].1@));
        assert(image@ == legacy[index as int]);
        place(&mut ordered, image);
        proof {
            let longer = modern + legacy.take(index + 1);
            assert(longer.drop_last() =~= modern + legacy.take(index as int));
            assert(longer.last() == legacy[index as int]);
        }
        index = index + 1;
    }
    proof {
        assert(legacy.take(colours@.len() as int) =~= legacy);
        assert(pictures(ordered@).len() == ordered@.len());
    }
    if ordered.len() == 0 && unsupported {
        return Decoding::Finished(Err(Error::Unsupported));
    }
    Decoding::Finished(Ok(ordered))
}

proof fn unpacked_has_its_length(input: Seq<u8>, at: int, need: int)
    requires
        need >= 0,
        at >= 0,
    ensures
        unpacked(input, at, need) matches Ok((bytes, end)) ==> bytes.len() == need && end >= at,
    decreases need,
{
    if need > 0 && at < input.len() {
        let length = if input[at] >= 0x80 {
            input[at] - 0x80 + 3
        } else {
            input[at] + 1
        };
        if length <= need {
            let next = if input[at] >= 0x80 {
                at + 2
            } else {
                at + 1 + length
            };
            unpacked_has_its_length(input, next, need - length);
        }
    }
}

proof fn planes_have_their_length(payload: Seq<u8>, side: u32)
    ensures
        legacy_planes(payload, side) matches Ok(planes) ==> planes.len() == side * side * 3,
{
    reveal(legacy_planes);
    let count = side * side;
    assert(count >= 0) by (nonlinear_arith)
        requires
            count == side * side,
    ;
    let coded = if side == 128 && payload.len() >= 4 && payload[0] == 0 && payload[1] == 0 && payload[2] == 0
        && payload[3] == 0 {
        payload.skip(4)
    } else {
        payload
    };
    unpacked_has_its_length(coded, 0, count);
    if let Ok((_, second)) = unpacked(coded, 0, count) {
        unpacked_has_its_length(coded, second, count);
        if let Ok((_, third)) = unpacked(coded, second, count) {
            unpacked_has_its_length(coded, third, count);
        }
    }
}

proof fn found_plane_is_of_its_side(planes: Seq<(u32, Seq<u8>)>, side: u32)
    ensures
        plane_of(planes, side) matches Some(plane) ==> exists|i: int|
            0 <= i < planes.len() && #[trigger] planes[i] == (side, plane),
    decreases planes.len(),
{
    if planes.len() > 0 && planes[0].0 != side {
        let rest = planes.skip(1);
        found_plane_is_of_its_side(rest, side);
        if let Some(plane) = plane_of(rest, side) {
            let i = choose|i: int| 0 <= i < rest.len() && #[trigger] rest[i] == (side, plane);
            assert(planes[i + 1] == (side, plane));
        }
    }
}

/// The picture of the greatest area, the last of them where several share it.
pub open spec fn greatest(images: Seq<Picture>) -> Picture
    recommends
        images.len() > 0,
    decreases images.len(),
{
    if images.len() <= 1 {
        images[0]
    } else {
        let best = greatest(images.drop_last());
        if images.last().area() >= best.area() {
            images.last()
        } else {
            best
        }
    }
}

/// Where decoding the best image of a container stands.
#[derive(Debug)]
pub enum DecodingBest {
    /// The PNG payload `data[start .. end]` has to be decoded next.
    Pending { start: usize, end: usize },
    Finished(Result<RgbaImage, Error>),
}

/// Decode the largest image of a container, with the PNG pictures supplied so far.
pub fn decode(data: &[u8], pngs: &[Result<RgbaImage, Error>]) -> (standing: DecodingBest)
    ensures
        match decoded(data@, answers(pngs@)) {
            Decoded::Pending(start, end) => standing matches DecodingBest::Pending { start: s, end: e } && s
                == start && e == end,
            Decoded::Finished(Err(fault)) => standing == DecodingBest::Finished(Err(fault)),
            Decoded::Finished(Ok(images)) => if images.len() == 0 {
                standing == DecodingBest::Finished(Err(Error::Unsupported))
            } else {
                standing matches DecodingBest::Finished(Ok(image)) && image@ == greatest(images)
            },
        },
{
    match decode_all(data, pngs) {
        Decoding::Pending { start, end } => DecodingBest::Pending { start, end },
        Decoding::Finished(Err(fault)) => DecodingBest::Finished(Err(fault)),
        Decoding::Finished(Ok(images)) => {
            let ghost all = pictures(images@);
            assert(all.len() == images@.len());
            if images.len() == 0 {
                return DecodingBest::Finished(Err(Error::Unsupported));
            }
            let mut best: usize = 0;
            let mut next: usize = 1;
            proof {
                assert(all.take(1).len() == 1 && all.take(1)[0] == all[0]);
            }
            while next < images.len()
                invariant
                    1 <= next <= images@.len(),
                    best < next,
                    all == pictures(images@),
                    images@[best as int]@ == greatest(all.take(next as int)),
                decreases images@.len() - next,
            {
                proof {
                    let longer = all.take(next + 1);
                    assert(longer.drop_last() =~= all.take(next as int));
                    assert(longer.last() == all[next as int]);
                }
                if images[next].pixel_count() >= images[best].pixel_count() {
                    best = next;
                }
                next = next + 1;
            }
            assert(all.take(images@.len() as int) =~= all);
            DecodingBest::Finished(Ok(images[best].duplicate()))
        },
    }
}

// ---------------------------------------------------------------------------------------------
// Writing the container.
// ---------------------------------------------------------------------------------------------
/// One entry of a container.
#[verifier::ext_equal]
pub ghost struct Entry {
    pub kind: Seq<u8>,
    pub payload: Seq<u8>,
}

/// Whether a list of entries has one of a type.
pub open spec fn has_kind(entries: Seq<Entry>, kind: Seq<u8>) -> bool {
    exists|i: int| 0 <= i < entries.len() && (#[trigger] entries[i]).kind == kind
}

/// What adding an image to a container does.
pub ghost enum Added {
    Fault(Error),
    /// The image's PNG file has not been supplied yet.
    Waits,
    Entries(Seq<Entry>, int),
}

/// Add one image: a small one as its coded colours and its alpha, a large one as the PNG file supplied for
/// it. A side that has been added already is refused.
pub open spec fn add_image(
    entries: Seq<Entry>,
    image: Picture,
    files: Seq<Result<Seq<u8>, Error>>,
    used: int,
) -> Added {
    if image.width != image.height {
        Added::Fault(Error::Unsupported)
    } else if let Some((colour, mask)) = legacy_kinds(image.width) {
        if has_kind(entries, colour) || has_kind(entries, mask) {
            Added::Fault(Error::Invalid)
        } else {
            match legacy_colours(image) {
                Err(fault) => Added::Fault(fault),
                Ok(coded) => Added::Entries(
                    entries.push(Entry { kind: colour, payload: coded }).push(
                        Entry { kind: mask, payload: channel(image.pixels, 3) },
                    ),
                    used,
                ),
            }
        }
    } else if let Some(kind) = modern_kind(image.width) {
        if has_kind(entries, kind) {
            Added::Fault(Error::Invalid)
        } else if used >= files.len() {
            Added::Waits
        } else {
            match files[used] {
                Err(fault) => Added::Fault(fault),
                Ok(file) => Added::Entries(entries.push(Entry { kind, payload: file }), used + 1),
            }
        }
    } else {
        Added::Fault(Error::Unsupported)
    }
}

/// What adding images one after the other leads to.
pub ghost enum Collected {
    Fault(Error),
    /// The position of the image whose PNG file is needed next.
    Waits(int),
    Entries(Seq<Entry>, int),
}

/// Add images one after the other, in order.
pub open spec fn collected(images: Seq<Picture>, files: Seq<Result<Seq<u8>, Error>>) -> Collected
    decreases images.len(),
{
    if images.len() == 0 {
        Collected::Entries(Seq::empty(), 0)
    } else {
        match collected(images.drop_last(), files) {
            Collected::Fault(fault) => Collected::Fault(fault),
            Collected::Waits(at) => Collected::Waits(at),
            Collected::Entries(entries, used) => match add_image(entries, images.last(), files, used) {
                Added::Fault(fault) => Collected::Fault(fault),
                Added::Waits => Collected::Waits(images.len() - 1),
                Added::Entries(more, now) => Collected::Entries(more, now),
            },
        }
    }
}

/// Put an entry into a list ordered by type, behind those of the same type.
pub open spec fn filed_into(ordered: Seq<Entry>, entry: Entry) -> Seq<Entry>
    decreases ordered.len(),
{
    if ordered.len() == 0 || be32(ordered.last().kind, 0) <= be32(entry.kind, 0) {
        ordered.push(entry)
    } else {
        filed_into(ordered.drop_last(), entry).push(ordered.last())
    }
}

/// The entries ordered by the bytes of their types.
pub open spec fn filed(entries: Seq<Entry>) -> Seq<Entry>
    decreases entries.len(),
{
    if entries.len() == 0 {
        Seq::empty()
    } else {
        filed_into(filed(entries.drop_last()), entries.last())
    }
}

/// The four bytes of a number, the most significant first.
pub open spec fn be_bytes(value: int) -> Seq<u8> {
    tag(
        (value / 0x100_0000 % 0x100) as u8,
        (value / 0x1_0000 % 0x100) as u8,
        (value / 0x100 % 0x100) as u8,
        (value % 0x100) as u8,
    )
}

/// The bytes of one entry: its type, its length with these eight bytes, its payload.
pub open spec fn entry_bytes(entry: Entry) -> Seq<u8> {
    entry.kind + be_bytes(entry.payload.len() as int + 8) + entry.payload
}

/// The bytes of entries, one after the other.
pub open spec fn body(entries: Seq<Entry>) -> Seq<u8>
    decreases entries.len(),
{
    if entries.len() == 0 {
        Seq::empty()
    } else {
        body(entries.drop_last()) + entry_bytes(entries.last())
    }
}

/// A container of entries: its own type, its length, and the entries.
pub open spec fn container(entries: Seq<Entry>) -> Seq<u8> {
    tag(0x69, 0x63, 0x6e, 0x73) + be_bytes(body(entries).len() as int + 8) + body(entries)
}

/// Where encoding a container stands.
#[derive(Debug)]
pub enum Encoding {
    /// The PNG file of the image at this position is needed next.
    Pending { image: usize },
    Finished(Result<Vec<u8>, Error>),
}

/// Where encoding a container stands, as a value.
pub ghost enum Encoded {
    Pending(int),
    Finished(Result<Seq<u8>, Error>),
}

/// What encoding images gives with the PNG files supplied so far.
pub open spec fn encoded(images: Seq<Picture>, files: Seq<Result<Seq<u8>, Error>>) -> Encoded {
    if images.len() == 0 || images.len() > 16 {
        Encoded::Finished(Err(Error::Invalid))
    } else {
        match collected(images, files) {
            Collected::Fault(fault) => Encoded::Finished(Err(fault)),
            Collected::Waits(at) => Encoded::Pending(at),
            Collected::Entries(entries, _) => if body(filed(entries)).len() + 8 > u32::MAX {
                Encoded::Finished(Err(Error::TooLarge))
            } else {
                Encoded::Finished(Ok(container(filed(entries))))
            },
        }
    }
}

/// The PNG files of a list of results.
pub open spec fn supplied(files: Seq<Result<Vec<u8>, Error>>) -> Seq<Result<Seq<u8>, Error>> {
    Seq::new(
        files.len(),
        |i: int|
            match files[i] {
                Ok(file) => Ok(file@),
                Err(fault) => Err(fault),
            },
    )
}

/// An entry being written.
struct Piece {
    kind: [u8; 4],
    payload: Vec<u8>,
}

impl Piece {
    spec fn entry(self) -> Entry {
        Entry { kind: self.kind@, payload: self.payload@ }
    }

    fn code(&self) -> (code: u32)
        ensures
            code == be32(self.kind@, 0),
    {
        self.kind[0] as u32 * 0x100_0000 + self.kind[1] as u32 * 0x1_0000 + self.kind[2] as u32 * 0x100
            + self.kind[3] as u32
    }
}

spec fn entries_of(pieces: Seq<Piece>) -> Seq<Entry> {
    Seq::new(pieces.len(), |i: int| pieces[i].entry())
}

/// Whether a piece of this type has been written.
fn has_piece(pieces: &Vec<Piece>, kind: &[u8; 4]) -> (yes: bool)
    ensures
        yes == has_kind(entries_of(pieces@), kind@),
{
    let mut next: usize = 0;
    while next < pieces.len()
        invariant
            next <= pieces@.len(),
            forall|i: int| 0 <= i < next ==> (#[trigger] entries_of(pieces@)[i]).kind != kind@,
        decreases pieces@.len() - next,
    {
        let piece = &pieces[next];
        if is_kind(&piece.kind, kind[0], kind[1], kind[2], kind[3]) {
            proof {
                assert(kind@ =~= tag(kind@[0], kind@[1], kind@[2], kind@[3]));
                assert(entries_of(pieces@)[next as int].kind == kind@);
            }
            return true;
        }
        proof {
            assert(kind@ =~= tag(kind@[0], kind@[1], kind@[2], kind@[3]));
            assert(entries_of(pieces@)[next as int].kind == pieces@[next as int].kind@);
        }
        next = next + 1;
    }
    false
}

/// Put a piece into a list ordered by type, behind those of the same type.
fn file_piece(pieces: &mut Vec<Piece>, piece: Piece)
    ensures
        entries_of(final(pieces)@) == filed_into(entries_of(old(pieces)@), piece.entry()),
{
    let mut at: usize = pieces.len();
    let ghost before = entries_of(pieces@);
    let ghost entry = piece.entry();
    proof {
        assert(before.take(before.len() as int) =~= before);
        assert(filed_into(before, entry) + before.skip(before.len() as int) =~= filed_into(before, entry));
    }
    while at > 0 && pieces[at - 1].code() > piece.code()
        invariant
            at <= pieces@.len(),
            pieces@ == old(pieces)@,
            before == entries_of(pieces@),
            entry == piece.entry(),
            filed_into(before, entry) == filed_into(before.take(at as int), entry) + before.skip(at as int),
        decreases at,
    {
        at = at - 1;
        proof {
            let shorter = before.take(at + 1);
            assert(shorter.drop_last() =~= before.take(at as int));
            assert(shorter.last() == before[at as int]);
            assert(filed_into(before.take(at as int), entry).push(before[at as int]) + before.skip(at + 1)
                =~= filed_into(before.take(at as int), entry) + before.skip(at as int));
        }
    }
    proof {
        let left = before.take(at as int);
        if at > 0 {
            assert(left.last() == before[at - 1]);
        }
        assert(filed_into(left, entry) == left.push(entry));
    }
    pieces.insert(at, piece);
    assert(entries_of(pieces@) =~= before.take(at as int).push(entry) + before.skip(at as int));
}

/// Append a number's four bytes, the most significant first.
fn append_be32(output: &mut Vec<u8>, value: u32)
    ensures
        final(output)@ == old(output)@ + be_bytes(value as int),
{
    output.push((value / 0x100_0000 % 0x100) as u8);
    output.push((value / 0x1_0000 % 0x100) as u8);
    output.push((value / 0x100 % 0x100) as u8);
    output.push((value % 0x100) as u8);
    assert(output@ =~= old(output)@ + be_bytes(value as int));
}

proof fn body_grows(entries: Seq<Entry>, upto: int)
    requires
        0 <= upto < entries.len(),
    ensures
        body(entries.take(upto + 1)) == body(entries.take(upto)) + entry_bytes(entries[upto]),
        body(entries.take(upto)).len() <= body(entries).len(),
        body(entries.take(upto + 1)).len() <= body(entries).len(),
    decreases entries.len() - upto,
{
    let longer = entries.take(upto + 1);
    assert(longer.drop_last() =~= entries.take(upto));
    assert(longer.last() == entries[upto]);
    if upto + 1 < entries.len() {
        body_grows(entries, upto + 1);
    } else {
        assert(longer =~= entries);
    }
}

/// Encode images into a container. `files` are the PNG files of the images that were named before, in that
/// order; when the next one is needed the answer names its image.
pub fn encode(images: &[RgbaImage], files: &[Result<Vec<u8>, Error>]) -> (standing: Encoding)
    ensures
        match standing {
            Encoding::Pending { image } => encoded(pictures(images@), supplied(files@)) == Encoded::Pending(
                image as int,
            ) && image < images@.len(),
            Encoding::Finished(Ok(bytes)) => encoded(pictures(images@), supplied(files@))
                == Encoded::Finished(Ok(bytes@)),
            Encoding::Finished(Err(fault)) => encoded(pictures(images@), supplied(files@))
                == Encoded::Finished(Err(fault)),
        },
{
    let ghost all = pictures(images@);
    let ghost given = supplied(files@);
    if images.len() == 0 || images.len() > 16 {
        return Encoding::Finished(Err(Error::Invalid));
    }
    let mut pieces: Vec<Piece> = Vec::new();
    let mut used: usize = 0;
    let mut next: usize = 0;
    let ghost whole = collected(all, given);
    proof {
        assert(entries_of(pieces@) =~= Seq::<Entry>::empty());
        assert(all.take(0) =~= Seq::<Picture>::empty());
    }
    while next < images.len()
        invariant
            next <= images@.len() <= 16,
            images@.len() > 0,
            all == pictures(images@),
            given == supplied(files@),
            used <= files@.len(),
            collected(all.take(next as int), given) == Collected::Entries(entries_of(pieces@), used as int),
        decreases images@.len() - next,
    {
        let image = &images[next];
        let ghost had = entries_of(pieces@);
        let ghost longer = all.take(next + 1);
        proof {
            assert(longer.drop_last() =~= all.take(next as int));
            assert(longer.last() == image@);
        }
        if image.width != image.height {
            proof {
                collecting_goes_on(all, given, next + 1);
            }
            return Encoding::Finished(Err(Error::Unsupported));
        }
        if let Some((colour, mask)) = legacy_kinds_for_size(image.width) {
            if has_piece(&pieces, &colour) || has_piece(&pieces, &mask) {
                proof {
                    collecting_goes_on(all, given, next + 1);
                }
                return Encoding::Finished(Err(Error::Invalid));
            }
            match encode_legacy_rgb(image) {
                Err(fault) => {
                    proof {
                        collecting_goes_on(all, given, next + 1);
                    }
                    return Encoding::Finished(Err(fault));
                },
                Ok(coded) => {
                    let alpha = channel_of(&image.pixels, 3);
                    let ghost first = Entry { kind: colour@, payload: coded@ };
                    let ghost second = Entry { kind: mask@, payload: alpha@ };
                    pieces.push(Piece { kind: colour, payload: coded });
                    pieces.push(Piece { kind: mask, payload: alpha });
                    assert(entries_of(pieces@) =~= had.push(first).push(second));
                },
            }
        } else {
            match modern_kind_for_size(image.width) {
                None => {
                    proof {
                        collecting_goes_on(all, given, next + 1);
                    }
                    return Encoding::Finished(Err(Error::Unsupported));
                },
                Some(kind) => {
                    if has_piece(&pieces, &kind) {
                        proof {
                            collecting_goes_on(all, given, next + 1);
                        }
                        return Encoding::Finished(Err(Error::Invalid));
                    }
                    if used >= files.len() {
                        proof {
                            collecting_goes_on(all, given, next + 1);
                        }
                        return Encoding::Pending { image: next };
                    }
                    match &files[used] {
                        Err(fault) => {
                            proof {
                                assert(given[used as int] == Err::<Seq<u8>, Error>(*fault));
                                collecting_goes_on(all, given, next + 1);
                            }
                            return Encoding::Finished(Err(*fault));
                        },
                        Ok(file) => {
                            assert(given[used as int] == Ok::<Seq<u8>, Error>(file@));
                            let mut payload: Vec<u8> = Vec::new();
                            append(&mut payload, file.as_slice(), 0, file.len());
                            assert(payload@ =~= file@);
                            let ghost entry = Entry { kind: kind@, payload: payload@ };
                            pieces.push(Piece { kind, payload });
                            assert(entries_of(pieces@) =~= had.push(entry));
                            used = used + 1;
                        },
                    }
                },
            }
        }
        next = next + 1;
    }
    assert(all.take(images@.len() as int) =~= all);
    let ghost entries = entries_of(pieces@);
    let mut ordered: Vec<Piece> = Vec::new();
    proof {
        assert(entries_of(ordered@) =~= Seq::<Entry>::empty());
        assert(entries.take(0) =~= Seq::<Entry>::empty());
    }
    let mut index: usize = 0;
    while index < pieces.len()
        invariant
            index <= pieces@.len(),
            entries == entries_of(pieces@),
            entries_of(ordered@) == filed(entries.take(index as int)),
        decreases pieces@.len() - index,
    {
        let piece = &pieces[index];
        let mut payload: Vec<u8> = Vec::new();
        append(&mut payload, piece.payload.as_slice(), 0, piece.payload.len());
        assert(payload@ =~= piece.payload@);
        let copy = Piece { kind: [piece.kind[0], piece.kind[1], piece.kind[2], piece.kind[3]], payload };
        assert(copy.kind@ =~= piece.kind@);
        file_piece(&mut ordered, copy);
        proof {
            let longer = entries.take(index + 1);
            assert(longer.drop_last() =~= entries.take(index as int));
            assert(longer.last() == entries[index as int]);
        }
        index = index + 1;
    }
    assert(entries.take(pieces@.len() as int) =~= entries);
    let ghost written = entries_of(ordered@);
    let mut total: u64 = 8;
    let mut at: usize = 0;
    assert(written.take(0) =~= Seq::<Entry>::empty());
    while at < ordered.len()
        invariant
            at <= ordered@.len(),
            written == entries_of(ordered@),
            written == filed(entries),
            total == body(written.take(at as int)).len() + 8,
            total <= u32::MAX,
            images@.len() > 0,
            images@.len() <= 16,
            collected(all, given) == Collected::Entries(entries, used as int),
            all == pictures(images@),
            given == supplied(files@),
        decreases ordered@.len() - at,
    {
        let length: usize = ordered[at].payload.len();
        proof {
            body_grows(written, at as int);
            assert(written[at as int].kind.len() == 4);
        }
        if length as u64 > u32::MAX as u64 - total || length as u64 + 8 > u32::MAX as u64 - total {
            return Encoding::Finished(Err(Error::TooLarge));
        }
        total = total + length as u64 + 8;
        at = at + 1;
    }
    assert(written.take(ordered@.len() as int) =~= written);
    let mut output: Vec<u8> = Vec::new();
    output.push(0x69);
    output.push(0x63);
    output.push(0x6e);
    output.push(0x73);
    append_be32(&mut output, total as u32);
    let ghost head = output@;
    assert(head =~= tag(0x69, 0x63, 0x6e, 0x73) + be_bytes(total as int));
    let mut place: usize = 0;
    assert(written.take(0) =~= Seq::<Entry>::empty());
    assert(head + Seq::<u8>::empty() =~= head);
    while place < ordered.len()
        invariant
            place <= ordered@.len(),
            written == entries_of(ordered@),
            body(written).len() + 8 <= u32::MAX,
            output@ == head + body(written.take(place as int)),
        decreases ordered@.len() - place,
    {
        proof {
            body_grows(written, place as int);
        }
        let ghost had = output@;
        let piece = &ordered[place];
        let kind: [u8; 4] = piece.kind;
        output.push(kind[0]);
        output.push(kind[1]);
        output.push(kind[2]);
        output.push(kind[3]);
        assert(output@ =~= had + kind@);
        append_be32(&mut output, piece.payload.len() as u32 + 8);
        append(&mut output, piece.payload.as_slice(), 0, piece.payload.len());
        proof {
            assert(piece.payload@.subrange(0, piece.payload@.len() as int) =~= piece.payload@);
            assert(output@ =~= had + entry_bytes(written[place as int]));
            assert(output@ =~= head + body(written.take(place + 1)));
        }
        place = place + 1;
    }
    assert(output@ =~= container(written));
    Encoding::Finished(Ok(output))
}

/// A list of images stops being added at its first fault or first missing file.
proof fn collecting_goes_on(images: Seq<Picture>, files: Seq<Result<Seq<u8>, Error>>, upto: int)
    requires
        0 <= upto <= images.len(),
        !(collected(images.take(upto), files) is Entries),
    ensures
        collected(images, files) == collected(images.take(upto), files),
    decreases images.len() - upto,
{
    if upto < images.len() {
        let longer = images.take(upto + 1);
        assert(longer.drop_last() =~= images.take(upto));
        collecting_goes_on(images, files, upto + 1);
    } else {
        assert(images.take(upto) =~= images);
    }
}

// ---------------------------------------------------------------------------------------------
// Reading back what was written.
// ---------------------------------------------------------------------------------------------
proof fn be_bytes_read_back(value: int)
    requires
        0 <= value <= u32::MAX,
    ensures
        be32(be_bytes(value), 0) == value,
{
}

/// Where an entry's bytes stand in a body.
proof fn segment(entries: Seq<Entry>, k: int)
    requires
        0 <= k < entries.len(),
    ensures
        body(entries.take(k + 1)) == body(entries.take(k)) + entry_bytes(entries[k]),
        body(entries.take(k + 1)).len() <= body(entries).len(),
        body(entries).subrange(
            body(entries.take(k)).len() as int,
            body(entries.take(k + 1)).len() as int,
        ) == entry_bytes(entries[k]),
    decreases entries.len(),
{
    body_grows(entries, k);
    let (from, to) = (body(entries.take(k)).len() as int, body(entries.take(k + 1)).len() as int);
    if k == entries.len() - 1 {
        assert(entries.take(k + 1) =~= entries);
        assert(entries.drop_last() =~= entries.take(k));
        assert(body(entries).subrange(from, to) =~= entry_bytes(entries[k]));
    } else {
        let shorter = entries.drop_last();
        segment(shorter, k);
        assert(shorter.take(k) =~= entries.take(k));
        assert(shorter.take(k + 1) =~= entries.take(k + 1));
        assert(body(entries) == body(shorter) + entry_bytes(entries.last()));
        assert(body(entries).subrange(from, to) =~= body(shorter).subrange(from, to));
    }
}

/// What entries make when they are taken in one after the other.
pub open spec fn absorbed(entries: Seq<Entry>, pngs: Seq<Result<Picture, Error>>) -> Taken
    decreases entries.len(),
{
    if entries.len() == 0 {
        Taken::Gathered(nothing())
    } else {
        match absorbed(entries.drop_last(), pngs) {
            Taken::Gathered(so_far) => take_entry(so_far, entries.last().kind, entries.last().payload, pngs),
            stopped => stopped,
        }
    }
}

/// A written container has a header without a fault.
proof fn a_container_has_a_header(entries: Seq<Entry>)
    requires
        body(entries).len() + 8 <= u32::MAX,
    ensures
        header_fault(container(entries)) is None,
        container(entries).len() == body(entries).len() + 8,
{
    let data = container(entries);
    let total = body(entries).len() as int + 8;
    let length = be_bytes(total);
    assert(data.subrange(0, 4) =~= tag(0x69, 0x63, 0x6e, 0x73));
    be_bytes_read_back(total);
    assert(data[4] == length[0] && data[5] == length[1] && data[6] == length[2] && data[7] == length[3]);
}

/// The parts of an entry's bytes.
proof fn parts_of_an_entry(entry: Entry, data: Seq<u8>, at: int)
    requires
        entry.kind.len() == 4,
        entry.payload.len() + 8 <= u32::MAX,
        0 <= at,
        at + entry_bytes(entry).len() <= data.len() <= u32::MAX,
        data.subrange(at, at + entry_bytes(entry).len()) == entry_bytes(entry),
    ensures
        entry_end(data, at) == Ok::<int, Error>(at + entry_bytes(entry).len()),
        data.subrange(at, at + 4) == entry.kind,
        data.subrange(at + 8, at + entry_bytes(entry).len()) == entry.payload,
{
    let bytes = entry_bytes(entry);
    let window = data.subrange(at, at + bytes.len());
    let length = be_bytes(entry.payload.len() as int + 8);
    assert(bytes.len() == 8 + entry.payload.len());
    let kind = data.subrange(at, at + 4);
    assert forall|i: int| 0 <= i < 4 implies #[trigger] kind[i] == entry.kind[i] by {
        assert(window[i] == bytes[i]);
    }
    assert(kind =~= entry.kind);
    be_bytes_read_back(entry.payload.len() as int + 8);
    assert(window[4] == bytes[4] && window[5] == bytes[5] && window[6] == bytes[6] && window[7] == bytes[7]);
    assert(bytes[4] == length[0] && bytes[5] == length[1] && bytes[6] == length[2] && bytes[7] == length[3]);
    assert(be32(data, at + 4) == entry.payload.len() + 8);
    let payload = data.subrange(at + 8, at + bytes.len());
    assert forall|i: int| 0 <= i < entry.payload.len() implies #[trigger] payload[i] == entry.payload[i] by {
        assert(window[8 + i] == bytes[8 + i]);
    }
    assert(payload =~= entry.payload);
}

/// Reading the container of some entries takes in exactly those entries, in order.
pub proof fn a_container_reads_back_its_entries(
    entries: Seq<Entry>,
    pngs: Seq<Result<Picture, Error>>,
    k: int,
)
    requires
        0 <= k <= entries.len(),
        forall|i: int| 0 <= i < entries.len() ==> (#[trigger] entries[i]).kind.len() == 4,
        body(entries).len() + 8 <= u32::MAX,
        forall|i: int| 0 <= i <= k ==> (#[trigger] absorbed(entries.take(i), pngs)) is Gathered,
    ensures
        walk(container(entries), 8, nothing(), pngs) == walk(
            container(entries),
            8 + body(entries.take(k)).len() as int,
            absorbed(entries.take(k), pngs)->Gathered_0,
            pngs,
        ),
    decreases k,
{
    if k == 0 {
        assert(entries.take(0) =~= Seq::<Entry>::empty());
    } else {
        assert(absorbed(entries.take(k - 1), pngs) is Gathered);
        a_container_reads_back_its_entries(entries, pngs, k - 1);
        a_container_has_a_header(entries);
        segment(entries, k - 1);
        let data = container(entries);
        let entry = entries[k - 1];
        let at = 8 + body(entries.take(k - 1)).len() as int;
        let end = 8 + body(entries.take(k)).len() as int;
        assert(data.subrange(at, end) =~= body(entries).subrange(at - 8, end - 8));
        parts_of_an_entry(entry, data, at);
        let longer = entries.take(k);
        assert(longer.drop_last() =~= entries.take(k - 1));
        assert(longer.last() == entry);
        assert(absorbed(longer, pngs) is Gathered);
    }
}

/// Whether no two entries have one type.
pub open spec fn distinct(entries: Seq<Entry>) -> bool {
    forall|i: int, j: int|
        0 <= i < j < entries.len() ==> (#[trigger] entries[i]).kind != (#[trigger] entries[j]).kind
}

/// How many images a list of entries shows: every entry but an alpha plane shows one.
pub open spec fn shown(entries: Seq<Entry>) -> int
    decreases entries.len(),
{
    if entries.len() == 0 {
        0
    } else {
        shown(entries.drop_last()) + if mask_side(entries.last().kind) is Some {
            0int
        } else {
            1
        }
    }
}

/// How many of a list of entries are of a modern type.
pub open spec fn modern_count(entries: Seq<Entry>) -> int
    decreases entries.len(),
{
    if entries.len() == 0 {
        0
    } else {
        modern_count(entries.drop_last()) + if modern_side(entries.last().kind) is Some {
            1int
        } else {
            0
        }
    }
}

proof fn filing_keeps_entries(ordered: Seq<Entry>, entry: Entry)
    ensures
        filed_into(ordered, entry).len() == ordered.len() + 1,
        forall|e: Entry|
            #[trigger] filed_into(ordered, entry).contains(e) <==> ordered.contains(e) || e == entry,
        shown(filed_into(ordered, entry)) == shown(ordered) + if mask_side(entry.kind) is Some {
            0int
        } else {
            1
        },
        distinct(ordered) && !has_kind(ordered, entry.kind) ==> distinct(filed_into(ordered, entry)),
    decreases ordered.len(),
{
    let result = filed_into(ordered, entry);
    if ordered.len() == 0 || be32(ordered.last().kind, 0) <= be32(entry.kind, 0) {
        assert(result.drop_last() =~= ordered);
        assert forall|e: Entry| #[trigger] result.contains(e) <==> ordered.contains(e) || e == entry by {
            pushed_contains(ordered, entry, e);
        }
        if distinct(ordered) && !has_kind(ordered, entry.kind) {
            assert forall|i: int, j: int| 0 <= i < j < result.len() implies (#[trigger] result[i]).kind != (
            #[trigger] result[j]).kind by {
                if j == ordered.len() {
                    assert(ordered[i].kind != entry.kind);
                } else {
                    assert(ordered[i].kind != ordered[j].kind);
                }
            }
        }
    } else {
        let shorter = ordered.drop_last();
        let last = ordered.last();
        filing_keeps_entries(shorter, entry);
        let inner = filed_into(shorter, entry);
        assert(result == inner.push(last));
        assert(result.drop_last() =~= inner);
        assert(ordered =~= shorter.push(last));
        assert forall|e: Entry| #[trigger] result.contains(e) <==> ordered.contains(e) || e == entry by {
            pushed_contains(inner, last, e);
            pushed_contains(shorter, last, e);
            assert(inner.contains(e) <==> shorter.contains(e) || e == entry);
        }
        if distinct(ordered) && !has_kind(ordered, entry.kind) {
            assert(distinct(shorter)) by {
                assert forall|i: int, j: int| 0 <= i < j < shorter.len() implies (#[trigger] shorter[i]).kind
                    != (#[trigger] shorter[j]).kind by {
                    assert(ordered[i].kind != ordered[j].kind);
                }
            }
            assert(!has_kind(shorter, entry.kind)) by {
                assert forall|i: int| 0 <= i < shorter.len() implies (#[trigger] shorter[i]).kind
                    != entry.kind by {
                    assert(ordered[i].kind != entry.kind);
                }
            }
            assert forall|i: int, j: int| 0 <= i < j < result.len() implies (#[trigger] result[i]).kind != (
            #[trigger] result[j]).kind by {
                if j == inner.len() {
                    assert(inner.contains(inner[i]));
                    if inner[i] == entry {
                        assert(ordered[ordered.len() - 1].kind != entry.kind);
                    } else {
                        assert(shorter.contains(inner[i]));
                        let at = choose|at: int| 0 <= at < shorter.len() && shorter[at] == inner[i];
                        assert(ordered[at].kind != ordered[ordered.len() - 1].kind);
                    }
                } else {
                    assert(inner[i].kind != inner[j].kind);
                }
            }
        }
    }
}

proof fn pushed_contains<A>(items: Seq<A>, item: A, other: A)
    ensures
        items.push(item).contains(other) <==> items.contains(other) || other == item,
{
    let pushed = items.push(item);
    if items.contains(other) {
        let i = choose|i: int| 0 <= i < items.len() && items[i] == other;
        assert(pushed[i] == other);
    }
    if other == item {
        assert(pushed[items.len() as int] == other);
    }
    if pushed.contains(other) && other != item {
        let i = choose|i: int| 0 <= i < pushed.len() && pushed[i] == other;
        assert(items[i] == other);
    }
}

proof fn filed_keeps_entries(entries: Seq<Entry>)
    requires
        distinct(entries),
    ensures
        filed(entries).len() == entries.len(),
        forall|e: Entry| #[trigger] filed(entries).contains(e) <==> entries.contains(e),
        shown(filed(entries)) == shown(entries),
        distinct(filed(entries)),
    decreases entries.len(),
{
    if entries.len() > 0 {
        let shorter = entries.drop_last();
        let last = entries.last();
        assert(distinct(shorter)) by {
            assert forall|i: int, j: int| 0 <= i < j < shorter.len() implies (#[trigger] shorter[i]).kind != (
            #[trigger] shorter[j]).kind by {
                assert(entries[i].kind != entries[j].kind);
            }
        }
        filed_keeps_entries(shorter);
        filing_keeps_entries(filed(shorter), last);
        assert(entries =~= shorter.push(last));
        assert(!has_kind(filed(shorter), last.kind)) by {
            assert forall|i: int| 0 <= i < filed(shorter).len() implies (#[trigger] filed(shorter)[i]).kind
                != last.kind by {
                assert(filed(shorter).contains(filed(shorter)[i]));
                assert(shorter.contains(filed(shorter)[i]));
                let at = choose|at: int| 0 <= at < shorter.len() && shorter[at] == filed(shorter)[i];
                assert(entries[at].kind != entries[entries.len() - 1].kind);
            }
        }
        assert forall|e: Entry| #[trigger] filed(entries).contains(e) <==> entries.contains(e) by {
            pushed_contains(shorter, last, e);
            assert(filed(shorter).contains(e) <==> shorter.contains(e));
        }
    }
}

proof fn placing_keeps_pictures(ordered: Seq<Picture>, image: Picture)
    ensures
        placed(ordered, image).len() == ordered.len() + 1,
        forall|p: Picture|
            #[trigger] placed(ordered, image).contains(p) <==> ordered.contains(p) || p == image,
        by_size(ordered) ==> by_size(placed(ordered, image)),
    decreases ordered.len(),
{
    let result = placed(ordered, image);
    if ordered.len() == 0 || ordered.last().area() <= image.area() {
        assert forall|p: Picture| #[trigger] result.contains(p) <==> ordered.contains(p) || p == image by {
            pushed_contains(ordered, image, p);
        }
        if by_size(ordered) {
            assert forall|i: int, j: int| 0 <= i <= j < result.len() implies (#[trigger] result[i]).area() <= (
            #[trigger] result[j]).area() by {
                if j == ordered.len() && i < j {
                    assert(ordered[i].area() <= ordered[ordered.len() - 1].area());
                } else if i < j {
                    assert(ordered[i].area() <= ordered[j].area());
                }
            }
        }
    } else {
        let shorter = ordered.drop_last();
        let last = ordered.last();
        placing_keeps_pictures(shorter, image);
        let inner = placed(shorter, image);
        assert(ordered =~= shorter.push(last));
        assert forall|p: Picture| #[trigger] result.contains(p) <==> ordered.contains(p) || p == image by {
            pushed_contains(inner, last, p);
            pushed_contains(shorter, last, p);
            assert(inner.contains(p) <==> shorter.contains(p) || p == image);
        }
        if by_size(ordered) {
            assert(by_size(shorter)) by {
                assert forall|i: int, j: int| 0 <= i <= j < shorter.len() implies (#[trigger] shorter[i]).area()
                    <= (#[trigger] shorter[j]).area() by {
                    assert(ordered[i].area() <= ordered[j].area());
                }
            }
            assert forall|i: int, j: int| 0 <= i <= j < result.len() implies (#[trigger] result[i]).area() <= (
            #[trigger] result[j]).area() by {
                if j == inner.len() && i < j {
                    assert(inner.contains(inner[i]));
                    if inner[i] != image {
                        assert(shorter.contains(inner[i]));
                        let at = choose|at: int| 0 <= at < shorter.len() && shorter[at] == inner[i];
                        assert(ordered[at].area() <= ordered[ordered.len() - 1].area());
                    }
                } else if i < j {
                    assert(inner[i].area() <= inner[j].area());
                }
            }
        }
    }
}

/// Whether pictures stand in the order of their areas.
pub open spec fn by_size(images: Seq<Picture>) -> bool {
    forall|i: int, j: int|
        0 <= i <= j < images.len() ==> (#[trigger] images[i]).area() <= (#[trigger] images[j]).area()
}

/// Ordering pictures by area keeps every picture and brings them into order.
pub proof fn ordering_keeps_pictures(images: Seq<Picture>)
    ensures
        by_area(images).len() == images.len(),
        forall|p: Picture| #[trigger] by_area(images).contains(p) <==> images.contains(p),
        by_size(by_area(images)),
    decreases images.len(),
{
    if images.len() > 0 {
        let shorter = images.drop_last();
        ordering_keeps_pictures(shorter);
        placing_keeps_pictures(by_area(shorter), images.last());
        assert(images =~= shorter.push(images.last()));
        assert forall|p: Picture| #[trigger] by_area(images).contains(p) <==> images.contains(p) by {
            pushed_contains(shorter, images.last(), p);
            assert(by_area(shorter).contains(p) <==> shorter.contains(p));
        }
    }
}

/// Whether an entry is one that an image is written as.
pub open spec fn written_for(entry: Entry, image: Picture, files: Seq<Result<Seq<u8>, Error>>) -> bool {
    &&& image.width == image.height
    &&& match legacy_kinds(image.width) {
        Some((colour, mask)) => {
            &&& legacy_colours(image) is Ok
            &&& entry == Entry { kind: colour, payload: legacy_colours(image)->Ok_0 } || entry == Entry {
                kind: mask,
                payload: channel(image.pixels, 3),
            }
        },
        None => {
            &&& modern_kind(image.width) == Some(entry.kind)
            &&& exists|u: int|
                0 <= u < files.len() && #[trigger] files[u] == Ok::<Seq<u8>, Error>(entry.payload)
        },
    }
}

/// Whether an entry is one that some image of a list is written as.
pub open spec fn some_image_is_written(
    entry: Entry,
    images: Seq<Picture>,
    files: Seq<Result<Seq<u8>, Error>>,
) -> bool {
    exists|i: int| 0 <= i < images.len() && written_for(entry, #[trigger] images[i], files)
}

/// Whether all entries of an image are in a list.
pub open spec fn all_written(entries: Seq<Entry>, image: Picture) -> bool {
    &&& image.width == image.height
    &&& match legacy_kinds(image.width) {
        Some((colour, mask)) => {
            &&& legacy_colours(image) is Ok
            &&& entries.contains(Entry { kind: colour, payload: legacy_colours(image)->Ok_0 })
            &&& entries.contains(Entry { kind: mask, payload: channel(image.pixels, 3) })
        },
        None => modern_kind(image.width) is Some && has_kind(entries, modern_kind(image.width)->Some_0),
    }
}

/// What a successful collection has written.
proof fn what_was_collected(images: Seq<Picture>, files: Seq<Result<Seq<u8>, Error>>)
    requires
        collected(images, files) is Entries,
    ensures
        ({
            let entries = collected(images, files)->Entries_0;
            &&& distinct(entries)
            &&& shown(entries) == images.len()
            &&& collected(images, files)->Entries_1 >= 0
            &&& forall|e: int|
                0 <= e < entries.len() ==> some_image_is_written(#[trigger] entries[e], images, files)
            &&& forall|i: int| 0 <= i < images.len() ==> #[trigger] all_written(entries, images[i])
            &&& forall|i: int, j: int|
                0 <= i < j < images.len() ==> (#[trigger] images[i]).width != (#[trigger] images[j]).width
        }),
    decreases images.len(),
{
    if images.len() > 0 {
        let shorter = images.drop_last();
        let image = images.last();
        what_was_collected(shorter, files);
        let before = collected(shorter, files)->Entries_0;
        let used = collected(shorter, files)->Entries_1;
        let entries = collected(images, files)->Entries_0;
        kinds_name_their_side(image.width);
        // No earlier image has this side: its entry would be in the way.
        assert forall|i: int, j: int| 0 <= i < j < images.len() implies (#[trigger] images[i]).width != (
        #[trigger] images[j]).width by {
            if j < images.len() - 1 {
                assert(shorter[i].width != shorter[j].width);
            } else {
                assert(all_written(before, shorter[i]));
                if images[i].width == image.width {
                    if let Some((colour, mask)) = legacy_kinds(image.width) {
                        let e = Entry { kind: colour, payload: legacy_colours(images[i])->Ok_0 };
                        assert(before.contains(e));
                        let at = choose|at: int| 0 <= at < before.len() && before[at] == e;
                        assert(before[at].kind == colour);
                        assert(has_kind(before, colour));
                    }
                }
            }
        }
        match legacy_kinds(image.width) {
            Some((colour, mask)) => {
                let first = Entry { kind: colour, payload: legacy_colours(image)->Ok_0 };
                let second = Entry { kind: mask, payload: channel(image.pixels, 3) };
                let middle = before.push(first);
                assert(entries == middle.push(second));
                assert(entries.drop_last() =~= middle);
                assert(middle.drop_last() =~= before);
                assert(shown(middle) == shown(before) + 1);
                assert(entries[before.len() as int] == first);
                assert(entries[before.len() as int + 1] == second);
                assert(written_for(first, image, files) && written_for(second, image, files));
                assert forall|i: int, j: int| 0 <= i < j < entries.len() implies (#[trigger] entries[i]).kind != (
                #[trigger] entries[j]).kind by {
                    if j < before.len() {
                        assert(before[i].kind != before[j].kind);
                    } else if i < before.len() {
                        assert(before[i].kind != colour && before[i].kind != mask);
                    }
                }
                assert forall|i: int| 0 <= i < images.len() implies #[trigger] all_written(
                    entries,
                    images[i],
                ) by {
                    if i < shorter.len() {
                        assert(all_written(before, shorter[i]));
                        still_written(before, middle, shorter[i]);
                        still_written(middle, entries, shorter[i]);
                    }
                }
                assert forall|e: int| 0 <= e < entries.len() implies some_image_is_written(
                    #[trigger] entries[e],
                    images,
                    files,
                ) by {
                    if e < before.len() {
                        assert(entries[e] == before[e]);
                        assert(some_image_is_written(before[e], shorter, files));
                        let i = choose|i: int|
                            0 <= i < shorter.len() && written_for(before[e], #[trigger] shorter[i], files);
                        assert(written_for(entries[e], images[i], files));
                    } else {
                        assert(written_for(entries[e], images[images.len() - 1], files));
                    }
                }
            },
            None => {
                let kind = modern_kind(image.width)->Some_0;
                let entry = Entry { kind, payload: files[used]->Ok_0 };
                assert(entries == before.push(entry));
                assert(entries.drop_last() =~= before);
                assert(entries[before.len() as int] == entry);
                assert(files[used] == Ok::<Seq<u8>, Error>(entry.payload));
                assert(written_for(entry, image, files));
                assert forall|i: int, j: int| 0 <= i < j < entries.len() implies (#[trigger] entries[i]).kind != (
                #[trigger] entries[j]).kind by {
                    if j < before.len() {
                        assert(before[i].kind != before[j].kind);
                    } else {
                        assert(before[i].kind != kind);
                    }
                }
                assert forall|i: int| 0 <= i < images.len() implies #[trigger] all_written(
                    entries,
                    images[i],
                ) by {
                    if i < shorter.len() {
                        assert(all_written(before, shorter[i]));
                        still_written(before, entries, shorter[i]);
                    } else {
                        assert(has_kind(entries, kind));
                    }
                }
                assert forall|e: int| 0 <= e < entries.len() implies some_image_is_written(
                    #[trigger] entries[e],
                    images,
                    files,
                ) by {
                    if e < before.len() {
                        assert(entries[e] == before[e]);
                        assert(some_image_is_written(before[e], shorter, files));
                        let i = choose|i: int|
                            0 <= i < shorter.len() && written_for(before[e], #[trigger] shorter[i], files);
                        assert(written_for(entries[e], images[i], files));
                    } else {
                        assert(written_for(entries[e], images[images.len() - 1], files));
                    }
                }
            },
        }
    }
}

proof fn still_written(before: Seq<Entry>, after: Seq<Entry>, image: Picture)
    requires
        all_written(before, image),
        after.len() == before.len() + 1,
        after.drop_last() == before,
    ensures
        all_written(after, image),
{
    assert(after =~= before.push(after.last()));
    match legacy_kinds(image.width) {
        Some((colour, mask)) => {
            pushed_contains(
                before,
                after.last(),
                Entry { kind: colour, payload: legacy_colours(image)->Ok_0 },
            );
            pushed_contains(before, after.last(), Entry { kind: mask, payload: channel(image.pixels, 3) });
        },
        None => {
            let kind = modern_kind(image.width)->Some_0;
            let at = choose|at: int| 0 <= at < before.len() && (#[trigger] before[at]).kind == kind;
            assert(after[at].kind == kind);
        },
    }
}

/// Whether the answers a reader gives are the pictures the PNG files were made from: the answer to each
/// modern entry of the file is the written image of that side.
pub open spec fn answers_fit(
    entries: Seq<Entry>,
    images: Seq<Picture>,
    pngs: Seq<Result<Picture, Error>>,
) -> bool {
    forall|k: int|
        0 <= k < entries.len() && modern_side((#[trigger] entries[k]).kind) is Some ==> {
            let turn = modern_count(entries.take(k));
            &&& turn < pngs.len()
            &&& pngs[turn] is Ok
            &&& images.contains(pngs[turn]->Ok_0)
            &&& pngs[turn]->Ok_0.width == modern_side(entries[k].kind)->Some_0
            &&& pngs[turn]->Ok_0.height == modern_side(entries[k].kind)->Some_0
        }
}

/// Whether an entry is the one a colour plane was read from.
spec fn is_colour(entry: Entry, plane: (u32, Seq<u8>)) -> bool {
    colour_side(entry.kind) == Some(plane.0) && legacy_planes(entry.payload, plane.0) == Ok::<
        Seq<u8>,
        Error,
    >(plane.1)
}

/// Whether an entry is the one an alpha plane was read from.
spec fn is_mask(entry: Entry, plane: (u32, Seq<u8>)) -> bool {
    mask_side(entry.kind) == Some(plane.0) && entry.payload == plane.1
}

spec fn colour_listed(entries: Seq<Entry>, plane: (u32, Seq<u8>)) -> bool {
    exists|e: int| 0 <= e < entries.len() && is_colour(#[trigger] entries[e], plane)
}

spec fn mask_listed(entries: Seq<Entry>, plane: (u32, Seq<u8>)) -> bool {
    exists|e: int| 0 <= e < entries.len() && is_mask(#[trigger] entries[e], plane)
}

proof fn listed_in_a_longer_list(before: Seq<Entry>, entry: Entry, plane: (u32, Seq<u8>))
    ensures
        colour_listed(before, plane) || is_colour(entry, plane) ==> colour_listed(before.push(entry), plane),
        mask_listed(before, plane) || is_mask(entry, plane) ==> mask_listed(before.push(entry), plane),
{
    let now = before.push(entry);
    assert(now[before.len() as int] == entry);
    if colour_listed(before, plane) {
        let e = choose|e: int| 0 <= e < before.len() && is_colour(#[trigger] before[e], plane);
        assert(now[e] == before[e]);
    }
    if mask_listed(before, plane) {
        let e = choose|e: int| 0 <= e < before.len() && is_mask(#[trigger] before[e], plane);
        assert(now[e] == before[e]);
    }
}

/// The planes gathered are those of the entries, and every entry's plane is gathered.
spec fn colours_match(colours: Seq<(u32, Seq<u8>)>, entries: Seq<Entry>) -> bool {
    &&& forall|c: int| 0 <= c < colours.len() ==> colour_listed(entries, #[trigger] colours[c])
    &&& forall|e: int, plane: (u32, Seq<u8>)|
        0 <= e < entries.len() && #[trigger] is_colour(entries[e], plane) ==> colours.contains(plane)
}

spec fn masks_match(masks: Seq<(u32, Seq<u8>)>, entries: Seq<Entry>) -> bool {
    &&& forall|c: int| 0 <= c < masks.len() ==> mask_listed(entries, #[trigger] masks[c])
    &&& forall|e: int, plane: (u32, Seq<u8>)|
        0 <= e < entries.len() && #[trigger] is_mask(entries[e], plane) ==> masks.contains(plane)
}

/// What taking in the first entries of a written file has gathered.
spec fn gathered_from(
    so_far: Gathered,
    entries: Seq<Entry>,
    pngs: Seq<Result<Picture, Error>>,
) -> bool {
    &&& so_far.used == modern_count(entries)
    &&& so_far.used >= 0
    &&& so_far.images.len() == so_far.used
    &&& forall|j: int|
        0 <= j < so_far.used ==> pngs[j] == Ok::<Picture, Error>(#[trigger] so_far.images[j])
    &&& so_far.images.len() + so_far.colours.len() == shown(entries)
    &&& colours_match(so_far.colours, entries)
    &&& masks_match(so_far.masks, entries)
}

proof fn sides_name_one_kind(a: Seq<u8>, b: Seq<u8>)
    ensures
        colour_side(a) is Some && colour_side(a) == colour_side(b) ==> a == b,
        mask_side(a) is Some && mask_side(a) == mask_side(b) ==> a == b,
        modern_side(a) is Some && modern_side(a) == modern_side(b) ==> a == b,
{
}

proof fn colours_with_one_more(colours: Seq<(u32, Seq<u8>)>, before: Seq<Entry>, entry: Entry)
    requires
        colours_match(colours, before),
    ensures
        colour_side(entry.kind) is None ==> colours_match(colours, before.push(entry)),
        forall|plane: (u32, Seq<u8>)| #[trigger]
            is_colour(entry, plane) ==> colours_match(colours.push(plane), before.push(entry)),
{
    let now = before.push(entry);
    assert forall|plane: (u32, Seq<u8>)| #[trigger] is_colour(entry, plane) implies colours_match(
        colours.push(plane),
        now,
    ) by {
        let more = colours.push(plane);
        assert forall|c: int| 0 <= c < more.len() implies colour_listed(now, #[trigger] more[c]) by {
            listed_in_a_longer_list(before, entry, more[c]);
            if c < colours.len() {
                assert(more[c] == colours[c]);
            }
        }
        assert forall|e: int, other: (u32, Seq<u8>)|
            0 <= e < now.len() && #[trigger] is_colour(now[e], other) implies more.contains(other) by {
            pushed_contains(colours, plane, other);
            if e < before.len() {
                assert(now[e] == before[e]);
                assert(is_colour(before[e], other));
            }
        }
    }
    if colour_side(entry.kind) is None {
        assert forall|c: int| 0 <= c < colours.len() implies colour_listed(now, #[trigger] colours[c]) by {
            listed_in_a_longer_list(before, entry, colours[c]);
        }
        assert forall|e: int, other: (u32, Seq<u8>)|
            0 <= e < now.len() && #[trigger] is_colour(now[e], other) implies colours.contains(other) by {
            if e < before.len() {
                assert(now[e] == before[e]);
                assert(is_colour(before[e], other));
            }
        }
    }
}

proof fn masks_with_one_more(masks: Seq<(u32, Seq<u8>)>, before: Seq<Entry>, entry: Entry)
    requires
        masks_match(masks, before),
    ensures
        mask_side(entry.kind) is None ==> masks_match(masks, before.push(entry)),
        forall|plane: (u32, Seq<u8>)| #[trigger]
            is_mask(entry, plane) ==> masks_match(masks.push(plane), before.push(entry)),
{
    let now = before.push(entry);
    assert forall|plane: (u32, Seq<u8>)| #[trigger] is_mask(entry, plane) implies masks_match(
        masks.push(plane),
        now,
    ) by {
        let more = masks.push(plane);
        assert forall|c: int| 0 <= c < more.len() implies mask_listed(now, #[trigger] more[c]) by {
            listed_in_a_longer_list(before, entry, more[c]);
            if c < masks.len() {
                assert(more[c] == masks[c]);
            }
        }
        assert forall|e: int, other: (u32, Seq<u8>)|
            0 <= e < now.len() && #[trigger] is_mask(now[e], other) implies more.contains(other) by {
            pushed_contains(masks, plane, other);
            if e < before.len() {
                assert(now[e] == before[e]);
                assert(is_mask(before[e], other));
            }
        }
    }
    if mask_side(entry.kind) is None {
        assert forall|c: int| 0 <= c < masks.len() implies mask_listed(now, #[trigger] masks[c]) by {
            listed_in_a_longer_list(before, entry, masks[c]);
        }
        assert forall|e: int, other: (u32, Seq<u8>)|
            0 <= e < now.len() && #[trigger] is_mask(now[e], other) implies masks.contains(other) by {
            if e < before.len() {
                assert(now[e] == before[e]);
                assert(is_mask(before[e], other));
            }
        }
    }
}

/// The first `k` entries of a written file are taken in without a fault.
proof fn written_entries_are_gathered(
    entries: Seq<Entry>,
    images: Seq<Picture>,
    files: Seq<Result<Seq<u8>, Error>>,
    pngs: Seq<Result<Picture, Error>>,
    k: int,
)
    requires
        0 <= k <= entries.len(),
        distinct(entries),
        body(entries).len() + 8 <= u32::MAX,
        forall|e: int|
            0 <= e < entries.len() ==> some_image_is_written(#[trigger] entries[e], images, files),
        forall|u: int|
            0 <= u < files.len() && (#[trigger] files[u]) is Ok ==> starts_as_png(files[u]->Ok_0),
        answers_fit(entries, images, pngs),
    ensures
        absorbed(entries.take(k), pngs) is Gathered,
        gathered_from(absorbed(entries.take(k), pngs)->Gathered_0, entries.take(k), pngs),
    decreases k,
{
    if k == 0 {
        assert(entries.take(0) =~= Seq::<Entry>::empty());
    } else {
        written_entries_are_gathered(entries, images, files, pngs, k - 1);
        let before = entries.take(k - 1);
        let now = entries.take(k);
        let entry = entries[k - 1];
        assert(now.drop_last() =~= before);
        assert(now =~= before.push(entry));
        assert(now.last() == entry);
        assert forall|e: int| 0 <= e < before.len() implies (#[trigger] before[e]).kind != entry.kind by {
            assert(entries[e].kind != entries[k - 1].kind);
        }
        assert(some_image_is_written(entry, images, files));
        segment(entries, k - 1);
        if modern_side(entry.kind) is Some {
            assert(modern_side(entries[k - 1].kind) is Some);
        }
        one_entry_is_taken(absorbed(before, pngs)->Gathered_0, before, entry, images, files, pngs);
    }
}

proof fn one_entry_is_taken(
    state: Gathered,
    before: Seq<Entry>,
    entry: Entry,
    images: Seq<Picture>,
    files: Seq<Result<Seq<u8>, Error>>,
    pngs: Seq<Result<Picture, Error>>,
)
    requires
        gathered_from(state, before, pngs),
        forall|e: int| 0 <= e < before.len() ==> (#[trigger] before[e]).kind != entry.kind,
        some_image_is_written(entry, images, files),
        entry.payload.len() <= u32::MAX,
        forall|u: int|
            0 <= u < files.len() && (#[trigger] files[u]) is Ok ==> starts_as_png(files[u]->Ok_0),
        modern_side(entry.kind) matches Some(side) ==> {
            let turn = modern_count(before);
            turn < pngs.len() && pngs[turn] is Ok && pngs[turn]->Ok_0.width == side && pngs[turn]->Ok_0.height
                == side
        },
    ensures
        take_entry(state, entry.kind, entry.payload, pngs) is Gathered,
        gathered_from(
            take_entry(state, entry.kind, entry.payload, pngs)->Gathered_0,
            before.push(entry),
            pngs,
        ),
{
    let i = choose|i: int| 0 <= i < images.len() && written_for(entry, #[trigger] images[i], files);
    let image = images[i];
    kinds_name_their_side(image.width);
    match legacy_kinds(image.width) {
        Some((colour, mask)) => {
            if entry.kind == colour {
                planes_come_back(image);
                colour_entry_is_taken(state, before, entry, image.width, pngs);
            } else {
                mask_entry_is_taken(state, before, entry, image.width, pngs);
            }
        },
        None => {
            let u = choose|u: int|
                0 <= u < files.len() && #[trigger] files[u] == Ok::<Seq<u8>, Error>(entry.payload);
            assert(files[u] is Ok);
            modern_entry_is_taken(state, before, entry, image.width, pngs);
        },
    }
}

proof fn colour_entry_is_taken(
    state: Gathered,
    before: Seq<Entry>,
    entry: Entry,
    side: u32,
    pngs: Seq<Result<Picture, Error>>,
)
    requires
        gathered_from(state, before, pngs),
        forall|e: int| 0 <= e < before.len() ==> (#[trigger] before[e]).kind != entry.kind,
        colour_side(entry.kind) == Some(side),
        modern_side(entry.kind) is None,
        mask_side(entry.kind) is None,
        legacy_planes(entry.payload, side) is Ok,
    ensures
        take_entry(state, entry.kind, entry.payload, pngs) is Gathered,
        gathered_from(
            take_entry(state, entry.kind, entry.payload, pngs)->Gathered_0,
            before.push(entry),
            pngs,
        ),
{
    let plane = (side, legacy_planes(entry.payload, side)->Ok_0);
    assert(before.push(entry).drop_last() =~= before);
    found_plane_is_of_its_side(state.colours, side);
    if let Some(other) = plane_of(state.colours, side) {
        let c = choose|c: int| 0 <= c < state.colours.len() && #[trigger] state.colours[c] == (side, other);
        assert(colour_listed(before, state.colours[c]));
        let e = choose|e: int| 0 <= e < before.len() && is_colour(#[trigger] before[e], state.colours[c]);
        sides_name_one_kind(before[e].kind, entry.kind);
    }
    let next = Gathered { colours: state.colours.push(plane), ..state };
    assert(take_entry(state, entry.kind, entry.payload, pngs) == Taken::Gathered(next));
    assert(is_colour(entry, plane));
    colours_with_one_more(state.colours, before, entry);
    masks_with_one_more(state.masks, before, entry);
}

proof fn mask_entry_is_taken(
    state: Gathered,
    before: Seq<Entry>,
    entry: Entry,
    side: u32,
    pngs: Seq<Result<Picture, Error>>,
)
    requires
        gathered_from(state, before, pngs),
        forall|e: int| 0 <= e < before.len() ==> (#[trigger] before[e]).kind != entry.kind,
        mask_side(entry.kind) == Some(side),
        modern_side(entry.kind) is None,
        colour_side(entry.kind) is None,
        entry.payload.len() == side * side,
    ensures
        take_entry(state, entry.kind, entry.payload, pngs) is Gathered,
        gathered_from(
            take_entry(state, entry.kind, entry.payload, pngs)->Gathered_0,
            before.push(entry),
            pngs,
        ),
{
    let plane = (side, entry.payload);
    assert(before.push(entry).drop_last() =~= before);
    found_plane_is_of_its_side(state.masks, side);
    if let Some(other) = plane_of(state.masks, side) {
        let c = choose|c: int| 0 <= c < state.masks.len() && #[trigger] state.masks[c] == (side, other);
        assert(mask_listed(before, state.masks[c]));
        let e = choose|e: int| 0 <= e < before.len() && is_mask(#[trigger] before[e], state.masks[c]);
        sides_name_one_kind(before[e].kind, entry.kind);
    }
    let next = Gathered { masks: state.masks.push(plane), ..state };
    assert(take_entry(state, entry.kind, entry.payload, pngs) == Taken::Gathered(next));
    assert(is_mask(entry, plane));
    colours_with_one_more(state.colours, before, entry);
    masks_with_one_more(state.masks, before, entry);
}

proof fn modern_entry_is_taken(
    state: Gathered,
    before: Seq<Entry>,
    entry: Entry,
    side: u32,
    pngs: Seq<Result<Picture, Error>>,
)
    requires
        gathered_from(state, before, pngs),
        modern_side(entry.kind) == Some(side),
        colour_side(entry.kind) is None,
        mask_side(entry.kind) is None,
        starts_as_png(entry.payload),
        modern_count(before) < pngs.len(),
        pngs[modern_count(before)] is Ok,
        pngs[modern_count(before)]->Ok_0.width == side,
        pngs[modern_count(before)]->Ok_0.height == side,
    ensures
        take_entry(state, entry.kind, entry.payload, pngs) is Gathered,
        gathered_from(
            take_entry(state, entry.kind, entry.payload, pngs)->Gathered_0,
            before.push(entry),
            pngs,
        ),
{
    assert(before.push(entry).drop_last() =~= before);
    let image = pngs[state.used]->Ok_0;
    let next = Gathered { images: state.images.push(image), used: state.used + 1, ..state };
    assert(take_entry(state, entry.kind, entry.payload, pngs) == Taken::Gathered(next));
    colours_with_one_more(state.colours, before, entry);
    masks_with_one_more(state.masks, before, entry);
    assert forall|j: int| 0 <= j < next.used implies pngs[j] == Ok::<Picture, Error>(
        #[trigger] next.images[j],
    ) by {
        if j < state.used {
            assert(next.images[j] == state.images[j]);
        }
    }
}

/// A packed picture is what its four channels interleave to.
proof fn channels_make_the_picture(image: Picture)
    requires
        legacy_colours(image) is Ok,
        image.width == image.height,
    ensures
        legacy_picture(
            image.width,
            channel(image.pixels, 0) + channel(image.pixels, 1) + channel(image.pixels, 2),
            Some(channel(image.pixels, 3)),
        ) == image,
{
    let count = image.width * image.width;
    let planes = channel(image.pixels, 0) + channel(image.pixels, 1) + channel(image.pixels, 2);
    let made = legacy_picture(image.width, planes, Some(channel(image.pixels, 3)));
    assert(image.pixels.len() == count * 4);
    assert(made.pixels.len() == count * 4);
    assert forall|j: int| 0 <= j < image.pixels.len() implies #[trigger] made.pixels[j] == image.pixels[j] by {
        assert(j == 4 * (j / 4) + j % 4);
        assert(0 <= j / 4 < count);
    }
    assert(made.pixels =~= image.pixels);
}

proof fn turns_grow(entries: Seq<Entry>, k: int)
    requires
        0 <= k < entries.len(),
    ensures
        0 <= modern_count(entries.take(k)),
        modern_count(entries.take(k)) + (if modern_side(entries[k].kind) is Some {
            1int
        } else {
            0
        }) <= modern_count(entries),
    decreases entries.len(),
{
    let shorter = entries.drop_last();
    if k == entries.len() - 1 {
        assert(entries.take(k) =~= shorter);
        if k > 0 {
            turns_grow(shorter, k - 1);
        }
    } else {
        turns_grow(shorter, k);
        assert(shorter.take(k) =~= entries.take(k));
    }
}

/// The entries of the file that images are encoded to, in file order.
pub open spec fn file_order(images: Seq<Picture>, files: Seq<Result<Seq<u8>, Error>>) -> Seq<Entry> {
    filed(collected(images, files)->Entries_0)
}

/// What is written is read back: decoding the container that images were encoded to gives those images and
/// no others, ordered by area. The PNG files are the caller's, so the law supposes that they start as PNG
/// files do and that each decodes to the picture it was made from.
pub proof fn what_is_written_is_read_back(
    images: Seq<Picture>,
    files: Seq<Result<Seq<u8>, Error>>,
    pngs: Seq<Result<Picture, Error>>,
)
    requires
        encoded(images, files) is Finished,
        encoded(images, files)->Finished_0 is Ok,
        forall|u: int|
            0 <= u < files.len() && (#[trigger] files[u]) is Ok ==> starts_as_png(files[u]->Ok_0),
        answers_fit(file_order(images, files), images, pngs),
    ensures
        decoded(encoded(images, files)->Finished_0->Ok_0, pngs) is Finished,
        decoded(encoded(images, files)->Finished_0->Ok_0, pngs)->Finished_0 is Ok,
        ({
            let back = decoded(encoded(images, files)->Finished_0->Ok_0, pngs)->Finished_0->Ok_0;
            &&& back.len() == images.len()
            &&& by_size(back)
            &&& forall|i: int| 0 <= i < images.len() ==> back.contains(#[trigger] images[i])
        }),
{
    let ordered = file_order(images, files);
    what_is_in_the_file(images, files);
    assert forall|k: int| 0 <= k <= ordered.len() implies (#[trigger] absorbed(ordered.take(k), pngs)) is Gathered by {
        written_entries_are_gathered(ordered, images, files, pngs, k);
    }
    let n = ordered.len() as int;
    written_entries_are_gathered(ordered, images, files, pngs, n);
    a_container_has_a_header(ordered);
    a_container_reads_back_its_entries(ordered, pngs, n);
    assert(ordered.take(n) =~= ordered);
    let all = absorbed(ordered, pngs)->Gathered_0;
    let list = all.images + legacy_pictures(all);
    ordering_keeps_pictures(list);
    assert(list.len() == images.len());
    let back = by_area(list);
    assert forall|i: int| 0 <= i < images.len() implies back.contains(#[trigger] images[i]) by {
        image_is_in_the_list(images, files, pngs, i);
        assert(list.contains(images[i]));
    }
}

proof fn what_is_in_the_file(images: Seq<Picture>, files: Seq<Result<Seq<u8>, Error>>)
    requires
        collected(images, files) is Entries,
    ensures
        ({
            let ordered = file_order(images, files);
            &&& distinct(ordered)
            &&& shown(ordered) == images.len()
            &&& forall|e: int|
                0 <= e < ordered.len() ==> some_image_is_written(#[trigger] ordered[e], images, files)
            &&& forall|e: int| 0 <= e < ordered.len() ==> (#[trigger] ordered[e]).kind.len() == 4
        }),
{
    let entries = collected(images, files)->Entries_0;
    let ordered = filed(entries);
    what_was_collected(images, files);
    filed_keeps_entries(entries);
    assert forall|e: int| 0 <= e < ordered.len() implies some_image_is_written(
        #[trigger] ordered[e],
        images,
        files,
    ) && ordered[e].kind.len() == 4 by {
        assert(ordered.contains(ordered[e]));
        assert(entries.contains(ordered[e]));
        let at = choose|at: int| 0 <= at < entries.len() && entries[at] == ordered[e];
        assert(some_image_is_written(entries[at], images, files));
        let i = choose|i: int| 0 <= i < images.len() && written_for(ordered[e], #[trigger] images[i], files);
        kinds_name_their_side(images[i].width);
    }
}

#[verifier::spinoff_prover]
#[verifier::rlimit(60)]
proof fn image_is_in_the_list(
    images: Seq<Picture>,
    files: Seq<Result<Seq<u8>, Error>>,
    pngs: Seq<Result<Picture, Error>>,
    i: int,
)
    requires
        0 <= i < images.len(),
        collected(images, files) is Entries,
        body(file_order(images, files)).len() + 8 <= u32::MAX,
        answers_fit(file_order(images, files), images, pngs),
        absorbed(file_order(images, files), pngs) is Gathered,
        gathered_from(
            absorbed(file_order(images, files), pngs)->Gathered_0,
            file_order(images, files),
            pngs,
        ),
    ensures
        ({
            let all = absorbed(file_order(images, files), pngs)->Gathered_0;
            (all.images + legacy_pictures(all)).contains(images[i])
        }),
{
    let entries = collected(images, files)->Entries_0;
    let ordered = filed(entries);
    let all = absorbed(ordered, pngs)->Gathered_0;
    let list = all.images + legacy_pictures(all);
    let image = images[i];
    what_was_collected(images, files);
    filed_keeps_entries(entries);
    assert(all_written(entries, images[i]));
    kinds_name_their_side(image.width);
    match legacy_kinds(image.width) {
        Some((colour, mask)) => {
            let coded = Entry { kind: colour, payload: legacy_colours(image)->Ok_0 };
            let alpha = Entry { kind: mask, payload: channel(image.pixels, 3) };
            assert(ordered.contains(coded) && ordered.contains(alpha));
            let a = choose|a: int| 0 <= a < ordered.len() && ordered[a] == coded;
            let b = choose|b: int| 0 <= b < ordered.len() && ordered[b] == alpha;
            segment(ordered, a);
            planes_come_back(image);
            let planes = channel(image.pixels, 0) + channel(image.pixels, 1) + channel(image.pixels, 2);
            assert(is_colour(ordered[a], (image.width, planes)));
            assert(all.colours.contains((image.width, planes)));
            let c = choose|c: int| 0 <= c < all.colours.len() && all.colours[c] == (image.width, planes);
            assert(is_mask(ordered[b], (image.width, alpha.payload)));
            assert(all.masks.contains((image.width, alpha.payload)));
            let m = choose|m: int| 0 <= m < all.masks.len() && all.masks[m] == (image.width, alpha.payload);
            a_listed_plane_is_found(all.masks, image.width, m);
            found_plane_is_of_its_side(all.masks, image.width);
            let plane = plane_of(all.masks, image.width)->Some_0;
            let f = choose|f: int|
                0 <= f < all.masks.len() && #[trigger] all.masks[f] == (image.width, plane);
            assert(mask_listed(ordered, all.masks[f]));
            let e = choose|e: int| 0 <= e < ordered.len() && is_mask(#[trigger] ordered[e], all.masks[f]);
            sides_name_one_kind(ordered[e].kind, ordered[b].kind);
            if e < b {
                assert(ordered[e].kind != ordered[b].kind);
            } else if b < e {
                assert(ordered[b].kind != ordered[e].kind);
            }
            channels_make_the_picture(image);
            assert(legacy_pictures(all)[c] == image);
            assert(list[all.images.len() + c] == image);
        },
        None => {
            let kind = modern_kind(image.width)->Some_0;
            let at = choose|at: int| 0 <= at < entries.len() && (#[trigger] entries[at]).kind == kind;
            assert(entries.contains(entries[at]));
            assert(ordered.contains(entries[at]));
            let k = choose|k: int| 0 <= k < ordered.len() && ordered[k] == entries[at];
            assert(modern_side(ordered[k].kind) is Some);
            let turn = modern_count(ordered.take(k));
            turns_grow(ordered, k);
            let picture = pngs[turn]->Ok_0;
            let j = choose|j: int| 0 <= j < images.len() && images[j] == picture;
            assert(images[j].width == image.width);
            if j < i {
                assert(images[j].width != images[i].width);
            } else if i < j {
                assert(images[i].width != images[j].width);
            }
            assert(all.images[turn] == picture);
            assert(list[turn] == image);
        },
    }
}

proof fn a_listed_plane_is_found(planes: Seq<(u32, Seq<u8>)>, side: u32, at: int)
    requires
        0 <= at < planes.len(),
        planes[at].0 == side,
    ensures
        plane_of(planes, side) is Some,
    decreases at,
{
    if planes[0].0 != side {
        let rest = planes.skip(1);
        assert(rest[at - 1] == planes[at]);
        a_listed_plane_is_found(rest, side, at - 1);
    }
}

// ---------------------------------------------------------------------------------------------
// Laws of the format.
// ---------------------------------------------------------------------------------------------
/// A modern type is named by the power of two its image's side is: the letters `ic` and the power's two decimal digits,
/// from seven to ten. No other name is a modern type's, and no other side has one.
pub proof fn a_modern_type_is_named_by_its_power(kind: Seq<u8>, side: u32, power: u8)
    requires
        kind.len() == 4,
        7 <= power <= 10,
        side == vstd::arithmetic::power2::pow2(power as nat),
    ensures
        modern_side(kind) == Some(side) <==> kind[0] == 0x69 && kind[1] == 0x63 && kind[2] == 0x30 + power / 10 && kind[3]
            == 0x30 + power % 10,
        modern_kind(side) matches Some(name) && name =~= seq![
            0x69u8,
            0x63u8,
            (0x30 + power / 10) as u8,
            (0x30 + power % 10) as u8,
        ],
{
    vstd::arithmetic::power2::lemma2_to64();
    assert(power == 7 || power == 8 || power == 9 || power == 10);
    a_tag_is_its_bytes(kind, 0x69, 0x63, 0x30, 0x37);
    a_tag_is_its_bytes(kind, 0x69, 0x63, 0x30, 0x38);
    a_tag_is_its_bytes(kind, 0x69, 0x63, 0x30, 0x39);
    a_tag_is_its_bytes(kind, 0x69, 0x63, 0x31, 0x30);
}

proof fn a_tag_is_its_bytes(kind: Seq<u8>, a: u8, b: u8, c: u8, d: u8)
    requires
        kind.len() == 4,
    ensures
        kind == tag(a, b, c, d) <==> kind[0] == a && kind[1] == b && kind[2] == c && kind[3] == d,
{
    let wanted = tag(a, b, c, d);
    if kind[0] == a && kind[1] == b && kind[2] == c && kind[3] == d {
        assert(kind =~= wanted);
    } else {
        assert(wanted[0] == a && wanted[1] == b && wanted[2] == c && wanted[3] == d);
    }
}

/// The letter a legacy size is named by: small, large, huge and thumbnail.
pub open spec fn size_letter(side: u32) -> Option<u8> {
    if side == 16 {
        Some(0x73)
    } else if side == 32 {
        Some(0x6c)
    } else if side == 48 {
        Some(0x68)
    } else if side == 128 {
        Some(0x74)
    } else {
        None
    }
}

/// A legacy size's colours are named by `i`, its letter and `32`, and its mask by its letter and `8mk`; the thumbnail is
/// read in that form and never written.
pub proof fn a_legacy_type_is_named_by_its_letter(kind: Seq<u8>, side: u32, letter: u8)
    requires
        kind.len() == 4,
        size_letter(side) == Some(letter),
    ensures
        colour_side(kind) == Some(side) <==> kind[0] == 0x69 && kind[1] == letter && kind[2] == 0x33 && kind[3] == 0x32,
        mask_side(kind) == Some(side) <==> kind[0] == letter && kind[1] == 0x38 && kind[2] == 0x6d && kind[3] == 0x6b,
        side < 128 ==> (legacy_kinds(side) matches Some((colour, mask)) && colour =~= seq![0x69u8, letter, 0x33u8, 0x32u8]
            && mask =~= seq![letter, 0x38u8, 0x6du8, 0x6bu8]),
        legacy_kinds(128) is None,
{
    a_tag_is_its_bytes(kind, 0x69, 0x73, 0x33, 0x32);
    a_tag_is_its_bytes(kind, 0x69, 0x6c, 0x33, 0x32);
    a_tag_is_its_bytes(kind, 0x69, 0x68, 0x33, 0x32);
    a_tag_is_its_bytes(kind, 0x69, 0x74, 0x33, 0x32);
    a_tag_is_its_bytes(kind, 0x73, 0x38, 0x6d, 0x6b);
    a_tag_is_its_bytes(kind, 0x6c, 0x38, 0x6d, 0x6b);
    a_tag_is_its_bytes(kind, 0x68, 0x38, 0x6d, 0x6b);
    a_tag_is_its_bytes(kind, 0x74, 0x38, 0x6d, 0x6b);
}

/// A number of the container is its four bytes, each worth two hundred and fifty-six of the next: the first is worth most.
pub proof fn numbers_are_most_significant_first(bytes: Seq<u8>, at: int, value: int)
    requires
        0 <= at,
        at + 4 <= bytes.len(),
        0 <= value < 0x1_0000_0000,
    ensures
        be32(bytes, at) == ((bytes[at] * 256 + bytes[at + 1]) * 256 + bytes[at + 2]) * 256 + bytes[at + 3],
        be_bytes(value).len() == 4,
        ((be_bytes(value)[0] * 256 + be_bytes(value)[1]) * 256 + be_bytes(value)[2]) * 256 + be_bytes(value)[3] == value,
{
}

/// A control byte below a hundred and twenty-eight is followed by as many bytes as it says and one more, as they are; any
/// other is followed by one byte that is repeated three times and as often more as it is past a hundred and twenty-eight.
pub proof fn a_control_byte_says_what_follows(input: Seq<u8>, at: int, need: int)
    requires
        0 <= at < input.len() <= usize::MAX,
        unpacked(input, at, need) is Ok,
        need > 0,
    ensures
        ({
            let (out, end) = unpacked(input, at, need)->Ok_0;
            let control = input[at] as int;
            if control < 128 {
                &&& control + 1 <= need && at + control + 1 < input.len()
                &&& out.len() >= control + 1
                &&& out.take(control + 1) =~= input.subrange(at + 1, at + control + 2)
                &&& unpacked(input, at + control + 2, need - control - 1) == Ok::<(Seq<u8>, int), Error>(
                    (out.skip(control + 1), end),
                )
            } else {
                &&& control - 125 <= need && at + 1 < input.len()
                &&& out.len() >= control - 125
                &&& out.take(control - 125) =~= Seq::new((control - 125) as nat, |i: int| input[at + 1])
                &&& unpacked(input, at + 2, need - (control - 125)) == Ok::<(Seq<u8>, int), Error>(
                    (out.skip(control - 125), end),
                )
            }
        }),
{
    let (out, end) = unpacked(input, at, need)->Ok_0;
    let control = input[at] as int;
    if control < 128 {
        let (rest, stop) = unpacked(input, at + control + 2, need - control - 1)->Ok_0;
        assert(out == input.subrange(at + 1, at + control + 2) + rest);
        assert(out.skip(control + 1) =~= rest);
    } else {
        let (rest, stop) = unpacked(input, at + 2, need - (control - 125))->Ok_0;
        assert(out == Seq::new((control - 125) as nat, |i: int| input[at + 1]) + rest);
        assert(out.skip(control - 125) =~= rest);
    }
}

/// A plane that decodes has just the bytes that were needed.
pub proof fn a_decoded_plane_is_whole(input: Seq<u8>, at: int, need: int)
    requires
        0 <= need,
        0 <= at,
        unpacked(input, at, need) is Ok,
    ensures
        unpacked(input, at, need)->Ok_0.0.len() == need,
        at <= unpacked(input, at, need)->Ok_0.1,
    decreases need,
{
    if need > 0 {
        if input[at] >= 0x80 {
            a_decoded_plane_is_whole(input, at + 2, need - (input[at] - 0x80 + 3));
        } else {
            a_decoded_plane_is_whole(input, at + 1 + (input[at] + 1), need - (input[at] + 1));
        }
    }
}

/// A run is as long as it can be: it stops at what was asked for, at the end of the input, or before another byte.
pub proof fn a_run_is_as_long_as_it_can_be(input: Seq<u8>, at: int, most: int)
    requires
        0 <= at < input.len(),
        most >= 1,
    ensures
        ({
            let run = run_at(input, at, most);
            run == most || at + run == input.len() || input[at + run] != input[at]
        }),
    decreases most,
{
    run_is_within(input, at, most);
    if !(most <= 1 || at + 1 >= input.len() || input[at + 1] != input[at]) {
        a_run_is_as_long_as_it_can_be(input, at + 1, most - 1);
    }
}

/// Three equal bytes or more, up to a hundred and thirty, are coded as two: a hundred and twenty-eight with the number past
/// three added, and the byte.
pub proof fn a_run_is_coded_as_two_bytes(input: Seq<u8>, at: int, count: int)
    requires
        0 <= at,
        3 <= count <= 130,
        at + count <= input.len(),
        forall|i: int| at <= i < at + count ==> #[trigger] input[i] == input[at],
        count == 130 || at + count == input.len() || input[at + count] != input[at],
    ensures
        packed_from(input, at) =~= seq![(125 + count) as u8, input[at]] + packed_from(input, at + count),
{
    equal_bytes_are_a_run(input, at, 130, count);
    run_is_within(input, at, 130);
}

proof fn equal_bytes_are_a_run(input: Seq<u8>, at: int, most: int, count: int)
    requires
        0 <= at,
        1 <= count <= most,
        at + count <= input.len(),
        forall|i: int| at <= i < at + count ==> #[trigger] input[i] == input[at],
        count == most || at + count == input.len() || input[at + count] != input[at],
    ensures
        run_at(input, at, most) == count,
    decreases count,
{
    if count > 1 {
        assert(input[at + 1] == input[at]);
        assert forall|i: int| at + 1 <= i < at + 1 + (count - 1) implies #[trigger] input[i] == input[at + 1] by {
            assert(input[i] == input[at]);
        }
        equal_bytes_are_a_run(input, at + 1, most - 1, count - 1);
    }
}

/// A legacy picture has, pixel by pixel, the byte of each colour plane, red, green and blue one after the other, and the
/// mask's byte as its alpha, or full where there is no mask.
pub proof fn a_legacy_pixel_is_of_its_planes(side: u32, planes: Seq<u8>, mask: Option<Seq<u8>>, x: int, y: int)
    requires
        0 <= x < side <= 128,
        0 <= y < side,
    ensures
        ({
            let picture = legacy_picture(side, planes, mask);
            let (count, place) = (side * side, y * side + x);
            &&& picture.width == side && picture.height == side && picture.pitch == 4 * side
            &&& picture.pixels.len() == 4 * count
            &&& 0 <= place < count
            &&& picture.pixels[4 * place] == planes[place]
            &&& picture.pixels[4 * place + 1] == planes[count + place]
            &&& picture.pixels[4 * place + 2] == planes[2 * count + place]
            &&& picture.pixels[4 * place + 3] == match mask {
                Some(alpha) => alpha[place],
                None => 255u8,
            }
        }),
{
    crate::grid::cell_is_stored(x, y, side as int, side as int);
    assert(side * side <= 128 * 128) by (nonlinear_arith)
        requires
            0 <= side <= 128,
    ;
}

/// A channel of a picture is every fourth byte, from its own on.
pub proof fn a_channel_is_every_fourth_byte(pixels: Seq<u8>, which: int, i: int)
    requires
        0 <= which < 4,
        0 <= i,
        4 * i + 3 < pixels.len(),
    ensures
        channel(pixels, which)[i] == pixels[4 * i + which],
        channel(pixels, which).len() == pixels.len() / 4,
{
}

/// An entry is as long as it says, its type and its length with it; one that says less than these eight bytes is invalid,
/// and one past the end is cut short.
pub proof fn an_entry_is_as_long_as_it_says(data: Seq<u8>, at: int)
    requires
        0 <= at,
        data.len() <= usize::MAX,
    ensures
        ({
            let length = be32(data, at + 4);
            match entry_end(data, at) {
                Ok(end) => end - at == length && length >= 8 && end <= data.len(),
                Err(Error::Truncated) => data.len() < at + 8 || at + length > data.len(),
                Err(Error::Invalid) => data.len() >= at + 8 && length < 8,
                Err(_) => at + length > usize::MAX,
            }
        }),
{
}

/// A container starts with its own type, the letters `icns`, and is as long as it says.
pub proof fn a_container_is_as_long_as_it_says(data: Seq<u8>)
    ensures
        header_fault(data) is None <==> data.len() >= 8 && data[0] == 0x69 && data[1] == 0x63 && data[2] == 0x6e && data[3]
            == 0x73 && be32(data, 4) == data.len(),
{
    if data.len() >= 8 {
        a_tag_is_its_bytes(data.subrange(0, 4), 0x69, 0x63, 0x6e, 0x73);
        assert(data.subrange(0, 4)[0] == data[0] && data.subrange(0, 4)[1] == data[1] && data.subrange(0, 4)[2]
            == data[2] && data.subrange(0, 4)[3] == data[3]);
    }
}

/// The greatest of some pictures is one of them, none is greater, and of those as great it is the last.
pub proof fn the_greatest_is_the_last_of_the_greatest(images: Seq<Picture>, i: int)
    requires
        0 <= i < images.len(),
    ensures
        images[i].area() <= greatest(images).area(),
        exists|k: int| 0 <= k < images.len() && #[trigger] images[k] == greatest(images) && forall|j: int|
            k < j < images.len() ==> (#[trigger] images[j]).area() < images[k].area(),
    decreases images.len(),
{
    if images.len() > 1 {
        let rest = images.drop_last();
        let last = images.len() - 1;
        the_greatest_is_the_last_of_the_greatest(rest, if i < last { i } else { 0 });
        let best = greatest(rest);
        let k = choose|k: int| 0 <= k < rest.len() && #[trigger] rest[k] == best && forall|j: int|
            k < j < rest.len() ==> (#[trigger] rest[j]).area() < rest[k].area();
        if images.last().area() >= best.area() {
            assert(images[last] == greatest(images));
        } else {
            assert(images[k] == rest[k]);
            assert forall|j: int| k < j < images.len() implies (#[trigger] images[j]).area() < images[k].area() by {
                if j < last {
                    assert(images[j] == rest[j]);
                }
            }
        }
        if i < last {
            assert(images[i] == rest[i]);
        }
    } else {
        assert(images[0] == greatest(images));
    }
}

/// The area of a picture is its pixels counted, so a picture is greater where it has more.
pub proof fn an_area_is_counted(image: Picture)
    ensures
        image.area() == image.width * image.height,
{
}

/// An image is written by its side: sixteen, thirty-two and forty-eight as colours and mask, a hundred and twenty-eight and
/// the powers of two up to a thousand and twenty-four as a file; no other side is, nor an image that is not square, nor a
/// side that is there already.
pub proof fn an_image_is_written_by_its_side(
    entries: Seq<Entry>,
    image: Picture,
    files: Seq<Result<Seq<u8>, Error>>,
    used: int,
)
    requires
        0 <= used,
    ensures
        ({
            let added = add_image(entries, image, files, used);
            let side = image.width;
            let small = side == 16 || side == 32 || side == 48;
            let large = side == 128 || side == 256 || side == 512 || side == 1024;
            &&& image.width != image.height || !(small || large) ==> added == Added::Fault(Error::Unsupported)
            &&& image.width == image.height && small ==> (added matches Added::Entries(more, now) ==> now == used
                && more.len() == entries.len() + 2 && more.take(entries.len() as int) =~= entries
                && colour_side(more[entries.len() as int].kind) == Some(side) && mask_side(more.last().kind) == Some(side)
                && more.last().payload == channel(image.pixels, 3))
            &&& image.width == image.height && large ==> (added matches Added::Entries(more, now) ==> now == used + 1
                && more.len() == entries.len() + 1 && more.drop_last() =~= entries && modern_side(more.last().kind)
                == Some(side) && files[used] == Ok::<Seq<u8>, Error>(more.last().payload))
            &&& image.width == image.height && large && used >= files.len() ==> added is Waits || added == Added::Fault(
                Error::Invalid,
            )
        }),
{
    kinds_name_their_side(image.width);
}

proof fn filing_keeps_order(ordered: Seq<Entry>, entry: Entry)
    requires
        forall|i: int, j: int|
            0 <= i <= j < ordered.len() ==> be32((#[trigger] ordered[i]).kind, 0) <= be32((#[trigger] ordered[j]).kind, 0),
    ensures
        ({
            let list = filed_into(ordered, entry);
            &&& list.len() == ordered.len() + 1
            &&& forall|i: int, j: int|
                0 <= i <= j < list.len() ==> be32((#[trigger] list[i]).kind, 0) <= be32((#[trigger] list[j]).kind, 0)
            &&& list.to_multiset() == ordered.to_multiset().insert(entry)
            &&& ordered.len() > 0 && be32(entry.kind, 0) <= be32(ordered.last().kind, 0) ==> be32(list.last().kind, 0)
                <= be32(ordered.last().kind, 0)
        }),
    decreases ordered.len(),
{
    vstd::seq_lib::to_multiset_build(ordered, entry);
    let list = filed_into(ordered, entry);
    if ordered.len() == 0 || be32(ordered.last().kind, 0) <= be32(entry.kind, 0) {
        assert forall|i: int, j: int| 0 <= i <= j < list.len() implies be32((#[trigger] list[i]).kind, 0) <= be32(
            (#[trigger] list[j]).kind,
            0,
        ) by {
            if j < ordered.len() {
                assert(list[i] == ordered[i] && list[j] == ordered[j]);
            } else if i < ordered.len() {
                assert(list[i] == ordered[i]);
                assert(be32(ordered[i].kind, 0) <= be32(ordered[ordered.len() - 1].kind, 0));
            }
        }
    } else {
        let rest = ordered.drop_last();
        let last = ordered.last();
        assert forall|i: int, j: int| 0 <= i <= j < rest.len() implies be32((#[trigger] rest[i]).kind, 0) <= be32(
            (#[trigger] rest[j]).kind,
            0,
        ) by {
            assert(rest[i] == ordered[i] && rest[j] == ordered[j]);
        }
        filing_keeps_order(rest, entry);
        let inner = filed_into(rest, entry);
        vstd::seq_lib::to_multiset_build(inner, last);
        vstd::seq_lib::to_multiset_build(rest, last);
        assert(rest.push(last) =~= ordered);
        assert(rest.to_multiset().insert(entry).insert(last) =~= rest.to_multiset().insert(last).insert(entry));
        assert(be32(inner.last().kind, 0) <= be32(last.kind, 0)) by {
            if rest.len() > 0 {
                assert(rest[rest.len() - 1] == ordered[rest.len() - 1]);
                assert(be32(ordered[rest.len() - 1].kind, 0) <= be32(ordered[ordered.len() - 1].kind, 0));
            }
        }
        assert forall|i: int, j: int| 0 <= i <= j < list.len() implies be32((#[trigger] list[i]).kind, 0) <= be32(
            (#[trigger] list[j]).kind,
            0,
        ) by {
            if j < inner.len() {
                assert(list[i] == inner[i] && list[j] == inner[j]);
            } else if i < inner.len() {
                assert(list[i] == inner[i]);
                assert(be32(inner[i].kind, 0) <= be32(inner[inner.len() - 1].kind, 0));
            }
        }
    }
}

/// A container's entries are in the order of their types, and all of them are there.
pub proof fn entries_are_filed_by_type(entries: Seq<Entry>)
    ensures
        filed(entries).to_multiset() == entries.to_multiset(),
        forall|i: int, j: int|
            0 <= i <= j < filed(entries).len() ==> be32((#[trigger] filed(entries)[i]).kind, 0) <= be32(
                (#[trigger] filed(entries)[j]).kind,
                0,
            ),
    decreases entries.len(),
{
    if entries.len() == 0 {
        assert(filed(entries) =~= entries);
    } else {
        let rest = entries.drop_last();
        entries_are_filed_by_type(rest);
        filing_keeps_order(filed(rest), entries.last());
        vstd::seq_lib::to_multiset_build(rest, entries.last());
        assert(rest.push(entries.last()) =~= entries);
    }
}

/// An entry's bytes are its type, its length with these eight bytes, and its payload, in this order.
pub proof fn an_entry_is_laid_out_in_order(entry: Entry)
    requires
        entry.kind.len() == 4,
        entry.payload.len() + 8 < 0x1_0000_0000,
    ensures
        entry_bytes(entry).len() == entry.payload.len() + 8,
        entry_bytes(entry).take(4) =~= entry.kind,
        be32(entry_bytes(entry), 4) == entry.payload.len() + 8,
        entry_bytes(entry).skip(8) =~= entry.payload,
{
}

/// A file is one where it starts with the eight bytes such files do.
pub proof fn a_png_starts_with_its_signature(payload: Seq<u8>)
    ensures
        starts_as_png(payload) <==> payload.len() >= 8 && payload.take(8) =~= seq![
            137u8,
            80u8,
            78u8,
            71u8,
            13u8,
            10u8,
            26u8,
            10u8,
        ],
{
    let signature = seq![137u8, 80u8, 78u8, 71u8, 13u8, 10u8, 26u8, 10u8];
    if payload.len() >= 8 {
        let start = payload.take(8);
        assert(start[0] == payload[0] && start[1] == payload[1] && start[2] == payload[2] && start[3] == payload[3]
            && start[4] == payload[4] && start[5] == payload[5] && start[6] == payload[6] && start[7] == payload[7]);
        if start =~= signature {
            assert(start[0] == signature[0] && start[1] == signature[1] && start[2] == signature[2] && start[3]
                == signature[3] && start[4] == signature[4] && start[5] == signature[5] && start[6] == signature[6]
                && start[7] == signature[7]);
        }
    }
}


/// A plane is found by its side: it is the first of the list that has that side, and where none has it there is none.
pub proof fn a_plane_is_found_by_its_side(planes: Seq<(u32, Seq<u8>)>, side: u32)
    ensures
        match plane_of(planes, side) {
            Some(plane) => exists|i: int|
                0 <= i < planes.len() && (#[trigger] planes[i]) == (side, plane) && forall|j: int|
                    0 <= j < i ==> (#[trigger] planes[j]).0 != side,
            None => forall|i: int| 0 <= i < planes.len() ==> (#[trigger] planes[i]).0 != side,
        },
    decreases planes.len(),
{
    if planes.len() > 0 {
        let rest = planes.skip(1);
        if planes[0].0 == side {
            assert(planes[0] == (side, planes[0].1));
        } else {
            a_plane_is_found_by_its_side(rest, side);
            match plane_of(rest, side) {
                Some(plane) => {
                    let i = choose|i: int|
                        0 <= i < rest.len() && (#[trigger] rest[i]) == (side, plane) && forall|j: int|
                            0 <= j < i ==> (#[trigger] rest[j]).0 != side;
                    assert(planes[i + 1] == rest[i]);
                    assert forall|j: int| 0 <= j < i + 1 implies (#[trigger] planes[j]).0 != side by {
                        if j > 0 {
                            assert(planes[j] == rest[j - 1]);
                        }
                    }
                },
                None => {
                    assert forall|i: int| 0 <= i < planes.len() implies (#[trigger] planes[i]).0 != side by {
                        if i > 0 {
                            assert(planes[i] == rest[i - 1]);
                        }
                    }
                },
            }
        }
    }
}

/// An entry is taken by its type: a picture of a modern one has the side its type names, a mask a byte for every pixel
/// of it, and an entry of an unknown type changes nothing. No side has two colours or two masks.
pub proof fn an_entry_is_taken_by_its_type(
    so_far: Gathered,
    kind: Seq<u8>,
    payload: Seq<u8>,
    pngs: Seq<Result<Picture, Error>>,
    after: Gathered,
)
    requires
        take_entry(so_far, kind, payload, pngs) == Taken::Gathered(after),
    ensures
        modern_side(kind) is Some && after.used != so_far.used ==> {
            &&& after.images.len() == so_far.images.len() + 1
            &&& after.images.last().width == modern_side(kind)->0 && after.images.last().height == modern_side(kind)->0
            &&& after.used == so_far.used + 1 && pngs[so_far.used] == Ok::<Picture, Error>(after.images.last())
        },
        modern_side(kind) is Some ==> after.colours == so_far.colours && after.masks == so_far.masks,
        modern_side(kind) is Some && after.used == so_far.used ==> after.unsupported && after.images == so_far.images,
        modern_side(kind) is None && colour_side(kind) is Some ==> {
            &&& after.colours.len() == so_far.colours.len() + 1
            &&& after.colours.last().0 == colour_side(kind)->0
            &&& after.masks == so_far.masks && after.images == so_far.images
            &&& forall|i: int| 0 <= i < so_far.colours.len() ==> (#[trigger] so_far.colours[i]).0 != colour_side(kind)->0
        },
        modern_side(kind) is None && colour_side(kind) is None && mask_side(kind) is Some ==> {
            let side = mask_side(kind)->0;
            &&& after.masks.len() == so_far.masks.len() + 1
            &&& after.masks.last() == (side, payload) && payload.len() == side * side
            &&& after.colours == so_far.colours && after.images == so_far.images
            &&& forall|i: int| 0 <= i < so_far.masks.len() ==> (#[trigger] so_far.masks[i]).0 != side
        },
        modern_side(kind) is None && colour_side(kind) is None && mask_side(kind) is None ==> after == so_far,
{
    if let Some(side) = colour_side(kind) {
        a_plane_is_found_by_its_side(so_far.colours, side);
    }
    if let Some(side) = mask_side(kind) {
        a_plane_is_found_by_its_side(so_far.masks, side);
    }
}


/// A picture goes behind every picture that is no larger and before those at the end that are: pictures of one area stay
/// in the order they came in.
pub proof fn a_picture_goes_behind_its_equals(ordered: Seq<Picture>, image: Picture) -> (k: int)
    ensures
        0 <= k <= ordered.len(),
        placed(ordered, image) == ordered.take(k).push(image) + ordered.skip(k),
        k > 0 ==> ordered[k - 1].area() <= image.area(),
        forall|j: int| k <= j < ordered.len() ==> !((#[trigger] ordered[j]).area() <= image.area()),
    decreases ordered.len(),
{
    if ordered.len() == 0 || ordered.last().area() <= image.area() {
        assert(placed(ordered, image) =~= ordered.take(ordered.len() as int).push(image) + ordered.skip(
            ordered.len() as int,
        ));
        ordered.len() as int
    } else {
        let shorter = ordered.drop_last();
        let k = a_picture_goes_behind_its_equals(shorter, image);
        assert(placed(ordered, image) =~= ordered.take(k).push(image) + ordered.skip(k));
        assert forall|j: int| k <= j < ordered.len() implies !((#[trigger] ordered[j]).area() <= image.area()) by {
            if j < shorter.len() {
                assert(ordered[j] == shorter[j]);
            }
        }
        k
    }
}

/// An entry goes behind every entry whose type is no greater and before those at the end whose type is.
pub proof fn an_entry_goes_behind_its_equals(ordered: Seq<Entry>, entry: Entry) -> (k: int)
    ensures
        0 <= k <= ordered.len(),
        filed_into(ordered, entry) == ordered.take(k).push(entry) + ordered.skip(k),
        k > 0 ==> be32(ordered[k - 1].kind, 0) <= be32(entry.kind, 0),
        forall|j: int| k <= j < ordered.len() ==> !(be32((#[trigger] ordered[j]).kind, 0) <= be32(entry.kind, 0)),
    decreases ordered.len(),
{
    if ordered.len() == 0 || be32(ordered.last().kind, 0) <= be32(entry.kind, 0) {
        assert(filed_into(ordered, entry) =~= ordered.take(ordered.len() as int).push(entry) + ordered.skip(
            ordered.len() as int,
        ));
        ordered.len() as int
    } else {
        let shorter = ordered.drop_last();
        let k = an_entry_goes_behind_its_equals(shorter, entry);
        assert(filed_into(ordered, entry) =~= ordered.take(k).push(entry) + ordered.skip(k));
        assert forall|j: int| k <= j < ordered.len() implies !(be32((#[trigger] ordered[j]).kind, 0) <= be32(entry.kind, 0)) by {
            if j < shorter.len() {
                assert(ordered[j] == shorter[j]);
            }
        }
        k
    }
}

} // verus!
