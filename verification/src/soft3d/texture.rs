//! Textures and samplers: which texels a sample reads, from which level, and through which cache.
//!
//! Scaling a coordinate into texels, decoding a texel and blending taps are floating-point work of the
//! caller. Addressing, tap selection, level selection, the cube-map table, the cache and the shape of a
//! mip chain are decided here.
use super::error::{Error, StateFault, TextureFault};
use super::pass::{entry, replaced, Colour, Pixel};
use super::state::CompareOp;
use crate::bits::{
    abs, absolute, at_least, below, clamp, clamped, exponent, extremes_are_by_number, finite, floor_wide, floored, greater_of, holding_is_by_number, is_finite, is_nan, larger, less,
    magnitude, nan, negate, number, opposite, order_is_by_number, reaches, same, signs_are_by_number, significand,
    whole_numbers_are_by_number, ONE,
};
use vstd::arithmetic::div_mod::{lemma_fundamental_div_mod, lemma_fundamental_div_mod_converse};
use vstd::arithmetic::power2::{lemma2_to64, lemma_pow2_pos, pow2};
use vstd::prelude::*;

verus! {

/// One texel: four binary32 values by their bits.
pub type Texel = Pixel;

/// How a coordinate outside the texture is brought back in.
#[derive(Clone, Copy, PartialEq, Eq, Structural, Debug)]
pub enum Wrap {
    ClampToEdge,
    Repeat,
    MirroredRepeat,
    ClampToBorder,
}

/// The border colours.
#[derive(Clone, Copy, PartialEq, Eq, Structural, Debug)]
pub enum Border {
    TransparentBlack,
    OpaqueBlack,
    OpaqueWhite,
}

impl Border {
    /// The colour as a texel.
    pub open spec fn colour(self) -> Texel {
        match self {
            Border::TransparentBlack => [0, 0, 0, 0],
            Border::OpaqueBlack => [0, 0, 0, ONE],
            Border::OpaqueWhite => [ONE, ONE, ONE, ONE],
        }
    }

    /// The colour as a texel.
    pub fn texel(self) -> (texel: Texel)
        ensures
            texel == self.colour(),
    {
        match self {
            Border::TransparentBlack => [0, 0, 0, 0],
            Border::OpaqueBlack => [0, 0, 0, ONE],
            Border::OpaqueWhite => [ONE, ONE, ONE, ONE],
        }
    }
}

#[derive(Clone, Copy, PartialEq, Eq, Structural, Debug)]
pub enum Filter {
    Nearest,
    Linear,
}

/// A sampler: how a texture is read.
#[derive(Clone, Copy, PartialEq, Eq, Structural, Debug)]
pub struct Sampler {
    pub wrap_u: Wrap,
    pub wrap_v: Wrap,
    pub wrap_w: Wrap,
    pub border: Border,
    pub minify: Filter,
    pub magnify: Filter,
    pub mip: Filter,
    pub lod_bias: u32,
    pub min_lod: u32,
    pub max_lod: u32,
    /// One collapses the rule to the isotropic one.
    pub anisotropy: u32,
    /// The comparison of a depth-compare sample, or none for an ordinary read.
    pub compare: Option<CompareOp>,
}

impl Sampler {
    /// Repeat, take the nearest texel of the nearest level, clamp the level to no more than a thousand.
    pub fn nearest() -> (made: Sampler)
        ensures
            made == (Sampler {
                wrap_u: Wrap::Repeat,
                wrap_v: Wrap::Repeat,
                wrap_w: Wrap::Repeat,
                border: Border::TransparentBlack,
                minify: Filter::Nearest,
                magnify: Filter::Nearest,
                mip: Filter::Nearest,
                lod_bias: 0,
                min_lod: 0,
                max_lod: 0x447A_0000,
                anisotropy: 1,
                compare: None,
            }),
    {
        Sampler {
            wrap_u: Wrap::Repeat,
            wrap_v: Wrap::Repeat,
            wrap_w: Wrap::Repeat,
            border: Border::TransparentBlack,
            minify: Filter::Nearest,
            magnify: Filter::Nearest,
            mip: Filter::Nearest,
            lod_bias: 0,
            min_lod: 0,
            max_lod: 0x447A_0000,
            anisotropy: 1,
            compare: None,
        }
    }

    /// The same, filtered linearly within a level and between two.
    pub fn linear() -> (made: Sampler)
        ensures
            made == (Sampler {
                wrap_u: Wrap::Repeat,
                wrap_v: Wrap::Repeat,
                wrap_w: Wrap::Repeat,
                border: Border::TransparentBlack,
                minify: Filter::Linear,
                magnify: Filter::Linear,
                mip: Filter::Linear,
                lod_bias: 0,
                min_lod: 0,
                max_lod: 0x447A_0000,
                anisotropy: 1,
                compare: None,
            }),
    {
        let mut made = Sampler::nearest();
        made.minify = Filter::Linear;
        made.magnify = Filter::Linear;
        made.mip = Filter::Linear;
        made
    }
}

/// Where a texel is stored in its level.
pub open spec fn texel_slot(x: u32, y: u32, z: u32, width: u32, height: u32) -> int {
    (z * height + y) * width + x
}

fn texel_slot_of(x: u32, y: u32, z: u32, width: u32, height: u32) -> (index: u128)
    ensures
        index == texel_slot(x, y, z, width, height),
{
    assert(0 <= z * height <= 0xffff_ffff * 0xffff_ffff) by (nonlinear_arith)
        requires
            0 <= z <= 0xffff_ffff,
            0 <= height <= 0xffff_ffff,
    ;
    let row: u128 = z as u128 * height as u128 + y as u128;
    assert(0 <= row * width <= 0x1_0000_0000_0000_0000 * 0xffff_ffff) by (nonlinear_arith)
        requires
            0 <= row <= 0x1_0000_0000_0000_0000,
            0 <= width <= 0xffff_ffff,
    ;
    row * width as u128 + x as u128
}

/// One mip level's texels.
#[derive(Clone, Debug)]
pub struct Level {
    pub width: u32,
    pub height: u32,
    pub depth: u32,
    pub texels: Vec<Texel>,
}

/// A level as mathematics.
#[verifier::ext_equal]
pub ghost struct Plane {
    pub width: u32,
    pub height: u32,
    pub depth: u32,
    pub texels: Seq<Texel>,
}

impl Plane {
    /// One texel, or nothing outside the level.
    pub open spec fn texel(self, x: u32, y: u32, z: u32) -> Texel {
        entry(self.texels, texel_slot(x, y, z, self.width, self.height), [0, 0, 0, 0])
    }
}

impl View for Level {
    type V = Plane;

    open spec fn view(&self) -> Plane {
        Plane { width: self.width, height: self.height, depth: self.depth, texels: self.texels@ }
    }
}

impl Level {
    pub fn new(width: u32, height: u32, depth: u32) -> (made: Level)
        requires
            width * height <= u32::MAX,
            width * height * depth <= u32::MAX,
        ensures
            made@ == (Plane {
                width,
                height,
                depth,
                texels: Seq::new((width * height * depth) as nat, |i: int| [0, 0, 0, 0]),
            }),
    {
        let count: u32 = width * height * depth;
        let mut texels: Vec<Texel> = Vec::new();
        let mut filled: u32 = 0;
        while filled < count
            invariant
                filled <= count,
                texels@.len() == filled,
                forall|i: int| 0 <= i < filled ==> #[trigger] texels@[i] == [0, 0, 0, 0u32],
            decreases count - filled,
        {
            texels.push([0, 0, 0, 0]);
            filled = filled + 1;
        }
        let made = Level { width, height, depth, texels };
        assert(made@.texels =~= Seq::new((width * height * depth) as nat, |i: int| [0, 0, 0, 0]));
        made
    }

    pub fn at(&self, x: u32, y: u32, z: u32) -> (texel: Texel)
        ensures
            texel == self@.texel(x, y, z),
    {
        let index: u128 = texel_slot_of(x, y, z, self.width, self.height);
        if index < self.texels.len() as u128 {
            self.texels[index as usize]
        } else {
            [0, 0, 0, 0]
        }
    }

    pub fn set(&mut self, x: u32, y: u32, z: u32, texel: Texel)
        ensures
            final(self)@ == (Plane {
                texels: replaced(
                    old(self)@.texels,
                    texel_slot(x, y, z, old(self).width, old(self).height),
                    texel,
                ),
                ..old(self)@
            }),
    {
        let index: u128 = texel_slot_of(x, y, z, self.width, self.height);
        if index < self.texels.len() as u128 {
            self.texels.set(index as usize, texel);
        }
    }
}

/// What kind of texture, which decides how a coordinate is read.
#[derive(Clone, Copy, PartialEq, Eq, Structural, Debug)]
pub enum Kind {
    Dim2,
    /// Six faces in the order +X, -X, +Y, -Y, +Z, -Z, stored as layers.
    Cube,
    /// Layers addressed by an explicit index.
    Array,
    Dim3,
}

/// The transfer function texels are encoded with.
#[derive(Clone, Copy, PartialEq, Eq, Structural, Debug)]
pub enum Transfer {
    Linear,
    Srgb,
}

/// What the numbers of a texture are.
#[derive(Clone, Copy, PartialEq, Eq, Structural, Debug)]
pub enum Semantics {
    Color,
    Data,
    Normal,
    Depth,
    Identity,
    Mask,
}

/// How a texel becomes linear and premultiplied.
#[derive(Clone, Copy, PartialEq, Eq, Structural, Debug)]
pub struct Decoding {
    /// The transfer function to undo on the three colour channels, or none where the numbers are not light.
    pub transfer: Option<Transfer>,
    /// Whether the colour channels are then multiplied by alpha.
    pub premultiply: bool,
}

/// A texture: its shape, its levels and what its numbers mean.
#[derive(Clone, Debug)]
pub struct Texture {
    /// The caller's own identifier, which only the cache reads.
    pub id: u32,
    pub kind: Kind,
    /// One entry per level; for a cube or an array each level holds every layer in `depth`.
    pub levels: Vec<Level>,
    pub transfer: Transfer,
    pub semantics: Semantics,
    pub premultiplied: bool,
}

impl Texture {
    pub fn level(&self, index: u32) -> (level: Option<&Level>)
        ensures
            match level {
                Some(found) => index < self.levels@.len() && *found == self.levels@[index as int],
                None => index >= self.levels@.len(),
            },
    {
        if (index as usize) < self.levels.len() {
            Some(&self.levels[index as usize])
        } else {
            None
        }
    }

    pub fn levels(&self) -> (count: u32)
        requires
            self.levels@.len() <= u32::MAX,
        ensures
            count == self.levels@.len(),
    {
        self.levels.len() as u32
    }

    /// How a texel of this texture becomes linear and premultiplied: a measurement or a direction is left
    /// alone, and alpha is never decoded.
    pub fn decoding(&self) -> (how: Decoding)
        ensures
            how == (Decoding {
                transfer: if self.semantics == Semantics::Color {
                    Some(self.transfer)
                } else {
                    None
                },
                premultiply: self.semantics == Semantics::Color && !self.premultiplied,
            }),
    {
        if self.semantics == Semantics::Color {
            Decoding { transfer: Some(self.transfer), premultiply: !self.premultiplied }
        } else {
            Decoding { transfer: None, premultiply: false }
        }
    }
}

// ---------------------------------------------------------------------------------------------
// The cache.
// ---------------------------------------------------------------------------------------------
/// How many texels the cache holds.
pub const CACHE_ENTRIES: usize = 256;

#[derive(Clone, Copy, Debug)]
struct Entry {
    /// The texel's address, or the largest number for an empty slot.
    key: u64,
    texel: Texel,
}

/// A direct-mapped texel cache.
#[derive(Debug)]
pub struct Cache {
    entries: [Entry; 256],
    hits: u32,
    misses: u32,
}

impl Cache {
    /// What the cache holds for an address.
    pub closed spec fn held(self, key: u64) -> Option<Texel> {
        let entry = self.entries@[(key % 256) as int];
        if entry.key == key {
            Some(entry.texel)
        } else {
            None
        }
    }

    pub closed spec fn hit_count(self) -> u32 {
        self.hits
    }

    pub closed spec fn miss_count(self) -> u32 {
        self.misses
    }

    /// Whether the cache holds nothing. The largest number is no address.
    pub open spec fn vacant(self) -> bool {
        forall|key: u64| key < u64::MAX ==> #[trigger] self.held(key) is None
    }

    pub fn new() -> (made: Cache)
        ensures
            made.vacant(),
            made.hit_count() == 0,
            made.miss_count() == 0,
    {
        let made = Cache {
            entries: [Entry { key: 0xffff_ffff_ffff_ffff, texel: [0, 0, 0, 0] };256],
            hits: 0,
            misses: 0,
        };
        assert forall|key: u64| key < u64::MAX implies #[trigger] made.held(key) is None by {
            assert(made.entries@[(key % 256) as int].key == 0xffff_ffff_ffff_ffff);
        }
        made
    }

    /// Empty it, as a change of a texture's contents requires: an address says where, not when.
    pub fn clear(&mut self)
        ensures
            final(self).vacant(),
            final(self).hit_count() == old(self).hit_count(),
            final(self).miss_count() == old(self).miss_count(),
    {
        let mut index: usize = 0;
        while index < CACHE_ENTRIES
            invariant
                index <= 256,
                self.hits == old(self).hits,
                self.misses == old(self).misses,
                forall|i: int|
                    0 <= i < index ==> (#[trigger] self.entries@[i]).key == 0xffff_ffff_ffff_ffff,
            decreases CACHE_ENTRIES - index,
        {
            let texel = self.entries[index].texel;
            self.entries[index] = Entry { key: 0xffff_ffff_ffff_ffff, texel };
            index = index + 1;
        }
        assert forall|key: u64| key < u64::MAX implies #[trigger] self.held(key) is None by {
            assert(self.entries@[(key % 256) as int].key == 0xffff_ffff_ffff_ffff);
        }
    }

    pub fn hits(&self) -> (count: u32)
        ensures
            count == self.hit_count(),
    {
        self.hits
    }

    pub fn misses(&self) -> (count: u32)
        ensures
            count == self.miss_count(),
    {
        self.misses
    }

    /// What the cache holds for an address, counted as a hit or a miss.
    pub fn lookup(&mut self, key: u64) -> (found: Option<Texel>)
        requires
            old(self).hit_count() < u32::MAX,
            old(self).miss_count() < u32::MAX,
        ensures
            found == old(self).held(key),
            final(self).hit_count() == old(self).hit_count() + (if found is Some {
                1int
            } else {
                0
            }),
            final(self).miss_count() == old(self).miss_count() + (if found is Some {
                0int
            } else {
                1
            }),
            forall|other: u64| #[trigger] final(self).held(other) == old(self).held(other),
    {
        let slot: usize = (key % 256) as usize;
        if self.entries[slot].key == key {
            self.hits = self.hits + 1;
            return Some(self.entries[slot].texel);
        }
        self.misses = self.misses + 1;
        None
    }

    /// Keep a texel under its address, in place of what shared its slot.
    pub fn store(&mut self, key: u64, texel: Texel)
        ensures
            forall|other: u64| #[trigger]
                final(self).held(other) == (if other == key {
                    Some(texel)
                } else if other % 256 == key % 256 {
                    None
                } else {
                    old(self).held(other)
                }),
            final(self).hit_count() == old(self).hit_count(),
            final(self).miss_count() == old(self).miss_count(),
    {
        let slot: usize = (key % 256) as usize;
        self.entries[slot] = Entry { key, texel };
    }
}

/// A texel's address as one number.
pub open spec fn address_key(texture: u32, level: u32, x: u32, y: u32, z: u32) -> u64 {
    (((x & 0xf) | ((y & 0xf) << 4u32)) as u64) | ((((x >> 4u32) as u64) | (((y >> 4u32) as u64) << 12u64) | ((
    z as u64) << 24u64) | ((level as u64) << 32u64) | ((texture as u64) << 40u64)) << 8u64)
}

/// A texel's address as one number: the texture, the level and the coordinates, with the low bits of two
/// coordinates at the bottom so that neighbours have slots of their own.
pub fn texel_key(texture: u32, level: u32, x: u32, y: u32, z: u32) -> (key: u64)
    ensures
        key == address_key(texture, level, x, y, z),
{
    let interleaved: u64 = ((x & 0xf) | ((y & 0xf) << 4u32)) as u64;
    let rest: u64 = ((x >> 4u32) as u64) | (((y >> 4u32) as u64) << 12u64) | ((z as u64) << 24u64) | ((
    level as u64) << 32u64) | ((texture as u64) << 40u64);
    interleaved | (rest << 8u64)
}

/// Distinct texels have distinct addresses, within the sizes the address has room for.
pub proof fn distinct_texels_have_distinct_keys(
    texture: u32,
    level: u32,
    x: u32,
    y: u32,
    z: u32,
    other_texture: u32,
    other_level: u32,
    u: u32,
    v: u32,
    w: u32,
)
    requires
        texture < 0x1_0000 && other_texture < 0x1_0000,
        level < 0x100 && other_level < 0x100,
        x < 0x1_0000 && y < 0x1_0000 && u < 0x1_0000 && v < 0x1_0000,
        z < 0x100 && w < 0x100,
        address_key(texture, level, x, y, z) == address_key(other_texture, other_level, u, v, w),
    ensures
        texture == other_texture,
        level == other_level,
        x == u,
        y == v,
        z == w,
{
    assert(texture == other_texture && level == other_level && x == u && y == v && z == w) by (bit_vector)
        requires
            texture < 0x1_0000 && other_texture < 0x1_0000,
            level < 0x100 && other_level < 0x100,
            x < 0x1_0000 && y < 0x1_0000 && u < 0x1_0000 && v < 0x1_0000,
            z < 0x100 && w < 0x100,
            address_key(texture, level, x, y, z) == address_key(other_texture, other_level, u, v, w),
    ;
}

/// The texels of a block of sixteen by sixteen have slots of their own.
pub proof fn a_neighbourhood_has_its_own_slots(texture: u32, level: u32, x: u32, y: u32, z: u32)
    ensures
        address_key(texture, level, x, y, z) % 256 == (x % 16) + 16 * (y % 16),
{
    assert(address_key(texture, level, x, y, z) % 256 == (x % 16) + 16 * (y % 16)) by (bit_vector);
}

// ---------------------------------------------------------------------------------------------
// Addressing.
// ---------------------------------------------------------------------------------------------
/// The largest texel coordinate an address is made of: beyond it a binary32 value does not name adjacent
/// integers.
pub const TEXEL_COORD_BOUND: i64 = 16_777_216;

/// The same bound as a number, to either side.
pub const FARTHEST: u32 = 0x4B80_0000;

pub const FARTHEST_BACK: u32 = 0xCB80_0000;

/// Where a sample is among the texels of an axis: nothing for what is not a number, and never past the bound.
pub open spec fn in_texels(scaled: u32) -> u32 {
    if nan(scaled) {
        0
    } else {
        clamped(scaled, FARTHEST_BACK, FARTHEST)
    }
}

/// Where a sample is among the texels of an axis, and the texel it is at or past, from the coordinate times the
/// extent less a half.
pub fn texel_space(scaled: u32) -> (place: (u32, i64))
    ensures
        place.0 == in_texels(scaled),
        place.1 == floored(in_texels(scaled)),
        -TEXEL_COORD_BOUND <= place.1 <= TEXEL_COORD_BOUND,
{
    let at: u32 = if is_nan(scaled) {
        0
    } else {
        clamp(scaled, FARTHEST_BACK, FARTHEST)
    };
    proof {
        a_sample_is_near_a_texel(scaled);
    }
    (at, floor_wide(at))
}

/// Whatever a shader makes of a coordinate, the texel it is at is one an address can be made of.
pub proof fn a_sample_is_near_a_texel(scaled: u32)
    ensures
        finite(in_texels(scaled)),
        -TEXEL_COORD_BOUND <= floored(in_texels(scaled)) <= TEXEL_COORD_BOUND,
{
    let at = in_texels(scaled);
    let (whole, power) = (significand(at), exponent(at));
    assert(magnitude(at) <= 0x4B80_0000);
    lemma2_to64();
    if power >= 0 {
        assert(power <= 1);
        if power == 1 {
            assert(magnitude(at) == 0x4B80_0000);
            assert(whole == 0x80_0000);
            assert(pow2(power as nat) == 2);
        } else {
            assert(pow2(power as nat) == 1);
        }
        assert(0 <= whole * pow2(power as nat) <= 0x100_0000) by (nonlinear_arith)
            requires
                (whole == 0x80_0000 && pow2(power as nat) == 2) || (0 <= whole <= 0x100_0000 && pow2(power as nat) == 1),
        ;
    } else {
        let parts = pow2((-power) as nat) as int;
        lemma_pow2_pos((-power) as nat);
        lemma_fundamental_div_mod(whole, parts);
        lemma_fundamental_div_mod(whole + parts - 1, parts);
        let (down, up) = (whole / parts, (whole + parts - 1) / parts);
        assert(0 <= down <= whole) by (nonlinear_arith)
            requires
                whole == parts * down + whole % parts,
                0 <= whole % parts < parts,
                whole >= 0,
                parts >= 1,
        ;
        assert(0 <= up <= whole + 1) by (nonlinear_arith)
            requires
                whole + parts - 1 == parts * up + (whole + parts - 1) % parts,
                0 <= (whole + parts - 1) % parts < parts,
                whole >= 0,
                parts >= 1,
        ;
    }
}

/// The level a sample is taken at: the sharpest for what is not a number, and none past the last.
pub fn clamped_level(level: u32, last: u32) -> (kept: u32)
    ensures
        kept == (if finite(level) {
            clamped(level, 0, last)
        } else {
            0
        }),
{
    if is_finite(level) {
        clamp(level, 0, last)
    } else {
        0
    }
}

/// The level a footprint asks for, from its length in texels and the logarithm of that with the bias: the sharpest
/// allowed for a footprint of no length, and otherwise one within the sampler's limits and then within the chain.
pub fn level_of_detail(footprint: u32, logarithm: u32, limits: (u32, u32), last: u32) -> (level: u32)
    ensures
        level == (if reaches(0, footprint) || !finite(footprint) {
            larger(limits.0, 0)
        } else {
            clamped(clamped(logarithm, limits.0, limits.1), 0, last)
        }),
{
    if at_least(0, footprint) || !is_finite(footprint) {
        greater_of(limits.0, 0)
    } else {
        clamp(clamp(logarithm, limits.0, limits.1), 0, last)
    }
}

/// A level that was asked for is one of the chain.
pub proof fn an_asked_level_is_in_the_chain(logarithm: u32, limits: (u32, u32), last: u32)
    requires
        !nan(logarithm),
        reaches(limits.1, limits.0),
        reaches(last, 0),
    ensures
        ({
            let level = clamped(clamped(logarithm, limits.0, limits.1), 0, last);
            reaches(level, 0) && reaches(last, level)
        }),
{
}

/// An integer held between two others.
pub open spec fn between(value: int, low: int, high: int) -> int {
    if value < low {
        low
    } else if value > high {
        high
    } else {
        value
    }
}

/// Which texel of an axis a coordinate selects, or none where it falls on the border.
pub open spec fn addressed(coordinate: int, extent: u32, wrap: Wrap) -> Option<int> {
    let index = between(coordinate, -TEXEL_COORD_BOUND, TEXEL_COORD_BOUND as int);
    let size = extent as int;
    if size == 0 {
        None
    } else {
        match wrap {
            Wrap::ClampToEdge => Some(between(index, 0, size - 1)),
            Wrap::Repeat => Some(index % size),
            Wrap::MirroredRepeat => {
                let folded = index % (2 * size);
                Some(
                    if folded < size {
                        folded
                    } else {
                        2 * size - 1 - folded
                    },
                )
            },
            Wrap::ClampToBorder => if 0 <= index < size {
                Some(index)
            } else {
                None
            },
        }
    }
}

/// The Euclidean remainder.
fn remainder(value: i64, size: i64) -> (rest: i64)
    requires
        0 < size,
        -TEXEL_COORD_BOUND <= value <= TEXEL_COORD_BOUND,
    ensures
        rest == value as int % size as int,
        0 <= rest < size,
{
    if value >= 0 {
        value % size
    } else {
        let mirrored: i64 = -1 - value;
        let rest: i64 = mirrored % size;
        proof {
            lemma_fundamental_div_mod(mirrored as int, size as int);
            let quotient = mirrored as int / size as int;
            assert(value == (-1 - quotient) * size + (size - 1 - rest)) by (nonlinear_arith)
                requires
                    mirrored == -1 - value,
                    mirrored == size * quotient + rest,
            ;
            lemma_fundamental_div_mod_converse(
                value as int,
                size as int,
                -1 - quotient,
                size - 1 - rest,
            );
        }
        size - 1 - rest
    }
}

/// Which texel of an axis a coordinate selects: none for a coordinate that is not a number, and none where
/// it falls on the border.
pub fn address(coordinate: Option<i64>, extent: u32, wrap: Wrap) -> (texel: Option<i64>)
    ensures
        match coordinate {
            None => texel is None,
            Some(at) => match texel {
                Some(found) => addressed(at as int, extent, wrap) == Some(found as int) && 0 <= found
                    < extent,
                None => addressed(at as int, extent, wrap) is None,
            },
        },
{
    let size: i64 = extent as i64;
    if size == 0 {
        return None;
    }
    let at: i64 = match coordinate {
        None => {
            return None;
        },
        Some(found) => found,
    };
    let index: i64 = if at < -TEXEL_COORD_BOUND {
        -TEXEL_COORD_BOUND
    } else if at > TEXEL_COORD_BOUND {
        TEXEL_COORD_BOUND
    } else {
        at
    };
    match wrap {
        Wrap::ClampToEdge => {
            if index < 0 {
                Some(0)
            } else if index > size - 1 {
                Some(size - 1)
            } else {
                Some(index)
            }
        },
        Wrap::Repeat => Some(remainder(index, size)),
        Wrap::MirroredRepeat => {
            let period: i64 = 2 * size;
            let folded: i64 = remainder(index, period);
            if folded < size {
                Some(folded)
            } else {
                Some(period - 1 - folded)
            }
        },
        Wrap::ClampToBorder => {
            if index < 0 || index >= size {
                None
            } else {
                Some(index)
            }
        },
    }
}

/// Under a repeating wrap a coordinate and the one a whole texture further select the same texel.
pub proof fn repeating_is_periodic(coordinate: int, extent: u32)
    requires
        extent > 0,
        -TEXEL_COORD_BOUND <= coordinate,
        coordinate + extent <= TEXEL_COORD_BOUND,
    ensures
        addressed(coordinate + extent, extent, Wrap::Repeat) == addressed(coordinate, extent, Wrap::Repeat),
{
    vstd::arithmetic::div_mod::lemma_mod_add_multiples_vanish(coordinate, extent as int);
}

/// A mirrored wrap reads the same texels going left from zero as going right.
pub proof fn mirroring_is_symmetric(coordinate: int, extent: u32)
    requires
        extent > 0,
        0 <= coordinate < TEXEL_COORD_BOUND,
    ensures
        addressed(-1 - coordinate, extent, Wrap::MirroredRepeat) == addressed(
            coordinate,
            extent,
            Wrap::MirroredRepeat,
        ),
{
    let period = 2 * extent as int;
    lemma_fundamental_div_mod(coordinate, period);
    let (quotient, rest) = (coordinate / period, coordinate % period);
    assert(-1 - coordinate == (-1 - quotient) * period + (period - 1 - rest)) by (nonlinear_arith)
        requires
            coordinate == period * quotient + rest,
    ;
    lemma_fundamental_div_mod_converse(-1 - coordinate, period, -1 - quotient, period - 1 - rest);
}

/// Inside the texture every wrap selects the texel the coordinate names.
pub proof fn a_coordinate_inside_is_its_own_address(coordinate: int, extent: u32, wrap: Wrap)
    requires
        0 <= coordinate < extent,
        coordinate <= TEXEL_COORD_BOUND,
    ensures
        addressed(coordinate, extent, wrap) == Some(coordinate),
{
    vstd::arithmetic::div_mod::lemma_small_mod(coordinate as nat, extent as nat);
    vstd::arithmetic::div_mod::lemma_small_mod(coordinate as nat, (2 * extent as int) as nat);
}

/// Which texel of a level a tap reads, or none where an axis falls on the border.
pub open spec fn located(level: Plane, at: (int, int, int), sampler: Sampler) -> Option<(u32, u32, u32)> {
    match (
        addressed(at.0, level.width, sampler.wrap_u),
        addressed(at.1, level.height, sampler.wrap_v),
        addressed(at.2, level.depth, sampler.wrap_w),
    ) {
        (Some(x), Some(y), Some(z)) => Some((x as u32, y as u32, z as u32)),
        _ => None,
    }
}

/// Which texel of a level a tap reads, or none where an axis falls on the border.
pub fn locate(level: &Level, at: (i64, i64, i64), sampler: &Sampler) -> (texel: Option<(u32, u32, u32)>)
    ensures
        texel == located(level@, (at.0 as int, at.1 as int, at.2 as int), *sampler),
{
    match address(Some(at.0), level.width, sampler.wrap_u) {
        None => None,
        Some(x) => match address(Some(at.1), level.height, sampler.wrap_v) {
            None => None,
            Some(y) => match address(Some(at.2), level.depth, sampler.wrap_w) {
                None => None,
                Some(z) => Some((x as u32, y as u32, z as u32)),
            },
        },
    }
}

/// What reading one tap comes to.
#[derive(Clone, Copy, Debug)]
pub enum Fetched {
    /// The tap's value, in linear premultiplied form.
    Ready(Texel),
    /// The stored texel, which the caller decodes; under this address the cache can keep the result.
    Stored { key: u64, raw: Texel },
}

/// One tap of one level, without a cache.
pub open spec fn fetched(texture: Texture, level_index: u32, at: (int, int, int), sampler: Sampler) -> Fetched {
    let level = texture.levels@[level_index as int]@;
    match located(level, at, sampler) {
        None => Fetched::Ready(sampler.border.colour()),
        Some((x, y, z)) => Fetched::Stored {
            key: address_key(texture.id, level_index, x, y, z),
            raw: level.texel(x, y, z),
        },
    }
}

/// One tap of one level, without a cache.
pub fn fetch(texture: &Texture, level_index: u32, at: (i64, i64, i64), sampler: &Sampler) -> (tap: Fetched)
    requires
        level_index < texture.levels@.len(),
    ensures
        tap == fetched(*texture, level_index, (at.0 as int, at.1 as int, at.2 as int), *sampler),
{
    let level = &texture.levels[level_index as usize];
    match locate(level, at, sampler) {
        None => Fetched::Ready(sampler.border.texel()),
        Some((x, y, z)) => {
            let key: u64 = texel_key(texture.id, level_index, x, y, z);
            Fetched::Stored { key, raw: level.at(x, y, z) }
        },
    }
}

/// One tap of one level through a cache. A border is not looked up: it is no texel.
pub fn fetch_cached(
    texture: &Texture,
    level_index: u32,
    at: (i64, i64, i64),
    sampler: &Sampler,
    cache: &mut Cache,
) -> (tap: Fetched)
    requires
        level_index < texture.levels@.len(),
        old(cache).hit_count() < u32::MAX,
        old(cache).miss_count() < u32::MAX,
    ensures
        ({
            let plain = fetched(*texture, level_index, (at.0 as int, at.1 as int, at.2 as int), *sampler);
            match plain {
                Fetched::Ready(_) => tap == plain && *final(cache) == *old(cache),
                Fetched::Stored { key, .. } => tap == (match old(cache).held(key) {
                    Some(texel) => Fetched::Ready(texel),
                    None => plain,
                }) && final(cache).hit_count() - old(cache).hit_count() == (if old(cache).held(key) is Some {
                    1int
                } else {
                    0
                }) && final(cache).miss_count() - old(cache).miss_count() == (if old(cache).held(key) is Some {
                    0int
                } else {
                    1
                }),
            }
        }),
        forall|other: u64| #[trigger] final(cache).held(other) == old(cache).held(other),
{
    match fetch(texture, level_index, at, sampler) {
        Fetched::Ready(texel) => Fetched::Ready(texel),
        Fetched::Stored { key, raw } => match cache.lookup(key) {
            Some(texel) => Fetched::Ready(texel),
            None => Fetched::Stored { key, raw },
        },
    }
}

/// The taps of one sample within a level, in the order they are blended: one where the nearest is taken,
/// else the corners of the cell the sample point lies in.
pub open spec fn tap_points(
    depth: u32,
    floor: (int, int, int),
    nearest: (int, int, int),
    filter: Filter,
) -> Seq<(int, int, int)> {
    let (x, y, z) = floor;
    match filter {
        Filter::Nearest => seq![nearest],
        Filter::Linear => if depth > 1 {
            seq![
                (x, y, z),
                (x + 1, y, z),
                (x, y + 1, z),
                (x + 1, y + 1, z),
                (x, y, z + 1),
                (x + 1, y, z + 1),
                (x, y + 1, z + 1),
                (x + 1, y + 1, z + 1),
            ]
        } else {
            seq![(x, y, 0), (x + 1, y, 0), (x, y + 1, 0), (x + 1, y + 1, 0)]
        },
    }
}

/// A list of taps as mathematics.
pub open spec fn points_of(taps: Seq<(i64, i64, i64)>) -> Seq<(int, int, int)> {
    Seq::new(taps.len(), |i: int| (taps[i].0 as int, taps[i].1 as int, taps[i].2 as int))
}

/// The taps of one sample within a level, from the sample point's texel coordinates rounded down and
/// rounded to the nearest.
pub fn taps(
    depth: u32,
    floor: (i64, i64, i64),
    nearest: (i64, i64, i64),
    filter: Filter,
) -> (points: Vec<(i64, i64, i64)>)
    requires
        floor.0 <= TEXEL_COORD_BOUND,
        floor.1 <= TEXEL_COORD_BOUND,
        floor.2 <= TEXEL_COORD_BOUND,
    ensures
        points_of(points@) == tap_points(
            depth,
            (floor.0 as int, floor.1 as int, floor.2 as int),
            (nearest.0 as int, nearest.1 as int, nearest.2 as int),
            filter,
        ),
{
    let (x, y, z): (i64, i64, i64) = floor;
    let mut points: Vec<(i64, i64, i64)> = Vec::new();
    match filter {
        Filter::Nearest => {
            points.push(nearest);
        },
        Filter::Linear => {
            let base: i64 = if depth > 1 {
                z
            } else {
                0
            };
            points.push((x, y, base));
            points.push((x + 1, y, base));
            points.push((x, y + 1, base));
            points.push((x + 1, y + 1, base));
            if depth > 1 {
                points.push((x, y, z + 1));
                points.push((x + 1, y, z + 1));
                points.push((x, y + 1, z + 1));
                points.push((x + 1, y + 1, z + 1));
            }
        },
    }
    assert(points_of(points@) =~= tap_points(
        depth,
        (floor.0 as int, floor.1 as int, floor.2 as int),
        (nearest.0 as int, nearest.1 as int, nearest.2 as int),
        filter,
    ));
    points
}

// ---------------------------------------------------------------------------------------------
// Levels.
// ---------------------------------------------------------------------------------------------
/// Which levels a sample reads.
#[derive(Clone, Copy, PartialEq, Eq, Structural, Debug)]
pub enum LevelChoice {
    One(u32),
    /// Two neighbouring levels, which the caller blends.
    Two(u32, u32),
}

/// Which levels a sample reads, of a chain of `levels`: `floor` and `nearest` are the level of detail,
/// clamped to the chain, rounded down and to the nearest.
pub open spec fn level_choice(mip: Filter, levels: u32, floor: u32, nearest: u32) -> LevelChoice {
    let last = if levels == 0 {
        0
    } else {
        (levels - 1) as u32
    };
    if mip == Filter::Nearest {
        LevelChoice::One(
            if nearest < last {
                nearest
            } else {
                last
            },
        )
    } else if floor >= last {
        LevelChoice::One(last)
    } else {
        LevelChoice::Two(floor, (floor + 1) as u32)
    }
}

/// Which levels a sample reads. At the last level it alone is read: there is none to blend it with.
pub fn choose_levels(mip: Filter, levels: u32, floor: u32, nearest: u32) -> (choice: LevelChoice)
    ensures
        choice == level_choice(mip, levels, floor, nearest),
{
    let last: u32 = if levels == 0 {
        0
    } else {
        levels - 1
    };
    if mip == Filter::Nearest {
        if nearest < last {
            LevelChoice::One(nearest)
        } else {
            LevelChoice::One(last)
        }
    } else if floor >= last {
        LevelChoice::One(last)
    } else {
        LevelChoice::Two(floor, floor + 1)
    }
}

/// A sample never reads a level outside the chain.
pub proof fn a_chosen_level_is_in_the_chain(mip: Filter, levels: u32, floor: u32, nearest: u32)
    requires
        levels > 0,
    ensures
        match level_choice(mip, levels, floor, nearest) {
            LevelChoice::One(level) => level < levels,
            LevelChoice::Two(first, second) => first < second < levels,
        },
{
}

/// The level an array sample reads, or why it is refused: a level or a layer that is not there is not
/// replaced by one that is.
pub fn sample_array(texture: &Texture, layer: u32, floor: u32) -> (level: Result<u32, Error>)
    requires
        texture.levels@.len() <= u32::MAX,
    ensures
        ({
            let last = texture.levels@.len() - 1;
            let index = if floor < last {
                floor as int
            } else {
                last
            };
            match level {
                Ok(found) => texture.levels@.len() > 0 && found == index && layer
                    < texture.levels@[index].depth,
                Err(error) => if texture.levels@.len() == 0 {
                    error == (Error::InvalidTexture { reason: TextureFault::NoSuchLevel })
                } else {
                    layer >= texture.levels@[index].depth && error == (Error::InvalidTexture {
                        reason: TextureFault::NoSuchLayer,
                    })
                },
            }
        }),
{
    let count: u32 = texture.levels();
    if count == 0 {
        return Err(Error::InvalidTexture { reason: TextureFault::NoSuchLevel });
    }
    let index: u32 = if floor < count - 1 {
        floor
    } else {
        count - 1
    };
    if layer >= texture.levels[index as usize].depth {
        return Err(Error::InvalidTexture { reason: TextureFault::NoSuchLayer });
    }
    Ok(index)
}

/// How many taps an anisotropic sample takes along the long axis of its footprint, or none where the
/// isotropic rule applies. `ratio` is the long axis over the short one, rounded up.
pub fn anisotropic_taps(anisotropy: u32, long: u32, short: u32, ratio: u32) -> (count: Option<u32>)
    ensures
        match count {
            Some(taps) => anisotropy > 1 && !reaches(0, short) && finite(long) && taps == between(
                ratio as int,
                1,
                anisotropy as int,
            ),
            None => anisotropy <= 1 || reaches(0, short) || !finite(long),
        },
{
    if anisotropy <= 1 || at_least(0, short) || !is_finite(long) {
        return None;
    }
    if ratio < 1 {
        Some(1)
    } else if ratio > anisotropy {
        Some(anisotropy)
    } else {
        Some(ratio)
    }
}

/// The comparison of a depth-compare sample, or why the sample is refused.
pub fn compare_of(texture: &Texture, sampler: &Sampler, level: u32) -> (compare: Result<CompareOp, Error>)
    ensures
        match compare {
            Ok(op) => sampler.compare == Some(op) && level < texture.levels@.len(),
            Err(error) => if sampler.compare is None {
                error == (Error::InvalidRenderState { reason: StateFault::NoComparison })
            } else {
                level >= texture.levels@.len() && error == (Error::InvalidTexture {
                    reason: TextureFault::NoSuchLevel,
                })
            },
        },
{
    match sampler.compare {
        None => Err(Error::InvalidRenderState { reason: StateFault::NoComparison }),
        Some(op) => match texture.level(level) {
            None => Err(Error::InvalidTexture { reason: TextureFault::NoSuchLevel }),
            Some(_) => Ok(op),
        },
    }
}

/// Each tap of a depth-compare sample, compared before anything is filtered: one where it passed, zero
/// where it did not.
pub fn compared_taps(compare: CompareOp, reference: u32, stored: &[Texel]) -> (answers: Vec<u32>)
    ensures
        answers@.len() == stored@.len(),
        forall|i: int|
            0 <= i < stored@.len() ==> #[trigger] answers@[i] == (if compare.passes(
                reference,
                stored@[i][0],
            ) {
                ONE
            } else {
                0
            }),
{
    let mut answers: Vec<u32> = Vec::new();
    let mut next: usize = 0;
    while next < stored.len()
        invariant
            next <= stored@.len(),
            answers@.len() == next,
            forall|i: int|
                0 <= i < next ==> #[trigger] answers@[i] == (if compare.passes(reference, stored@[i][0]) {
                    ONE
                } else {
                    0
                }),
        decreases stored@.len() - next,
    {
        let depth: u32 = stored[next][0];
        answers.push(
            if compare.test(reference, depth) {
                ONE
            } else {
                0
            },
        );
        next = next + 1;
    }
    answers
}

/// A colour attachment's resolved contents as a texture that is already linear and premultiplied.
pub fn from_attachment(attachment: &Colour, resolved: Vec<Pixel>, id: u32) -> (texture: Texture)
    ensures
        texture.id == id,
        texture.kind == Kind::Dim2,
        texture.levels@.len() == 1,
        texture.levels@[0]@ == (Plane {
            width: attachment.width,
            height: attachment.height,
            depth: 1,
            texels: resolved@,
        }),
        texture.transfer == Transfer::Linear,
        texture.semantics == (if attachment.integer {
            Semantics::Identity
        } else {
            Semantics::Color
        }),
        texture.premultiplied,
{
    let mut levels: Vec<Level> = Vec::new();
    levels.push(
        Level { width: attachment.width, height: attachment.height, depth: 1, texels: resolved },
    );
    Texture {
        id,
        kind: Kind::Dim2,
        levels,
        transfer: Transfer::Linear,
        semantics: if attachment.integer {
            Semantics::Identity
        } else {
            Semantics::Color
        },
        premultiplied: true,
    }
}

// ---------------------------------------------------------------------------------------------
// Cube maps.
// ---------------------------------------------------------------------------------------------
/// A direction seen from one face of a cube: the caller divides `s` and `t` by `major`, which runs from
/// minus one to one across the face. A `major` of zero stands for the middle of the face.
#[derive(Clone, Copy, PartialEq, Eq, Structural, Debug)]
pub struct CubeFace {
    pub face: u32,
    pub major: u32,
    pub s: u32,
    pub t: u32,
}

/// Which face a direction selects: the major axis decides it, and the two others become `s` and `t` with
/// the signs of the standard table.
pub open spec fn cube_projection(x: u32, y: u32, z: u32) -> CubeFace {
    let (ax, ay, az) = (absolute(x), absolute(y), absolute(z));
    if reaches(ax, ay) && reaches(ax, az) {
        if below(0, x) {
            CubeFace { face: 0, major: ax, s: opposite(z), t: opposite(y) }
        } else {
            CubeFace { face: 1, major: ax, s: z, t: opposite(y) }
        }
    } else if reaches(ay, az) {
        if below(0, y) {
            CubeFace { face: 2, major: ay, s: x, t: z }
        } else {
            CubeFace { face: 3, major: ay, s: x, t: opposite(z) }
        }
    } else if below(0, z) {
        CubeFace { face: 4, major: az, s: x, t: opposite(y) }
    } else {
        CubeFace { face: 5, major: az, s: opposite(x), t: opposite(y) }
    }
}

/// Which face a direction selects.
pub fn cube_face(direction: [u32; 3]) -> (seen: CubeFace)
    ensures
        seen == cube_projection(direction[0], direction[1], direction[2]),
{
    let (x, y, z): (u32, u32, u32) = (direction[0], direction[1], direction[2]);
    let (ax, ay, az): (u32, u32, u32) = (abs(x), abs(y), abs(z));
    if at_least(ax, ay) && at_least(ax, az) {
        if less(0, x) {
            CubeFace { face: 0, major: ax, s: negate(z), t: negate(y) }
        } else {
            CubeFace { face: 1, major: ax, s: z, t: negate(y) }
        }
    } else if at_least(ay, az) {
        if less(0, y) {
            CubeFace { face: 2, major: ay, s: x, t: z }
        } else {
            CubeFace { face: 3, major: ay, s: x, t: negate(z) }
        }
    } else if less(0, z) {
        CubeFace { face: 4, major: az, s: x, t: negate(y) }
    } else {
        CubeFace { face: 5, major: az, s: negate(x), t: negate(y) }
    }
}

/// The bit pattern of `-1.0`.
pub const MINUS_ONE: u32 = 0xBF80_0000;

/// The direction a point of a face names, its coordinates running from minus one to one.
pub open spec fn face_direction(face: u32, s: u32, t: u32) -> (u32, u32, u32) {
    if face == 0 {
        (ONE, opposite(t), opposite(s))
    } else if face == 1 {
        (MINUS_ONE, opposite(t), s)
    } else if face == 2 {
        (s, ONE, t)
    } else if face == 3 {
        (s, MINUS_ONE, opposite(t))
    } else if face == 4 {
        (s, opposite(t), ONE)
    } else {
        (opposite(s), opposite(t), MINUS_ONE)
    }
}

/// The direction a point of a face names.
pub fn direction_of(face: u32, s: u32, t: u32) -> (direction: [u32; 3])
    ensures
        direction@ == seq![
            face_direction(face, s, t).0,
            face_direction(face, s, t).1,
            face_direction(face, s, t).2,
        ],
{
    let direction: [u32; 3] = match face {
        0 => [ONE, negate(t), negate(s)],
        1 => [MINUS_ONE, negate(t), s],
        2 => [s, ONE, t],
        3 => [s, MINUS_ONE, negate(t)],
        4 => [s, negate(t), ONE],
        _ => [negate(s), negate(t), MINUS_ONE],
    };
    assert(direction@ =~= seq![
        face_direction(face, s, t).0,
        face_direction(face, s, t).1,
        face_direction(face, s, t).2,
    ]);
    direction
}

/// Whether a tap at a point of a face, its coordinates running from zero to one, stays on the face.
pub open spec fn on_face(u: u32, v: u32) -> bool {
    reaches(u, 0) && reaches(ONE, u) && reaches(v, 0) && reaches(ONE, v)
}

/// The face a tap that left its own lands on: its direction projected anew. A tap that stayed needs none.
pub fn neighbour_of(face: u32, u: u32, v: u32, s: u32, t: u32) -> (landed: Option<CubeFace>)
    ensures
        match landed {
            None => on_face(u, v),
            Some(seen) => !on_face(u, v) && seen == cube_projection(
                face_direction(face, s, t).0,
                face_direction(face, s, t).1,
                face_direction(face, s, t).2,
            ),
        },
{
    if at_least(u, 0) && at_least(ONE, u) && at_least(v, 0) && at_least(ONE, v) {
        None
    } else {
        Some(cube_face(direction_of(face, s, t)))
    }
}

/// A direction seen from a face is the direction the face's point names: projecting undoes it, for every
/// point inside the face's edges.
pub proof fn projecting_undoes_a_face_direction(face: u32, s: u32, t: u32)
    requires
        face < 6,
        below(absolute(s), ONE),
        below(absolute(t), ONE),
    ensures
        ({
            let (x, y, z) = face_direction(face, s, t);
            cube_projection(x, y, z) == CubeFace { face, major: ONE, s, t }
        }),
{
}

/// Opposite directions are seen from opposite faces.
pub proof fn opposite_directions_select_opposite_faces(x: u32, y: u32, z: u32)
    requires
        !nan(x) && !nan(y) && !nan(z),
        !same(cube_projection(x, y, z).major, 0),
    ensures
        ({
            let seen = cube_projection(x, y, z);
            let behind = cube_projection(opposite(x), opposite(y), opposite(z));
            behind.major == seen.major && behind.face / 2 == seen.face / 2 && behind.face != seen.face
        }),
{
}

/// The major axis is the longest.
pub proof fn the_major_axis_is_the_longest(x: u32, y: u32, z: u32)
    requires
        !nan(x) && !nan(y) && !nan(z),
    ensures
        reaches(cube_projection(x, y, z).major, absolute(x)),
        reaches(cube_projection(x, y, z).major, absolute(y)),
        reaches(cube_projection(x, y, z).major, absolute(z)),
{
}

// ---------------------------------------------------------------------------------------------
// Laws of sampling.
// ---------------------------------------------------------------------------------------------
/// A linear sample reads the corners of the cell its point lies in, left before right, then upper before lower, then
/// front before back: tap `k` is `k mod 2` columns, `k / 2 mod 2` rows and `k / 4` slices from the first.
pub proof fn linear_taps_are_the_corners_in_order(
    depth: u32,
    floor: (int, int, int),
    nearest: (int, int, int),
    k: int,
)
    requires
        0 <= k < tap_points(depth, floor, nearest, Filter::Linear).len(),
    ensures
        ({
            let points = tap_points(depth, floor, nearest, Filter::Linear);
            let flat = depth <= 1;
            &&& points.len() == if flat {
                4int
            } else {
                8
            }
            &&& points[k].0 - floor.0 == k % 2
            &&& points[k].1 - floor.1 == k / 2 % 2
            &&& points[k].2 == if flat {
                0
            } else {
                floor.2 + k / 4
            }
        }),
{
}

/// A nearest sample reads one texel: the nearest.
pub proof fn a_nearest_sample_reads_one_texel(depth: u32, floor: (int, int, int), nearest: (int, int, int))
    ensures
        tap_points(depth, floor, nearest, Filter::Nearest).len() == 1,
        tap_points(depth, floor, nearest, Filter::Nearest)[0] == nearest,
{
}

/// Whether a coordinate has a texel of an axis under a wrap, and that texel: the nearest one for a clamp to the edge,
/// the one a whole number of extents away for a repeat, the one a whole number of double extents away or its mirror
/// image for a mirrored repeat, and the coordinate itself for a clamp to the border.
pub open spec fn stands_for(texel: int, coordinate: int, extent: int, wrap: Wrap) -> bool {
    &&& 0 <= texel < extent
    &&& match wrap {
        Wrap::ClampToEdge => forall|other: int|
            0 <= other < extent ==> distance(texel, coordinate) <= #[trigger] distance(other, coordinate),
        Wrap::Repeat => exists|turns: int| coordinate - texel == #[trigger] (turns * extent),
        Wrap::MirroredRepeat => exists|turns: int|
            {
                let away = #[trigger] (turns * (2 * extent));
                coordinate - texel == away || -1 - coordinate - texel == away
            },
        Wrap::ClampToBorder => texel == coordinate,
    }
}

/// How far apart two whole numbers are.
pub open spec fn distance(one: int, other: int) -> int {
    if one < other {
        other - one
    } else {
        one - other
    }
}

/// Every coordinate an address is made of stands for one texel of an axis under every wrap, but for one past the edge
/// under a clamp to the border, which stands for none.
pub proof fn an_address_stands_for_its_coordinate(coordinate: int, extent: u32, wrap: Wrap)
    requires
        extent > 0,
        -TEXEL_COORD_BOUND <= coordinate <= TEXEL_COORD_BOUND,
    ensures
        match addressed(coordinate, extent, wrap) {
            Some(texel) => stands_for(texel, coordinate, extent as int, wrap),
            None => wrap is ClampToBorder && !(0 <= coordinate < extent),
        },
{
    let size = extent as int;
    match wrap {
        Wrap::Repeat => {
            lemma_fundamental_div_mod(coordinate, size);
            let turns = coordinate / size;
            assert(coordinate - coordinate % size == turns * size) by (nonlinear_arith)
                requires
                    coordinate == size * turns + coordinate % size,
            ;
        },
        Wrap::MirroredRepeat => {
            let period = 2 * size;
            lemma_fundamental_div_mod(coordinate, period);
            let (turns, folded) = (coordinate / period, coordinate % period);
            let texel = addressed(coordinate, extent, wrap)->Some_0;
            if folded < size {
                assert(coordinate - texel == turns * (2 * size)) by (nonlinear_arith)
                    requires
                        coordinate == (2 * size) * turns + texel,
                ;
            } else {
                let back = -1 - turns;
                assert(-1 - coordinate - texel == back * (2 * size)) by (nonlinear_arith)
                    requires
                        coordinate == (2 * size) * turns + folded,
                        texel == 2 * size - 1 - folded,
                        back == -1 - turns,
                ;
            }
        },
        _ => {},
    }
}

/// A tap is addressed axis by axis, each by its own extent and its own wrap, and reads nothing exactly where an axis
/// that clamps to the border is past its edge.
pub proof fn a_tap_is_addressed_by_axis(level: Plane, at: (int, int, int), sampler: Sampler)
    requires
        level.width > 0 && level.height > 0 && level.depth > 0,
        -TEXEL_COORD_BOUND <= at.0 <= TEXEL_COORD_BOUND,
        -TEXEL_COORD_BOUND <= at.1 <= TEXEL_COORD_BOUND,
        -TEXEL_COORD_BOUND <= at.2 <= TEXEL_COORD_BOUND,
    ensures
        match located(level, at, sampler) {
            Some((x, y, z)) => {
                &&& stands_for(x as int, at.0, level.width as int, sampler.wrap_u)
                &&& stands_for(y as int, at.1, level.height as int, sampler.wrap_v)
                &&& stands_for(z as int, at.2, level.depth as int, sampler.wrap_w)
            },
            None => {
                ||| sampler.wrap_u is ClampToBorder && !(0 <= at.0 < level.width)
                ||| sampler.wrap_v is ClampToBorder && !(0 <= at.1 < level.height)
                ||| sampler.wrap_w is ClampToBorder && !(0 <= at.2 < level.depth)
            },
        },
{
    an_address_stands_for_its_coordinate(at.0, level.width, sampler.wrap_u);
    an_address_stands_for_its_coordinate(at.1, level.height, sampler.wrap_v);
    an_address_stands_for_its_coordinate(at.2, level.depth, sampler.wrap_w);
}

/// The texels of a level are stored row by row and slice by slice: one to the right is the next one, one further down
/// is a row further, one further back is a slice further, and the first is first.
pub proof fn texels_are_stored_in_order(x: u32, y: u32, z: u32, width: u32, height: u32)
    requires
        x < u32::MAX && y < u32::MAX && z < u32::MAX,
    ensures
        ({
            let here = texel_slot(x, y, z, width, height);
            &&& texel_slot((x + 1) as u32, y, z, width, height) - here == 1
            &&& texel_slot(x, (y + 1) as u32, z, width, height) - here == width
            &&& texel_slot(x, y, (z + 1) as u32, width, height) - here == width * height
            &&& texel_slot(0, 0, 0, width, height) == 0
        }),
{
    let row = z * height + y;
    assert((row + 1) * width == row * width + width) by (nonlinear_arith);
    assert((z + 1) * height + y == row + height) by (nonlinear_arith)
        requires
            row == z * height + y,
    ;
    assert((row + height) * width == row * width + width * height) by (nonlinear_arith);
    assert((0 * height + 0) * width + 0 == 0) by (nonlinear_arith);
}

/// Two places of a level inside its extents are stored at one place only where they are one, and every one of them is
/// stored.
pub proof fn texels_are_stored_apart(
    level: Plane,
    x: u32,
    y: u32,
    z: u32,
    u: u32,
    v: u32,
    w: u32,
)
    requires
        x < level.width && y < level.height && z < level.depth,
        u < level.width && v < level.height && w < level.depth,
    ensures
        0 <= texel_slot(x, y, z, level.width, level.height) < level.width * level.height * level.depth,
        texel_slot(x, y, z, level.width, level.height) == texel_slot(u, v, w, level.width, level.height) ==> x == u
            && y == v && z == w,
{
    let (width, height, depth) = (level.width as int, level.height as int, level.depth as int);
    let (r, q) = (z * height + y, w * height + v);
    crate::grid::cell_is_stored(y as int, z as int, height, depth);
    assert(0 <= r < height * depth);
    crate::grid::cell_is_stored(x as int, r, width, height * depth);
    assert(width * (height * depth) == width * height * depth) by (nonlinear_arith);
    if r * width + x == q * width + u {
        crate::grid::cells_are_apart(x as int, r, u as int, q, width);
        crate::grid::cells_are_apart(y as int, z as int, v as int, w as int, height);
    }
}

/// The level a nearest choice reads is the one of the chain that is nearest to the one wanted, and the two a linear
/// choice reads are neighbours with the wanted one at or between them; where there is no level behind it, the last is
/// read alone.
pub proof fn a_choice_is_the_nearest_level(mip: Filter, levels: u32, floor: u32, nearest: u32, other: u32)
    requires
        other < levels,
    ensures
        match level_choice(mip, levels, floor, nearest) {
            LevelChoice::One(level) => {
                let wanted = if mip is Nearest {
                    nearest
                } else {
                    floor
                };
                &&& level < levels
                &&& distance(level as int, wanted as int) <= distance(other as int, wanted as int)
                &&& mip is Linear ==> level == levels - 1
            },
            LevelChoice::Two(first, second) => mip is Linear && first == floor && second == floor + 1 && second
                < levels,
        },
{
}

/// The texel of a texture made of an attachment is the attachment's resolved pixel of the same place.
pub proof fn an_attachment_is_read_by_pixel(attachment: Colour, resolved: Vec<Pixel>, id: u32, made: Texture, x: u32, y: u32)
    requires
        call_ensures(from_attachment, (&attachment, resolved, id), made),
        resolved@.len() == attachment.width * attachment.height,
        x < attachment.width,
        y < attachment.height,
    ensures
        made.levels@[0]@.texel(x, y, 0) == resolved@[y * attachment.width + x],
        made.levels@.len() == 1,
        made.levels@[0].width == attachment.width && made.levels@[0].height == attachment.height,
        made.kind is Dim2,
        made.premultiplied && made.transfer is Linear,
{
    crate::grid::cell_is_stored(x as int, y as int, attachment.width as int, attachment.height as int);
    assert((0 * attachment.height + y) * attachment.width + x == y * attachment.width + x) by (nonlinear_arith);
}

/// A depth-compare sample holds the reference against each stored depth, the reference on the left, and answers one or
/// nothing.
pub proof fn a_reference_is_held_against_every_depth(
    compare: CompareOp,
    reference: u32,
    stored: &[Texel],
    answers: Vec<u32>,
    i: int,
)
    requires
        call_ensures(compared_taps, (compare, reference, stored), answers),
        0 <= i < stored@.len(),
        !nan(reference),
        !nan(stored@[i][0]),
    ensures
        answers@.len() == stored@.len(),
        answers@[i] == if super::state::relates(compare, number(reference), number(stored@[i][0])) {
            0x3F80_0000u32
        } else {
            0u32
        },
{
    super::state::a_comparison_is_by_number(compare, reference, stored@[i][0]);
}

/// An array sample reads the level of the chain that is nearest to the one wanted and the layer asked for, and is
/// refused exactly where there is no such level or layer.
pub proof fn an_array_sample_reads_what_is_there(
    texture: Texture,
    layer: u32,
    wanted: u32,
    outcome: Result<u32, Error>,
    other: int,
)
    requires
        texture.levels@.len() <= u32::MAX,
        call_ensures(sample_array, (&texture, layer, wanted), outcome),
        0 <= other < texture.levels@.len(),
    ensures
        ({
            let level = if wanted < texture.levels@.len() {
                wanted as int
            } else {
                texture.levels@.len() - 1
            };
            &&& distance(level, wanted as int) <= distance(other, wanted as int)
            &&& outcome is Ok <==> layer < texture.levels@[level].depth
            &&& outcome matches Ok(found) ==> found == level
        }),
{
}

/// The face a direction is seen from, by its numbers: the axis it is longest along, the first of them where two are as
/// long. Seen from outside, `t` runs down on the four sides and `s` to the right; the top and the bottom are turned so
/// that `s` runs along the first axis.
pub proof fn a_direction_is_seen_from_its_longest_axis(x: u32, y: u32, z: u32)
    requires
        !nan(x) && !nan(y) && !nan(z),
    ensures
        ({
            let seen = cube_projection(x, y, z);
            let (a, b, c) = (number(x), number(y), number(z));
            let (l, m, n) = (distance(a, 0), distance(b, 0), distance(c, 0));
            let (s, t) = (number(seen.s), number(seen.t));
            &&& l >= m && l >= n && a > 0 ==> seen.face == 0 && number(seen.major) == l && s == -c && t == -b
            &&& l >= m && l >= n && a <= 0 ==> seen.face == 1 && number(seen.major) == l && s == c && t == -b
            &&& m > l && m >= n && b > 0 ==> seen.face == 2 && number(seen.major) == m && s == a && t == c
            &&& m > l && m >= n && b <= 0 ==> seen.face == 3 && number(seen.major) == m && s == a && t == -c
            &&& n > l && n > m && c > 0 ==> seen.face == 4 && number(seen.major) == n && s == a && t == -b
            &&& n > l && n > m && c <= 0 ==> seen.face == 5 && number(seen.major) == n && s == -a && t == -b
        }),
{
    signs_are_by_number(x);
    signs_are_by_number(y);
    signs_are_by_number(z);
    order_is_by_number(absolute(x), absolute(y));
    order_is_by_number(absolute(x), absolute(z));
    order_is_by_number(absolute(y), absolute(z));
    order_is_by_number(0, x);
    order_is_by_number(0, y);
    order_is_by_number(0, z);
    assert(number(0) == 0);
}

/// A place of the texels is where the coordinate falls, and the texel at or before it; what is not a number falls on
/// the first.
pub proof fn a_place_is_at_or_past_its_texel(scaled: u32, place: (u32, i64))
    requires
        call_ensures(texel_space, (scaled,), place),
    ensures
        place.1 * pow2(149) <= number(place.0) < (place.1 + 1) * pow2(149),
        finite(scaled) && -TEXEL_COORD_BOUND * pow2(149) <= number(scaled) <= TEXEL_COORD_BOUND * pow2(149)
            ==> place.0 == scaled,
        nan(scaled) ==> place.0 == 0,
{
    a_sample_is_near_a_texel(scaled);
    whole_numbers_are_by_number(in_texels(scaled));
    if finite(scaled) {
        order_is_by_number(scaled, FARTHEST_BACK);
        order_is_by_number(FARTHEST, scaled);
        the_farthest_texels_are_numbers();
    }
}

proof fn the_farthest_texels_are_numbers()
    ensures
        number(FARTHEST) == TEXEL_COORD_BOUND * pow2(149),
        number(FARTHEST_BACK) == -TEXEL_COORD_BOUND * pow2(149),
{
    lemma2_to64();
    assert(FARTHEST as int / 0x80_0000 % 0x100 == 151);
    assert(FARTHEST_BACK as int / 0x80_0000 % 0x100 == 151);
    vstd::arithmetic::power2::lemma_pow2_unfold(150);
    assert(pow2(150) == 2 * pow2(149));
    assert((0x80_0000 + 0) * pow2(150) == TEXEL_COORD_BOUND * pow2(149)) by (nonlinear_arith)
        requires
            pow2(150) == 2 * pow2(149),
            TEXEL_COORD_BOUND == 16_777_216,
    ;
}


/// A level that is asked for is the one that is read, held by its number between the sharpest and the last; what is
/// not a number reads the sharpest.
pub proof fn a_level_is_held_in_the_chain(level: u32, last: u32, kept: u32)
    requires
        call_ensures(clamped_level, (level, last), kept),
        !nan(last),
        number(last) >= 0,
    ensures
        0 <= number(kept) <= number(last),
        finite(level) && 0 <= number(level) <= number(last) ==> kept == level,
        finite(level) && number(level) > number(last) ==> kept == last,
        finite(level) && number(level) < 0 ==> kept == 0,
        !finite(level) ==> kept == 0,
{
    if finite(level) {
        holding_is_by_number(level, 0, last);
    }
}

/// A footprint reads the level its logarithm asks for where the sampler's limits and the chain both have it. It reads
/// none sharper than the lower limit, none blurrier than the upper one and none past the last; one of no length reads
/// the sharpest the limits allow.
pub proof fn a_footprint_reads_the_level_it_asks_for(
    footprint: u32,
    logarithm: u32,
    limits: (u32, u32),
    last: u32,
    level: u32,
)
    requires
        call_ensures(level_of_detail, (footprint, logarithm, limits, last), level),
        !nan(footprint) && !nan(logarithm) && !nan(limits.0) && !nan(limits.1) && !nan(last),
        0 <= number(limits.0) <= number(limits.1) <= number(last),
    ensures
        number(footprint) <= 0 || !finite(footprint) ==> number(level) == number(limits.0),
        number(footprint) > 0 && finite(footprint) ==> {
            &&& number(limits.0) <= number(logarithm) <= number(limits.1) ==> level == logarithm
            &&& number(logarithm) < number(limits.0) ==> level == limits.0
            &&& number(logarithm) > number(limits.1) ==> level == limits.1
        },
{
    assert(number(0) == 0);
    order_is_by_number(0, footprint);
    extremes_are_by_number(limits.0, 0);
    holding_is_by_number(logarithm, limits.0, limits.1);
    holding_is_by_number(clamped(logarithm, limits.0, limits.1), 0, last);
}

/// An anisotropic sample takes as many taps as its footprint is times longer than wide, as far as the sampler allows
/// that many; it takes at least one. A footprint of no width and an endless one are not sampled so.
pub proof fn taps_are_as_many_as_the_footprint_is_long(
    anisotropy: u32,
    long: u32,
    short: u32,
    ratio: u32,
    count: Option<u32>,
)
    requires
        call_ensures(anisotropic_taps, (anisotropy, long, short, ratio), count),
        !nan(short),
    ensures
        count is Some <==> anisotropy > 1 && number(short) > 0 && finite(long),
        count matches Some(taps) ==> {
            &&& 1 <= taps <= anisotropy
            &&& 1 <= ratio <= anisotropy ==> taps == ratio
            &&& taps < ratio ==> taps == anisotropy
            &&& taps > ratio ==> taps == 1
        },
{
    assert(number(0) == 0);
    order_is_by_number(0, short);
}

/// Only a colour is decoded, and only one that is not premultiplied yet is premultiplied.
pub proof fn only_a_colour_is_decoded(texture: Texture, how: Decoding)
    requires
        call_ensures(Texture::decoding, (&texture,), how),
    ensures
        texture.semantics == Semantics::Color ==> how.transfer == Some(texture.transfer),
        texture.semantics != Semantics::Color ==> how.transfer is None && !how.premultiply,
        how.premultiply ==> !texture.premultiplied,
        texture.semantics == Semantics::Color && !texture.premultiplied ==> how.premultiply,
{
}

/// A border is what it is called: black has no light in any channel and white all of it, and only a transparent one
/// has no opacity.
pub proof fn a_border_is_what_it_is_called(border: Border, channel: int)
    requires
        0 <= channel < 3,
    ensures
        number(border.colour()@[channel]) == (if border == Border::OpaqueWhite {
            number(ONE)
        } else {
            0
        }),
        number(border.colour()@[3]) == (if border == Border::TransparentBlack {
            0
        } else {
            number(ONE)
        }),
        number(ONE) == pow2(149),
{
    lemma2_to64();
    assert(ONE as int / 0x80_0000 % 0x100 == 127);
    assert(ONE as int % 0x80_0000 == 0);
    assert(number(ONE) == 0x80_0000 * pow2(126));
    vstd::arithmetic::power2::lemma_pow2_adds(23, 126);
    assert(number(0) == 0);
}

/// A tap stays on its face where both of its coordinates are between nothing and one, and is projected anew where one
/// is not.
pub proof fn a_tap_stays_between_the_edges(face: u32, u: u32, v: u32, s: u32, t: u32, landed: Option<CubeFace>)
    requires
        call_ensures(neighbour_of, (face, u, v, s, t), landed),
        !nan(u) && !nan(v),
    ensures
        landed is None <==> 0 <= number(u) <= number(ONE) && 0 <= number(v) <= number(ONE),
{
    assert(number(0) == 0);
    order_is_by_number(u, 0);
    order_is_by_number(v, 0);
    order_is_by_number(ONE, u);
    order_is_by_number(ONE, v);
}


/// A tap on the texture reads the texel it is on, of the level it is taken at, whatever the wrap; past the edge of a
/// texture with a border it is the border.
pub proof fn a_tap_reads_the_texel_it_is_on(texture: Texture, level: u32, x: u32, y: u32, z: u32, sampler: Sampler)
    requires
        level < texture.levels@.len(),
        y < texture.levels@[level as int]@.height,
        z < texture.levels@[level as int]@.depth,
        x <= TEXEL_COORD_BOUND && y <= TEXEL_COORD_BOUND && z <= TEXEL_COORD_BOUND,
    ensures
        x < texture.levels@[level as int]@.width ==> (fetched(
            texture,
            level,
            (x as int, y as int, z as int),
            sampler,
        ) matches Fetched::Stored { key, raw } && raw == texture.levels@[level as int]@.texel(x, y, z)),
        x >= texture.levels@[level as int]@.width > 0 && sampler.wrap_u is ClampToBorder ==> fetched(
            texture,
            level,
            (x as int, y as int, z as int),
            sampler,
        ) == Fetched::Ready(sampler.border.colour()),
{
    let plane = texture.levels@[level as int]@;
    if x < plane.width {
        a_coordinate_inside_is_its_own_address(x as int, plane.width, sampler.wrap_u);
        a_coordinate_inside_is_its_own_address(y as int, plane.height, sampler.wrap_v);
        a_coordinate_inside_is_its_own_address(z as int, plane.depth, sampler.wrap_w);
    }
}

} // verus!
