//! Paints: the stops of a gradient in order, which of them a position falls between, and which shader a paint
//! becomes.
//!
//! Offsets and positions are binary32 values by their bits. Mapping a point into a paint's space and mixing two
//! colours are floating point and the caller's.
use super::target::Rgba;
use crate::bits::{
    abs, absolute, at_least, below, clamp, clamped, finite, holding_is_by_number, is_finite, less, nan, number,
    order_is_by_number, rank, reaches, signs_are_by_number, ONE,
};
use vstd::prelude::*;

verus! {

// ---------------------------------------------------------------------------------------------
// Ramps.
// ---------------------------------------------------------------------------------------------
/// A stop: an offset and a colour.
pub type Stop = (u32, Rgba);

/// A value held between nothing and one.
pub open spec fn held(value: u32) -> u32 {
    clamped(value, 0, ONE)
}

/// A list with one more stop, behind every stop that is not past it.
pub open spec fn stop_placed(list: Seq<Stop>, stop: Stop) -> Seq<Stop>
    decreases list.len(),
{
    if list.len() > 0 && below(stop.0, list.last().0) {
        stop_placed(list.drop_last(), stop).push(list.last())
    } else {
        list.push(stop)
    }
}

/// The first `count` stops in the order of their offsets, those at one offset as they were given.
pub open spec fn stops_in_order(stops: Seq<Stop>, count: nat) -> Seq<Stop>
    decreases count,
{
    if count == 0 {
        Seq::empty()
    } else {
        stop_placed(
            stops_in_order(stops, (count - 1) as nat),
            (held(stops[count - 1].0), stops[count - 1].1),
        )
    }
}

/// What a ramp is at a position.
#[derive(Clone, Copy, PartialEq, Eq, Debug)]
pub enum Mixture {
    /// No stop: nothing.
    Clear,
    /// One stop's colour.
    Plain(Rgba),
    /// A colour between two stops'.
    Between(Stop, Stop),
}

/// The first pair of neighbours, from one on, that a position is between, mixed. Neighbours at one offset are a
/// hard change to the later.
pub open spec fn mixed(stops: Seq<Stop>, position: u32, from: nat) -> Mixture
    decreases stops.len() - from,
{
    if from + 1 >= stops.len() {
        Mixture::Plain(stops.last().1)
    } else {
        let (low, high) = (stops[from as int], stops[(from + 1) as int]);
        if reaches(position, low.0) && reaches(high.0, position) {
            if reaches(low.0, high.0) {
                Mixture::Plain(high.1)
            } else {
                Mixture::Between(low, high)
            }
        } else {
            mixed(stops, position, from + 1)
        }
    }
}

/// What stops in order are at a position.
pub open spec fn ramp_at(stops: Seq<Stop>, position: u32) -> Mixture {
    let at = held(position);
    if stops.len() == 0 {
        Mixture::Clear
    } else if reaches(stops[0].0, at) {
        Mixture::Plain(stops[0].1)
    } else if reaches(at, stops.last().0) {
        Mixture::Plain(stops.last().1)
    } else {
        mixed(stops, at, 0)
    }
}

/// A gradient's stops, in order.
#[derive(Debug)]
pub struct Ramp {
    pub stops: Vec<Stop>,
}

impl Ramp {
    pub fn new(stops: &[Stop]) -> (made: Ramp)
        ensures
            made.stops@ == stops_in_order(stops@, stops@.len()),
    {
        let mut list: Vec<Stop> = Vec::new();
        let mut next: usize = 0;
        while next < stops.len()
            invariant
                next <= stops@.len(),
                list@ == stops_in_order(stops@, next as nat),
            decreases stops@.len() - next,
        {
            let stop: Stop = (clamp(stops[next].0, 0, ONE), stops[next].1);
            place_stop(&mut list, stop);
            next = next + 1;
        }
        Ramp { stops: list }
    }

    /// What the ramp is at a position, which is held between nothing and one.
    pub fn at(&self, position: u32) -> (mixture: Mixture)
        ensures
            mixture == ramp_at(self.stops@, position),
    {
        let count: usize = self.stops.len();
        if count == 0 {
            return Mixture::Clear;
        }
        let at: u32 = clamp(position, 0, ONE);
        if at_least(self.stops[0].0, at) {
            return Mixture::Plain(self.stops[0].1);
        }
        if at_least(at, self.stops[count - 1].0) {
            return Mixture::Plain(self.stops[count - 1].1);
        }
        let mut next: usize = 0;
        while next < count - 1
            invariant
                next <= count - 1,
                count == self.stops@.len(),
                count > 0,
                at == held(position),
                !reaches(self.stops@[0].0, at),
                !reaches(at, self.stops@.last().0),
                mixed(self.stops@, at, 0) == mixed(self.stops@, at, next as nat),
            decreases count - next,
        {
            let (low, high) = (self.stops[next], self.stops[next + 1]);
            if at_least(at, low.0) && at_least(high.0, at) {
                if at_least(low.0, high.0) {
                    return Mixture::Plain(high.1);
                }
                return Mixture::Between(low, high);
            }
            next = next + 1;
        }
        Mixture::Plain(self.stops[count - 1].1)
    }
}

proof fn a_place_is_found(list: Seq<Stop>, stop: Stop, at: int)
    requires
        0 <= at <= list.len(),
        forall|i: int| at <= i < list.len() ==> below(stop.0, (#[trigger] list[i]).0),
        at > 0 ==> !below(stop.0, list[at - 1].0),
    ensures
        stop_placed(list, stop) == list.insert(at, stop),
    decreases list.len(),
{
    if at == list.len() {
        assert(list.insert(at, stop) =~= list.push(stop));
    } else {
        assert(below(stop.0, list[list.len() - 1].0));
        a_place_is_found(list.drop_last(), stop, at);
        assert(list.drop_last().insert(at, stop).push(list.last()) =~= list.insert(at, stop));
    }
}

fn place_stop(list: &mut Vec<Stop>, stop: Stop)
    ensures
        final(list)@ == stop_placed(old(list)@, stop),
{
    let mut at: usize = list.len();
    while at > 0 && less(stop.0, list[at - 1].0)
        invariant
            at <= list@.len(),
            list@ == old(list)@,
            forall|i: int| at <= i < list@.len() ==> below(stop.0, (#[trigger] list@[i]).0),
        decreases at,
    {
        at = at - 1;
    }
    proof {
        a_place_is_found(list@, stop, at as int);
    }
    list.insert(at, stop);
}

/// Whether no offset is past a later one.
pub open spec fn ascending(stops: Seq<Stop>) -> bool {
    forall|i: int, j: int| 0 <= i <= j < stops.len() ==> !below(#[trigger] stops[j].0, #[trigger] stops[i].0)
}

proof fn placing_keeps_the_order(list: Seq<Stop>, stop: Stop)
    requires
        ascending(list),
        !nan(stop.0),
        forall|i: int| 0 <= i < list.len() ==> !nan((#[trigger] list[i]).0),
    ensures
        ascending(stop_placed(list, stop)),
        stop_placed(list, stop).len() == list.len() + 1,
        forall|i: int| 0 <= i < stop_placed(list, stop).len() ==> !nan((#[trigger] stop_placed(list, stop)[i]).0),
        forall|i: int|
            0 <= i < stop_placed(list, stop).len() ==> (#[trigger] stop_placed(list, stop)[i]) == stop || exists|
                j: int,
            |
                0 <= j < list.len() && stop_placed(list, stop)[i] == #[trigger] list[j],
    decreases list.len(),
{
    let result = stop_placed(list, stop);
    if list.len() > 0 && below(stop.0, list.last().0) {
        let rest = list.drop_last();
        assert forall|i: int, j: int| 0 <= i <= j < rest.len() implies !below(
            #[trigger] rest[j].0,
            #[trigger] rest[i].0,
        ) by {
            assert(rest[i] == list[i] && rest[j] == list[j]);
        }
        placing_keeps_the_order(rest, stop);
        let inner = stop_placed(rest, stop);
        assert forall|i: int| 0 <= i < result.len() implies (#[trigger] result[i]) == stop || exists|j: int|
            0 <= j < list.len() && result[i] == #[trigger] list[j] by {
            if i < inner.len() {
                assert(result[i] == inner[i]);
                if inner[i] != stop {
                    let j = choose|j: int| 0 <= j < rest.len() && inner[i] == #[trigger] rest[j];
                    assert(list[j] == result[i]);
                }
            } else {
                assert(result[i] == list[list.len() - 1]);
            }
        }
        assert forall|i: int, j: int| 0 <= i <= j < result.len() implies !below(
            #[trigger] result[j].0,
            #[trigger] result[i].0,
        ) by {
            if j == inner.len() && i < inner.len() {
                assert(result[i] == inner[i]);
                if inner[i] != stop {
                    let k = choose|k: int| 0 <= k < rest.len() && inner[i] == #[trigger] rest[k];
                    assert(list[k] == inner[i]);
                    assert(!below(list[list.len() - 1].0, list[k].0));
                }
            } else if j < inner.len() {
                assert(result[i] == inner[i] && result[j] == inner[j]);
            }
        }
        assert forall|i: int| 0 <= i < result.len() implies !nan((#[trigger] result[i]).0) by {
            if i == inner.len() {
                assert(result[i] == list[list.len() - 1]);
            } else {
                assert(result[i] == inner[i]);
            }
        }
    } else {
        assert forall|i: int, j: int| 0 <= i <= j < result.len() implies !below(
            #[trigger] result[j].0,
            #[trigger] result[i].0,
        ) by {
            if j == list.len() && i < list.len() {
                assert(result[i] == list[i]);
                assert(!below(list[list.len() - 1].0, list[i].0));
                assert(!nan(list[i].0) && !nan(list[list.len() - 1].0));
            } else if j < list.len() {
                assert(result[i] == list[i] && result[j] == list[j]);
            }
        }
        assert forall|i: int| 0 <= i < result.len() implies (#[trigger] result[i]) == stop || exists|j: int|
            0 <= j < list.len() && result[i] == #[trigger] list[j] by {
            if i < list.len() {
                assert(result[i] == list[i]);
            }
        }
    }
}

/// A ramp's stops are in the order of their offsets, and there is one for every stop it was given.
pub proof fn a_ramp_ascends(stops: Seq<Stop>, count: nat)
    requires
        count <= stops.len(),
        forall|i: int| 0 <= i < stops.len() ==> !nan((#[trigger] stops[i]).0),
    ensures
        ascending(stops_in_order(stops, count)),
        stops_in_order(stops, count).len() == count,
        forall|i: int|
            0 <= i < stops_in_order(stops, count).len() ==> !nan((#[trigger] stops_in_order(stops, count)[i]).0),
    decreases count,
{
    if count > 0 {
        a_ramp_ascends(stops, (count - 1) as nat);
        let stop = (held(stops[count - 1].0), stops[count - 1].1);
        assert(!nan(stops[count - 1].0));
        placing_keeps_the_order(stops_in_order(stops, (count - 1) as nat), stop);
    }
}

/// Two stops at one offset keep the order they were given: the later goes behind, so the change between them is
/// a hard one.
pub proof fn a_later_stop_at_one_offset_goes_behind(list: Seq<Stop>, stop: Stop)
    requires
        list.len() > 0,
        rank(list.last().0) == rank(stop.0),
    ensures
        stop_placed(list, stop) == list.push(stop),
{
}

// ---------------------------------------------------------------------------------------------
// Spreads.
// ---------------------------------------------------------------------------------------------
/// What a gradient or an image does past its ends.
#[derive(Clone, Copy, PartialEq, Eq, Structural, Debug)]
pub enum Spread {
    Clamp,
    Repeat,
    Mirror,
}

/// A position under a spread, where that takes no arithmetic: one that is no number is the start, and a clamped
/// one is held between the ends. A repeated or mirrored one is folded by the caller.
pub fn spread_position(position: u32, spread: Spread) -> (settled: Option<u32>)
    ensures
        settled == (if !finite(position) {
            Some(0u32)
        } else {
            match spread {
                Spread::Clamp => Some(held(position)),
                _ => None,
            }
        }),
{
    if !is_finite(position) {
        return Some(0);
    }
    match spread {
        Spread::Clamp => Some(clamp(position, 0, ONE)),
        Spread::Repeat | Spread::Mirror => None,
    }
}

/// The smallest difference a number of about one can have.
pub const EPSILON: u32 = 0x3400_0000;

/// How many circles of a two-circle gradient pass through a point.
#[derive(Clone, Copy, PartialEq, Eq, Structural, Debug)]
pub enum Roots {
    Nothing,
    /// The circles grow as fast as they move, so that there is one.
    One,
    Two,
}

/// How many circles of a two-circle gradient pass through a point, by the coefficients of the equation they solve
/// and its discriminant.
pub fn roots(square: u32, linear: u32, discriminant: u32) -> (found: Roots)
    ensures
        found == (if reaches(EPSILON, absolute(square)) {
            if reaches(EPSILON, absolute(linear)) {
                Roots::Nothing
            } else {
                Roots::One
            }
        } else if below(discriminant, 0) {
            Roots::Nothing
        } else {
            Roots::Two
        }),
{
    if at_least(EPSILON, abs(square)) {
        if at_least(EPSILON, abs(linear)) {
            Roots::Nothing
        } else {
            Roots::One
        }
    } else if less(discriminant, 0) {
        Roots::Nothing
    } else {
        Roots::Two
    }
}

/// The root of a two-circle gradient that is in front: the first whose interpolated radius is not negative.
/// Each root comes with that radius.
pub fn front_root(near: (u32, u32), far: (u32, u32)) -> (root: Option<u32>)
    ensures
        root == (if reaches(near.1, 0) {
            Some(near.0)
        } else if reaches(far.1, 0) {
            Some(far.0)
        } else {
            None
        }),
{
    if at_least(near.1, 0) {
        Some(near.0)
    } else if at_least(far.1, 0) {
        Some(far.0)
    } else {
        None
    }
}

// ---------------------------------------------------------------------------------------------
// Shaders.
// ---------------------------------------------------------------------------------------------
/// How an image is sampled.
#[derive(Clone, Copy, PartialEq, Eq, Structural, Debug)]
pub enum ImageQuality {
    Nearest,
    Bilinear,
    Bicubic,
    Mipmapped,
}

/// A paint, by what it refers to.
#[derive(Clone, Copy, PartialEq, Eq, Structural, Debug)]
#[allow(inconsistent_fields)]
pub enum Paint {
    Solid,
    Linear { stops: u32 },
    Radial { stops: u32 },
    Conic { stops: u32 },
    Image { image: u32, quality: ImageQuality },
}

/// One form of an image: whether it has a pyramid whose first level can be sampled, and whether its own pixels
/// can.
#[derive(Clone, Copy, PartialEq, Eq, Structural, Debug)]
pub struct Source {
    pub decoded: bool,
    pub direct: bool,
}

/// What an image's pixels are read from.
#[derive(Clone, Copy, PartialEq, Eq, Structural, Debug)]
pub enum Sampled {
    /// The first level of its pyramid, which is the image already decoded.
    LevelZero,
    /// Its planes.
    Planes,
    /// Its one packed plane.
    Packed,
}

/// The shader a paint becomes.
#[derive(Clone, Copy, PartialEq, Eq, Structural, Debug)]
#[allow(inconsistent_fields)]
pub enum Shader {
    Solid,
    Linear { stops: u32 },
    Radial { stops: u32 },
    Conic { stops: u32 },
    Image { image: u32, quality: ImageQuality, from: Sampled },
    /// It draws nothing.
    Nothing,
}

/// What one form of an image is read from: its decoded level where there is one and the draw does not choose
/// among levels itself.
pub open spec fn sampled(source: Source, quality: ImageQuality, own: Sampled) -> Option<Sampled> {
    if source.decoded && quality != ImageQuality::Mipmapped {
        Some(Sampled::LevelZero)
    } else if source.direct {
        Some(own)
    } else {
        None
    }
}

/// The shader a paint becomes. One whose space is collapsed onto a line, or whose stops or pixels are not there,
/// draws nothing; an image that has planes has them instead of a packed form.
pub open spec fn shader_of(
    paint: Paint,
    invertible: bool,
    stops: nat,
    planes: Option<Source>,
    packed: Option<Source>,
) -> Shader {
    if !invertible {
        Shader::Nothing
    } else {
        match paint {
            Paint::Solid => Shader::Solid,
            Paint::Linear { stops: handle } => if handle < stops {
                Shader::Linear { stops: handle }
            } else {
                Shader::Nothing
            },
            Paint::Radial { stops: handle } => if handle < stops {
                Shader::Radial { stops: handle }
            } else {
                Shader::Nothing
            },
            Paint::Conic { stops: handle } => if handle < stops {
                Shader::Conic { stops: handle }
            } else {
                Shader::Nothing
            },
            Paint::Image { image, quality } => {
                let from = match (planes, packed) {
                    (Some(source), _) => sampled(source, quality, Sampled::Planes),
                    (None, Some(source)) => sampled(source, quality, Sampled::Packed),
                    (None, None) => None,
                };
                match from {
                    Some(from) => Shader::Image { image, quality, from },
                    None => Shader::Nothing,
                }
            },
        }
    }
}

fn pick_source(source: Source, quality: ImageQuality, own: Sampled) -> (from: Option<Sampled>)
    ensures
        from == sampled(source, quality, own),
{
    if source.decoded && quality != ImageQuality::Mipmapped {
        Some(Sampled::LevelZero)
    } else if source.direct {
        Some(own)
    } else {
        None
    }
}

/// Where a drawing's images come from, by the identity each was recorded under.
pub trait ImageSource {
    /// The packed form of an image.
    fn image(&self, identity: u64) -> Option<Source>;

    /// The planes of an image.
    fn planes(&self, identity: u64) -> Option<Source>;
}

/// A source for a drawing with no images.
#[derive(Clone, Copy, Debug)]
pub struct NoImages;

impl ImageSource for NoImages {
    fn image(&self, identity: u64) -> (found: Option<Source>)
        ensures
            found is None,
    {
        None
    }

    fn planes(&self, identity: u64) -> (found: Option<Source>)
        ensures
            found is None,
    {
        None
    }
}

/// The shader a command's paint implies, its image looked up among the recorded ones.
pub fn shader<I: ImageSource>(
    paint: Paint,
    invertible: bool,
    stops: usize,
    records: &[u64],
    images: &I,
) -> (made: Shader)
    ensures
        (match paint {
            Paint::Image { image, .. } => image >= records@.len(),
            _ => true,
        }) ==> made == shader_of(paint, invertible, stops as nat, None, None),
        (match paint {
            Paint::Image { image, .. } => image < records@.len(),
            _ => false,
        }) ==> exists|planes: Option<Source>, packed: Option<Source>|
            call_ensures(I::planes, (images, records@[paint->Image_image as int]), planes) && call_ensures(
                I::image,
                (images, records@[paint->Image_image as int]),
                packed,
            ) && made == #[trigger] shader_of(paint, invertible, stops as nat, planes, packed),
{
    let identity: Option<u64> = match paint {
        Paint::Image { image, .. } => if (image as u64) < records.len() as u64 {
            Some(records[image as usize])
        } else {
            None
        },
        _ => None,
    };
    match identity {
        None => shader_from(paint, invertible, stops, None, None),
        Some(found) => shader_from(paint, invertible, stops, images.planes(found), images.image(found)),
    }
}

/// The shader a command's paint implies, given whether its transform can be inverted, how many lists of stops
/// there are, and the forms its image is there in.
pub fn shader_from(
    paint: Paint,
    invertible: bool,
    stops: usize,
    planes: Option<Source>,
    packed: Option<Source>,
) -> (made: Shader)
    ensures
        made == shader_of(paint, invertible, stops as nat, planes, packed),
{
    if !invertible {
        return Shader::Nothing;
    }
    match paint {
        Paint::Solid => Shader::Solid,
        Paint::Linear { stops: handle } => if (handle as u64) < stops as u64 {
            Shader::Linear { stops: handle }
        } else {
            Shader::Nothing
        },
        Paint::Radial { stops: handle } => if (handle as u64) < stops as u64 {
            Shader::Radial { stops: handle }
        } else {
            Shader::Nothing
        },
        Paint::Conic { stops: handle } => if (handle as u64) < stops as u64 {
            Shader::Conic { stops: handle }
        } else {
            Shader::Nothing
        },
        Paint::Image { image, quality } => {
            let from = match (planes, packed) {
                (Some(source), _) => pick_source(source, quality, Sampled::Planes),
                (None, Some(source)) => pick_source(source, quality, Sampled::Packed),
                (None, None) => None,
            };
            match from {
                Some(from) => Shader::Image { image, quality, from },
                None => Shader::Nothing,
            }
        },
    }
}

/// How a run of one row is evaluated.
#[derive(Clone, Copy, PartialEq, Eq, Structural, Debug)]
pub enum RowPlan {
    /// One colour all along: the solid one.
    Solid,
    /// Nothing all along.
    Clear,
    /// One colour all along: the ramp's end.
    RampEnd,
    /// Pixel by pixel, sampling a pyramid by the footprint of each.
    Pyramid,
    /// Pixel by pixel.
    PerPixel,
}

impl Shader {
    /// How a run of one row is evaluated, decided once for the run. `length_squared` is that of a linear
    /// gradient's axis, and a degenerate gradient is its end everywhere.
    pub fn row(&self, length_squared: u32, has_pyramid: bool) -> (plan: RowPlan)
        ensures
            plan == (match *self {
                Shader::Solid => RowPlan::Solid,
                Shader::Nothing => RowPlan::Clear,
                Shader::Linear { .. } => if reaches(0, length_squared) {
                    RowPlan::RampEnd
                } else {
                    RowPlan::PerPixel
                },
                Shader::Image { quality, .. } => if has_pyramid && quality == ImageQuality::Mipmapped {
                    RowPlan::Pyramid
                } else {
                    RowPlan::PerPixel
                },
                _ => RowPlan::PerPixel,
            }),
    {
        match *self {
            Shader::Solid => RowPlan::Solid,
            Shader::Nothing => RowPlan::Clear,
            Shader::Linear { .. } => if at_least(0, length_squared) {
                RowPlan::RampEnd
            } else {
                RowPlan::PerPixel
            },
            Shader::Image { quality, .. } => if has_pyramid && quality == ImageQuality::Mipmapped {
                RowPlan::Pyramid
            } else {
                RowPlan::PerPixel
            },
            _ => RowPlan::PerPixel,
        }
    }

    /// Whether this is a single opaque colour, of the alpha given.
    pub fn is_opaque_solid(&self, alpha: u32) -> (opaque: bool)
        ensures
            opaque == (*self == Shader::Solid && reaches(alpha, ONE)),
    {
        match *self {
            Shader::Solid => at_least(alpha, ONE),
            _ => false,
        }
    }
}

/// What cannot be resolved draws nothing: no paint whose space is collapsed, and no gradient without stops.
pub proof fn what_is_missing_draws_nothing(
    paint: Paint,
    invertible: bool,
    stops: nat,
    planes: Option<Source>,
    packed: Option<Source>,
)
    requires
        !invertible || match paint {
            Paint::Solid => false,
            Paint::Linear { stops: handle } => handle >= stops,
            Paint::Radial { stops: handle } => handle >= stops,
            Paint::Conic { stops: handle } => handle >= stops,
            Paint::Image { .. } => planes is None && packed is None,
        },
    ensures
        shader_of(paint, invertible, stops, planes, packed) == Shader::Nothing,
{
}

/// Offsets are held between nothing and one by number: one between them stays, one below nothing is nothing and one past
/// one is one.
pub proof fn an_offset_is_held_by_number(value: u32)
    requires
        !nan(value),
    ensures
        0 <= number(held(value)) <= number(0x3F80_0000),
        0 <= number(value) <= number(0x3F80_0000) ==> held(value) == value,
        number(value) < 0 ==> held(value) == 0,
        number(value) > number(0x3F80_0000) ==> held(value) == 0x3F80_0000u32,
{
    assert(number(0) == 0);
    order_is_by_number(0, ONE);
    holding_is_by_number(value, 0, ONE);
}

proof fn placing_adds_one(list: Seq<Stop>, stop: Stop)
    ensures
        stop_placed(list, stop).to_multiset() == list.to_multiset().insert(stop),
    decreases list.len(),
{
    vstd::seq_lib::to_multiset_build(list, stop);
    if list.len() > 0 && below(stop.0, list.last().0) {
        let rest = list.drop_last();
        placing_adds_one(rest, stop);
        let inner = stop_placed(rest, stop);
        vstd::seq_lib::to_multiset_build(inner, list.last());
        vstd::seq_lib::to_multiset_build(rest, list.last());
        assert(rest.push(list.last()) =~= list);
        assert(rest.to_multiset().insert(stop).insert(list.last()) =~= rest.to_multiset().insert(
            list.last(),
        ).insert(stop));
    }
}

/// A ramp has the stops it was given and no others, each with its own colour and its offset held between nothing and one.
pub proof fn a_ramp_keeps_every_stop(stops: Seq<Stop>, count: nat)
    requires
        count <= stops.len(),
    ensures
        stops_in_order(stops, count).to_multiset() == Seq::new(
            count,
            |i: int| (held(stops[i].0), stops[i].1),
        ).to_multiset(),
    decreases count,
{
    let given = Seq::new(count, |i: int| (held(stops[i].0), stops[i].1));
    if count == 0 {
        assert(given =~= Seq::<Stop>::empty());
        assert(stops_in_order(stops, count) =~= given);
    } else {
        a_ramp_keeps_every_stop(stops, (count - 1) as nat);
        let before = Seq::new((count - 1) as nat, |i: int| (held(stops[i].0), stops[i].1));
        let stop = (held(stops[count - 1].0), stops[count - 1].1);
        placing_adds_one(stops_in_order(stops, (count - 1) as nat), stop);
        vstd::seq_lib::to_multiset_build(before, stop);
        assert(before.push(stop) =~= given);
    }
}

proof fn a_mixture_is_of_neighbours(stops: Seq<Stop>, position: u32, from: nat)
    requires
        from < stops.len(),
        !nan(position),
        forall|i: int| 0 <= i < stops.len() ==> !nan((#[trigger] stops[i]).0),
    ensures
        match mixed(stops, position, from) {
            Mixture::Between(low, high) => exists|k: int|
                from <= k < stops.len() - 1 && #[trigger] stops[k] == low && stops[k + 1] == high && number(low.0)
                    <= number(position) <= number(high.0) && number(low.0) < number(high.0),
            Mixture::Plain(colour) => colour == stops.last().1 || exists|k: int|
                from < k < stops.len() && (#[trigger] stops[k]).1 == colour && number(stops[k].0) == number(position),
            Mixture::Clear => false,
        },
    decreases stops.len() - from,
{
    if from + 1 < stops.len() {
        let (low, high) = (stops[from as int], stops[(from + 1) as int]);
        assert(!nan(low.0) && !nan(high.0));
        order_is_by_number(position, low.0);
        order_is_by_number(high.0, position);
        order_is_by_number(low.0, high.0);
        if reaches(position, low.0) && reaches(high.0, position) {
            assert(stops[from as int] == low && stops[from as int + 1] == high);
        } else {
            a_mixture_is_of_neighbours(stops, position, from + 1);
        }
    }
}

/// A ramp is at a position what the stops around it say: before the first it is the first, past the last the last, and
/// between two neighbours a mixture of the two with the position between their offsets, or at two of one offset the later
/// one's colour. Without a stop it is nothing.
pub proof fn a_ramp_is_by_the_stops_around(stops: Seq<Stop>, position: u32)
    requires
        !nan(position),
        forall|i: int| 0 <= i < stops.len() ==> !nan((#[trigger] stops[i]).0),
    ensures
        ({
            let at = number(held(position));
            let found = ramp_at(stops, position);
            &&& stops.len() == 0 <==> found is Clear
            &&& stops.len() > 0 && at <= number(stops[0].0) ==> found == Mixture::Plain(stops[0].1)
            &&& stops.len() > 0 && at > number(stops[0].0) && at >= number(stops.last().0) ==> found == Mixture::Plain(
                stops.last().1,
            )
            &&& stops.len() > 0 && number(stops[0].0) < at < number(stops.last().0) ==> match found {
                Mixture::Between(low, high) => exists|k: int|
                    0 <= k < stops.len() - 1 && #[trigger] stops[k] == low && stops[k + 1] == high && number(low.0)
                        <= at <= number(high.0) && number(low.0) < number(high.0),
                Mixture::Plain(colour) => colour == stops.last().1 || exists|k: int|
                    0 < k < stops.len() && (#[trigger] stops[k]).1 == colour && number(stops[k].0) == at,
                Mixture::Clear => false,
            }
        }),
{
    an_offset_is_held_by_number(position);
    let at = held(position);
    assert(!nan(at));
    if stops.len() > 0 {
        assert(!nan(stops[0].0) && !nan(stops[stops.len() - 1].0));
        order_is_by_number(stops[0].0, at);
        order_is_by_number(at, stops.last().0);
        a_mixture_is_of_neighbours(stops, at, 0);
    }
}

/// Between two neighbours of ascending stops a position is a mixture of those two, wherever they stand.
pub proof fn a_position_is_mixed_between_its_own_neighbours(stops: Seq<Stop>, position: u32, k: int)
    requires
        ascending(stops),
        !nan(position),
        forall|i: int| 0 <= i < stops.len() ==> !nan((#[trigger] stops[i]).0),
        0 <= k < stops.len() - 1,
        number(stops[k].0) < number(held(position)) < number(stops[k + 1].0),
    ensures
        ramp_at(stops, position) == Mixture::Between(stops[k], stops[k + 1]),
{
    an_offset_is_held_by_number(position);
    let at = held(position);
    let last = stops.len() - 1;
    assert(!nan(stops[0].0) && !nan(stops[k].0) && !nan(stops[k + 1].0) && !nan(stops[last].0));
    assert(!below(stops[k].0, stops[0].0) && !below(stops[last].0, stops[k + 1].0));
    order_is_by_number(stops[k].0, stops[0].0);
    order_is_by_number(stops[last].0, stops[k + 1].0);
    order_is_by_number(stops[0].0, at);
    order_is_by_number(at, stops[last].0);
    neighbours_are_reached(stops, at, 0, k);
}

proof fn neighbours_are_reached(stops: Seq<Stop>, at: u32, from: nat, k: int)
    requires
        ascending(stops),
        !nan(at),
        forall|i: int| 0 <= i < stops.len() ==> !nan((#[trigger] stops[i]).0),
        from <= k < stops.len() - 1,
        number(stops[k].0) < number(at) < number(stops[k + 1].0),
    ensures
        mixed(stops, at, from) == Mixture::Between(stops[k], stops[k + 1]),
    decreases k - from,
{
    let (low, high) = (stops[from as int], stops[from as int + 1]);
    assert(!nan(low.0) && !nan(high.0) && !nan(stops[k].0) && !nan(stops[k + 1].0));
    order_is_by_number(at, low.0);
    order_is_by_number(high.0, at);
    order_is_by_number(low.0, high.0);
    if from < k {
        assert(!below(stops[k].0, stops[from as int + 1].0));
        order_is_by_number(stops[k].0, high.0);
        neighbours_are_reached(stops, at, from + 1, k);
    }
}

/// A clamped position is held between the ends; one that is no number is the start; a repeated or mirrored one is left to
/// be folded.
pub proof fn a_spread_holds_its_position(position: u32, spread: Spread, settled: Option<u32>)
    requires
        call_ensures(spread_position, (position, spread), settled),
    ensures
        !finite(position) ==> settled == Some(0u32),
        finite(position) ==> (spread is Clamp <==> settled is Some),
        finite(position) && spread is Clamp ==> settled == Some(held(position)),
{
}

/// A two-circle gradient has, at a point, as many circles as its equation has roots: none where the discriminant is below
/// nothing, and where the square term vanishes one, or none where the linear one vanishes too.
pub proof fn roots_are_by_number(square: u32, linear: u32, discriminant: u32, found: Roots)
    requires
        call_ensures(roots, (square, linear, discriminant), found),
        !nan(square) && !nan(linear) && !nan(discriminant),
    ensures
        ({
            let vanishes = |value: u32| -number(EPSILON) <= number(value) <= number(EPSILON);
            &&& vanishes(square) && vanishes(linear) ==> found is Nothing
            &&& vanishes(square) && !vanishes(linear) ==> found is One
            &&& !vanishes(square) && number(discriminant) < 0 ==> found is Nothing
            &&& !vanishes(square) && number(discriminant) >= 0 ==> found is Two
        }),
{
    signs_are_by_number(square);
    signs_are_by_number(linear);
    order_is_by_number(EPSILON, absolute(square));
    order_is_by_number(EPSILON, absolute(linear));
    order_is_by_number(discriminant, 0);
    assert(number(0) == 0);
}

/// Of two roots the first one whose circle has a radius not below nothing is in front.
pub proof fn the_front_root_has_a_radius(near: (u32, u32), far: (u32, u32), root: Option<u32>)
    requires
        call_ensures(front_root, (near, far), root),
        !nan(near.1) && !nan(far.1),
    ensures
        number(near.1) >= 0 ==> root == Some(near.0),
        number(near.1) < 0 && number(far.1) >= 0 ==> root == Some(far.0),
        number(near.1) < 0 && number(far.1) < 0 ==> root is None,
{
    order_is_by_number(near.1, 0);
    order_is_by_number(far.1, 0);
    assert(number(0) == 0);
}

/// A paint becomes the shader of its own kind with its own stops or its own image; an image that has planes is read from
/// them, else from its packed form, and from the decoded level of either where it has one and the draw picks no level.
pub proof fn a_paint_becomes_its_own_shader(
    paint: Paint,
    stops: nat,
    planes: Option<Source>,
    packed: Option<Source>,
)
    ensures
        ({
            let made = shader_of(paint, true, stops, planes, packed);
            &&& shader_of(paint, false, stops, planes, packed) is Nothing
            &&& match paint {
                Paint::Solid => made == Shader::Solid,
                Paint::Linear { stops: handle } => made == if handle < stops {
                    Shader::Linear { stops: handle }
                } else {
                    Shader::Nothing
                },
                Paint::Radial { stops: handle } => made == if handle < stops {
                    Shader::Radial { stops: handle }
                } else {
                    Shader::Nothing
                },
                Paint::Conic { stops: handle } => made == if handle < stops {
                    Shader::Conic { stops: handle }
                } else {
                    Shader::Nothing
                },
                Paint::Image { image, quality } => {
                    let form = if planes is Some {
                        planes
                    } else {
                        packed
                    };
                    match form {
                        None => made is Nothing,
                        Some(source) => if source.decoded && !(quality is Mipmapped) {
                            made == (Shader::Image { image, quality, from: Sampled::LevelZero })
                        } else if !source.direct {
                            made is Nothing
                        } else if planes is Some {
                            made == (Shader::Image { image, quality, from: Sampled::Planes })
                        } else {
                            made == (Shader::Image { image, quality, from: Sampled::Packed })
                        },
                    }
                },
            }
        }),
{
}

/// A row is one colour exactly where every pixel of it is: a solid paint's, a gradient's end where its axis has no
/// length, and none where nothing is drawn.
pub proof fn a_row_is_one_colour_where_it_must_be(
    shader: Shader,
    length_squared: u32,
    has_pyramid: bool,
    plan: RowPlan,
)
    requires
        call_ensures(Shader::row, (&shader, length_squared, has_pyramid), plan),
        !nan(length_squared),
    ensures
        shader is Solid <==> plan is Solid,
        shader is Nothing <==> plan is Clear,
        plan is RampEnd <==> shader is Linear && number(length_squared) <= 0,
        plan is Pyramid <==> has_pyramid && (shader matches Shader::Image { quality, .. } && quality is Mipmapped),
{
    order_is_by_number(0, length_squared);
    assert(number(0) == 0);
}

/// A fill hides what is under it only where its one colour is opaque.
pub proof fn only_an_opaque_colour_hides(shader: Shader, alpha: u32, opaque: bool)
    requires
        call_ensures(Shader::is_opaque_solid, (&shader, alpha), opaque),
        !nan(alpha),
    ensures
        opaque <==> shader is Solid && number(alpha) >= number(0x3F80_0000),
{
    order_is_by_number(alpha, ONE);
}

} // verus!
