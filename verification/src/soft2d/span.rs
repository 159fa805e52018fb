//! Runs of pixels: which of them are composited, and which four at a time.
use crate::bits::{below, less, nan, number, order_is_by_number};
use vstd::prelude::*;

verus! {

/// How many pixels the wide path does at once.
pub const LANES: usize = 4;

/// How a run is composited: so many pixels in whole groups, then one by one up to the end of the shorter run.
#[derive(Clone, Copy, PartialEq, Eq, Structural, Debug)]
pub struct Parts {
    pub wide: usize,
    pub count: usize,
}

/// The parts of a run of source pixels on a run of destination pixels. Source-over with a normal blend goes in
/// groups; every other operator and mode goes pixel by pixel.
pub fn composite_span(destination: usize, source: usize, source_over: bool, normal: bool) -> (parts: Parts)
    ensures
        parts.count == (if destination < source {
            destination
        } else {
            source
        }),
        parts.wide == (if source_over && normal {
            parts.count - parts.count % LANES
        } else {
            0
        }),
{
    let count: usize = if destination < source {
        destination
    } else {
        source
    };
    let wide: usize = if source_over && normal {
        count - count % LANES
    } else {
        0
    };
    Parts { wide, count }
}

/// Every pixel of a run is in a whole group or in the tail, and never in both: the group it would be in ends
/// within the wide part exactly where the pixel does.
pub proof fn a_group_is_whole(count: int, index: int)
    requires
        0 <= index < count,
    ensures
        index < count - count % LANES as int <==> (index / LANES as int) * LANES + LANES <= count,
{
    vstd::arithmetic::div_mod::lemma_fundamental_div_mod(count, 4);
    vstd::arithmetic::div_mod::lemma_fundamental_div_mod(index, 4);
}

/// The part of a row a shape covers: from the first weight that is not nothing to past the last; none where
/// there is none.
pub open spec fn covered(weights: Seq<u32>, count: nat) -> Option<(int, int)>
    decreases count,
{
    if count == 0 {
        None
    } else {
        let before = covered(weights, (count - 1) as nat);
        if below(0, weights[count - 1]) {
            Some(
                (
                    match before {
                        Some(range) => range.0,
                        None => count - 1,
                    },
                    count as int,
                ),
            )
        } else {
            before
        }
    }
}

/// The part of a row a shape covers.
pub fn trim(weights: &[u32]) -> (range: Option<(usize, usize)>)
    ensures
        match range {
            Some(found) => covered(weights@, weights@.len()) == Some((found.0 as int, found.1 as int))
                && found.0 < found.1 <= weights@.len(),
            None => covered(weights@, weights@.len()) is None,
        },
{
    let mut range: Option<(usize, usize)> = None;
    let mut next: usize = 0;
    while next < weights.len()
        invariant
            next <= weights@.len(),
            match range {
                Some(found) => covered(weights@, next as nat) == Some((found.0 as int, found.1 as int))
                    && found.0 < found.1 <= next,
                None => covered(weights@, next as nat) is None,
            },
        decreases weights@.len() - next,
    {
        if less(0, weights[next]) {
            range = match range {
                Some(found) => Some((found.0, next + 1)),
                None => Some((next, next + 1)),
            };
        }
        next = next + 1;
    }
    range
}

/// No pixel with a weight is trimmed away, and a trimmed run starts and ends on one.
pub proof fn trimming_keeps_every_weight(weights: Seq<u32>, count: nat, i: int)
    requires
        count <= weights.len(),
        0 <= i < count,
    ensures
        below(0, weights[i]) ==> (covered(weights, count) matches Some(range) && range.0 <= i < range.1),
        covered(weights, count) matches Some(range) ==> 0 <= range.0 < range.1 <= count && below(
            0,
            weights[range.0],
        ) && below(0, weights[range.1 - 1]),
    decreases count,
{
    if count > 1 {
        if i < count - 1 {
            trimming_keeps_every_weight(weights, (count - 1) as nat, i);
        } else {
            trimming_keeps_every_weight(weights, (count - 1) as nat, 0);
        }
    } else {
        assert(covered(weights, 0) is None);
    }
}

/// A run is as long as the shorter of its two sides, and is composited in groups of four where it is laid over plainly:
/// as many as fit whole.
pub proof fn a_run_is_as_long_as_the_shorter(
    destination: usize,
    source: usize,
    source_over: bool,
    normal: bool,
    parts: Parts,
)
    requires
        call_ensures(composite_span, (destination, source, source_over, normal), parts),
    ensures
        parts.count <= destination && parts.count <= source,
        parts.count == destination || parts.count == source,
        !(source_over && normal) ==> parts.wide == 0,
        source_over && normal ==> parts.wide as int % 4 == 0 && parts.wide <= parts.count < parts.wide + 4,
{
}

/// A weight counts where it is a number above nothing, and outside the trimmed part none does.
pub proof fn trimming_is_by_number(weights: Seq<u32>, count: nat, i: int)
    requires
        count <= weights.len(),
        0 <= i < count,
        !nan(weights[i]),
    ensures
        number(weights[i]) > 0 ==> (covered(weights, count) matches Some(range) && range.0 <= i && i < range.1),
        covered(weights, count) is None ==> number(weights[i]) <= 0,
{
    trimming_keeps_every_weight(weights, count, i);
    order_is_by_number(0, weights[i]);
    assert(number(0) == 0);
}

} // verus!
