//! How one fragment reaches every attachment of a pass.
//!
//! The depth and stencil test runs once, with the first attachment that is written, and the attachments
//! after it follow its answer: a sample the test refuses is written nowhere, and the depth attachment is
//! written at most once for one fragment.
use super::error::Error;
use super::pass::{
    entry, fragment_written, narrowed, same_buffer, sample_outcome, samples_are_apart, samples_written, slot,
    surfaces_of, surfaces_of_buffer, write_fragment, Colour, DepthStencil, Fragment, Pixel, Progress,
    Surfaces, ZERO,
};
use super::raster::{bit, setting_a_bit};
use super::state::depth_stencil_test;
use vstd::prelude::*;

verus! {

/// What a fragment writes to one attachment of a pass.
#[derive(Clone, Copy, Debug)]
pub struct Entry {
    pub attachment: usize,
    pub fragment: Fragment,
}

/// Which of the first `count` samples of a pixel pass the depth and stencil test.
pub open spec fn passing(depth_stencil: Option<DepthStencil>, fragment: Fragment, count: nat) -> u32
    decreases count,
{
    if count == 0 {
        0
    } else {
        let before = passing(depth_stencil, fragment, (count - 1) as nat);
        if sample_outcome(surfaces_of_buffer(depth_stencil), depth_stencil, fragment, (count - 1) as u32).passed {
            before | (1u32 << ((count - 1) as u32))
        } else {
            before
        }
    }
}

proof fn a_bit_per_sample(depth_stencil: Option<DepthStencil>, fragment: Fragment, count: nat, sample: u32)
    requires
        count <= 32,
        sample < 32,
    ensures
        bit(passing(depth_stencil, fragment, count), sample) <==> sample < count && sample_outcome(
            surfaces_of_buffer(depth_stencil),
            depth_stencil,
            fragment,
            sample,
        ).passed,
    decreases count,
{
    if count == 0 {
        setting_a_bit(0, 0, sample);
    } else {
        a_bit_per_sample(depth_stencil, fragment, (count - 1) as nat, sample);
        setting_a_bit(
            passing(depth_stencil, fragment, (count - 1) as nat),
            (count - 1) as u32,
            sample,
        );
    }
}

/// Which samples of a fragment's pixel pass the depth and stencil test, with nothing stored.
pub fn samples_passing(depth_stencil: &Option<DepthStencil>, fragment: &Fragment, samples: u32) -> (mask: u32)
    requires
        samples <= 32,
    ensures
        mask == passing(*depth_stencil, *fragment, samples as nat),
        forall|sample: u32|
            sample < 32 ==> (#[trigger] bit(mask, sample) <==> sample < samples && sample_outcome(
                surfaces_of_buffer(*depth_stencil),
                *depth_stencil,
                *fragment,
                sample,
            ).passed),
{
    let mut mask: u32 = 0;
    let mut sample: u32 = 0;
    while sample < samples
        invariant
            sample <= samples <= 32,
            mask == passing(*depth_stencil, *fragment, sample as nat),
        decreases samples - sample,
    {
        let passed = match depth_stencil {
            None => true,
            Some(buffer) => {
                let stencil = match fragment.stencil {
                    Some(face) => Some((face, buffer.stencil_at(fragment.x, fragment.y, sample))),
                    None => None,
                };
                let stored = buffer.depth_at(fragment.x, fragment.y, sample);
                depth_stencil_test(
                    fragment.depth_compare,
                    fragment.depth_write,
                    fragment.depth,
                    stored,
                    stencil,
                ).passed
            },
        };
        if passed {
            mask = mask | (1u32 << sample);
        }
        sample = sample + 1;
    }
    proof {
        assert forall|sample: u32| sample < 32 implies (#[trigger] bit(mask, sample) <==> sample < samples
            && sample_outcome(surfaces_of_buffer(*depth_stencil), *depth_stencil, *fragment, sample).passed) by {
            a_bit_per_sample(*depth_stencil, *fragment, samples as nat, sample);
        }
    }
    mask
}

/// A fragment that follows the answer of a test run before.
pub open spec fn following(fragment: Fragment, answer: u32) -> Fragment {
    Fragment { sample_mask: fragment.sample_mask & answer, ..fragment }
}

/// What the `i`-th write of a fragment comes to: the first is tested against the depth attachment, each
/// later one follows the answer of that test.
pub open spec fn entry_written(
    colour: Seq<Colour>,
    depth_stencil: Option<DepthStencil>,
    entries: Seq<Entry>,
    blended: Seq<Vec<Pixel>>,
    i: int,
) -> Progress {
    let target = colour[entries[i].attachment as int];
    if i == 0 {
        fragment_written(target, depth_stencil, entries[0].fragment, blended[0]@)
    } else {
        let answer = passing(
            depth_stencil,
            entries[0].fragment,
            colour[entries[0].attachment as int].samples as nat,
        );
        fragment_written(target, None, following(entries[i].fragment, answer), blended[i]@)
    }
}

/// How many of the first `count` writes are made: those up to the first that fails.
pub open spec fn made(
    colour: Seq<Colour>,
    depth_stencil: Option<DepthStencil>,
    entries: Seq<Entry>,
    blended: Seq<Vec<Pixel>>,
    count: nat,
) -> nat
    decreases count,
{
    if count == 0 {
        0
    } else {
        let before = made(colour, depth_stencil, entries, blended, (count - 1) as nat);
        if before > 0 && entry_written(colour, depth_stencil, entries, blended, before - 1).fault is Some {
            before
        } else {
            count
        }
    }
}

/// How many samples the first `count` writes change.
pub open spec fn changed(
    colour: Seq<Colour>,
    depth_stencil: Option<DepthStencil>,
    entries: Seq<Entry>,
    blended: Seq<Vec<Pixel>>,
    count: nat,
) -> nat
    decreases count,
{
    if count == 0 {
        0
    } else {
        changed(colour, depth_stencil, entries, blended, (count - 1) as nat) + entry_written(
            colour,
            depth_stencil,
            entries,
            blended,
            count - 1,
        ).written
    }
}

/// Whether the writes name attachments of the pass, each once and in order.
pub open spec fn in_order(entries: Seq<Entry>, attachments: nat) -> bool {
    &&& forall|i: int| 0 <= i < entries.len() ==> (#[trigger] entries[i]).attachment < attachments
    &&& forall|i: int, j: int|
        0 <= i < j < entries.len() ==> (#[trigger] entries[i]).attachment < (#[trigger] entries[j]).attachment
}

/// Whether the attachments hold what the first `count` writes leave, and everything else is as it was.
pub open spec fn left_by(
    after: Seq<Colour>,
    colour: Seq<Colour>,
    depth_stencil: Option<DepthStencil>,
    entries: Seq<Entry>,
    blended: Seq<Vec<Pixel>>,
    count: nat,
) -> bool {
    &&& after.len() == colour.len()
    &&& forall|a: int| 0 <= a < colour.len() ==> (#[trigger] after[a]).same_shape(colour[a])
    &&& forall|i: int|
        0 <= i < count ==> after[(#[trigger] entries[i]).attachment as int]@ == entry_written(
            colour,
            depth_stencil,
            entries,
            blended,
            i,
        ).surfaces.colour
    &&& forall|a: int|
        0 <= a < colour.len() && (forall|i: int| 0 <= i < count ==> (#[trigger] entries[i]).attachment != a)
            ==> #[trigger] after[a] == colour[a]
}

proof fn no_more_than_its_samples(
    start: Surfaces,
    colour: Colour,
    depth_stencil: Option<DepthStencil>,
    fragment: Fragment,
    blended: Seq<Pixel>,
    count: nat,
)
    ensures
        samples_written(start, colour, depth_stencil, fragment, blended, count).written <= count,
    decreases count,
{
    if count > 0 {
        no_more_than_its_samples(start, colour, depth_stencil, fragment, blended, (count - 1) as nat);
    }
}

/// Write one fragment to the attachments of a pass. The depth and stencil test runs once, with the first
/// write; every later write keeps to the samples that passed it. `blended` holds, for each write, what the
/// blend equation makes of the fragment's colour and each sample's.
pub fn write_attachments(
    colour: &mut Vec<Colour>,
    depth_stencil: &mut Option<DepthStencil>,
    entries: &Vec<Entry>,
    blended: &Vec<Vec<Pixel>>,
) -> (written: Result<u32, Error>)
    requires
        in_order(entries@, old(colour)@.len()),
        entries@.len() <= u32::MAX / 32,
        blended@.len() == entries@.len(),
        forall|i: int|
            0 <= i < entries@.len() ==> {
                let target = old(colour)@[(#[trigger] entries@[i]).attachment as int];
                target.samples <= 32 && (!target.integer ==> blended@[i]@.len() >= target.samples)
            },
    ensures
        same_buffer(*final(depth_stencil), *old(depth_stencil)),
        surfaces_of_buffer(*final(depth_stencil)) == (if entries@.len() == 0 {
            surfaces_of_buffer(*old(depth_stencil))
        } else {
            Surfaces {
                colour: Seq::empty(),
                ..entry_written(old(colour)@, *old(depth_stencil), entries@, blended@, 0).surfaces
            }
        }),
        ({
            let count = made(old(colour)@, *old(depth_stencil), entries@, blended@, entries@.len());
            &&& left_by(final(colour)@, old(colour)@, *old(depth_stencil), entries@, blended@, count)
            &&& match written {
                Ok(samples) => {
                    &&& forall|i: int|
                        0 <= i < entries@.len() ==> (#[trigger] entry_written(
                            old(colour)@,
                            *old(depth_stencil),
                            entries@,
                            blended@,
                            i,
                        )).fault is None
                    &&& samples == changed(
                        old(colour)@,
                        *old(depth_stencil),
                        entries@,
                        blended@,
                        entries@.len(),
                    )
                },
                Err(error) => count > 0 && entry_written(
                    old(colour)@,
                    *old(depth_stencil),
                    entries@,
                    blended@,
                    count - 1,
                ).fault == Some(error),
            }
        }),
{
    let mut total: u32 = 0;
    let mut answer: u32 = 0xffff_ffff;
    let mut next: usize = 0;
    let ghost (start, buffer) = (colour@, *depth_stencil);
    while next < entries.len()
        invariant
            next <= entries@.len() <= u32::MAX / 32,
            total <= next * 32,
            in_order(entries@, start.len()),
            blended@.len() == entries@.len(),
            start == old(colour)@,
            buffer == *old(depth_stencil),
            forall|i: int|
                0 <= i < entries@.len() ==> {
                    let target = start[(#[trigger] entries@[i]).attachment as int];
                    target.samples <= 32 && (!target.integer ==> blended@[i]@.len() >= target.samples)
                },
            same_buffer(*depth_stencil, buffer),
            next == 0 ==> *depth_stencil == buffer,
            next > 0 ==> surfaces_of_buffer(*depth_stencil) == (Surfaces {
                colour: Seq::empty(),
                ..entry_written(start, buffer, entries@, blended@, 0).surfaces
            }),
            next > 0 ==> answer == passing(
                buffer,
                entries@[0].fragment,
                start[entries@[0].attachment as int].samples as nat,
            ),
            left_by(colour@, start, buffer, entries@, blended@, next as nat),
            made(start, buffer, entries@, blended@, next as nat) == next,
            forall|i: int|
                0 <= i < next ==> (#[trigger] entry_written(start, buffer, entries@, blended@, i)).fault is None,
            total == changed(start, buffer, entries@, blended@, next as nat),
        decreases entries@.len() - next,
    {
        let entry = entries[next];
        let at: usize = entry.attachment;
        let ghost before = colour@;
        assert(before[at as int] == start[at as int]);
        let outcome = if next == 0 {
            answer = samples_passing(depth_stencil, &entry.fragment, colour[at].samples);
            write_fragment(&mut colour[at], depth_stencil, &entry.fragment, blended[next].as_slice())
        } else {
            let fragment = Fragment { sample_mask: entry.fragment.sample_mask & answer, ..entry.fragment };
            let mut untested: Option<DepthStencil> = None;
            write_fragment(&mut colour[at], &mut untested, &fragment, blended[next].as_slice())
        };
        let ghost whole = entry_written(start, buffer, entries@, blended@, next as int);
        proof {
            no_more_than_its_samples(
                surfaces_of(start[at as int], if next == 0 { buffer } else { None }),
                start[at as int],
                if next == 0 { buffer } else { None },
                if next == 0 { entry.fragment } else { following(entry.fragment, answer) },
                blended@[next as int]@,
                start[at as int].samples as nat,
            );
            assert(colour@ =~= before.update(at as int, colour@[at as int]));
            assert(colour@[at as int]@ == whole.surfaces.colour);
            assert(left_by(colour@, start, buffer, entries@, blended@, (next + 1) as nat));
        }
        match outcome {
            Err(error) => {
                proof {
                    a_failed_write_is_the_last(
                        start,
                        buffer,
                        entries@,
                        blended@,
                        (next + 1) as nat,
                        entries@.len(),
                    );
                }
                return Err(error);
            },
            Ok(count) => {
                total = total + count;
            },
        }
        next = next + 1;
    }
    Ok(total)
}

proof fn a_failed_write_is_the_last(
    colour: Seq<Colour>,
    depth_stencil: Option<DepthStencil>,
    entries: Seq<Entry>,
    blended: Seq<Vec<Pixel>>,
    from: nat,
    to: nat,
)
    requires
        0 < from <= to,
        made(colour, depth_stencil, entries, blended, from) == from,
        entry_written(colour, depth_stencil, entries, blended, from - 1).fault is Some,
    ensures
        made(colour, depth_stencil, entries, blended, to) == from,
    decreases to - from,
{
    if from < to {
        a_failed_write_is_the_last(colour, depth_stencil, entries, blended, from, (to - 1) as nat);
    }
}

proof fn a_sample_stays(
    start: Surfaces,
    colour: Colour,
    depth_stencil: Option<DepthStencil>,
    fragment: Fragment,
    blended: Seq<Pixel>,
    count: nat,
    sample: u32,
)
    requires
        count <= colour.samples,
        fragment.x < colour.width,
        sample < colour.samples,
        depth_stencil matches Some(buffer) ==> buffer.width == colour.width && buffer.samples
            == colour.samples,
        !bit(narrowed(fragment), sample) || !sample_outcome(start, depth_stencil, fragment, sample).passed,
    ensures
        ({
            let after = samples_written(start, colour, depth_stencil, fragment, blended, count).surfaces;
            let at = slot(fragment.x, fragment.y, sample, colour.width, colour.samples);
            &&& entry(after.colour, at, ZERO) == entry(start.colour, at, ZERO)
            &&& count <= sample && depth_stencil is Some ==> sample_outcome(
                after,
                depth_stencil,
                fragment,
                sample,
            ) == sample_outcome(start, depth_stencil, fragment, sample)
        }),
    decreases count,
{
    if count > 0 {
        a_sample_stays(start, colour, depth_stencil, fragment, blended, (count - 1) as nat, sample);
        let current = (count - 1) as u32;
        if slot(fragment.x, fragment.y, sample, colour.width, colour.samples) == slot(
            fragment.x,
            fragment.y,
            current,
            colour.width,
            colour.samples,
        ) {
            samples_are_apart(
                fragment.x,
                fragment.y,
                sample,
                fragment.x,
                fragment.y,
                current,
                colour.width,
                colour.samples,
            );
        }
    }
}

/// The attachments follow the answer of the one test: a sample it refuses is as it was in every attachment
/// the fragment writes.
pub proof fn a_refused_sample_is_written_nowhere(
    colour: Seq<Colour>,
    depth_stencil: Option<DepthStencil>,
    entries: Seq<Entry>,
    blended: Seq<Vec<Pixel>>,
    i: int,
    sample: u32,
)
    requires
        0 <= i < entries.len(),
        forall|j: int| 0 <= j < entries.len() ==> (#[trigger] entries[j]).attachment < colour.len(),
        entries[i].fragment.x < colour[entries[i].attachment as int].width,
        sample < colour[entries[i].attachment as int].samples <= 32,
        colour[entries[0].attachment as int].samples == colour[entries[i].attachment as int].samples,
        depth_stencil matches Some(buffer) ==> buffer.width == colour[entries[i].attachment as int].width
            && buffer.samples == colour[entries[i].attachment as int].samples,
        !sample_outcome(surfaces_of_buffer(depth_stencil), depth_stencil, entries[0].fragment, sample).passed,
    ensures
        ({
            let target = colour[entries[i].attachment as int];
            let fragment = entries[i].fragment;
            let at = slot(fragment.x, fragment.y, sample, target.width, target.samples);
            entry(entry_written(colour, depth_stencil, entries, blended, i).surfaces.colour, at, ZERO)
                == entry(target@, at, ZERO)
        }),
{
    let target = colour[entries[i].attachment as int];
    if i == 0 {
        a_sample_stays(
            surfaces_of(target, depth_stencil),
            target,
            depth_stencil,
            entries[0].fragment,
            blended[0]@,
            target.samples as nat,
            sample,
        );
    } else {
        let answer = passing(depth_stencil, entries[0].fragment, target.samples as nat);
        a_bit_per_sample(depth_stencil, entries[0].fragment, target.samples as nat, sample);
        let fragment = following(entries[i].fragment, answer);
        let own = entries[i].fragment;
        assert(narrowed(fragment) & (1u32 << sample) == 0) by {
            let (covered, mask) = (own.coverage, own.sample_mask);
            let alpha: u32 = match own.alpha_mask {
                Some(Ok(alpha)) => alpha,
                _ => u32::MAX,
            };
            assert(covered & (mask & answer) & alpha & (1u32 << sample) == 0 && covered & (mask & answer) & (
            1u32 << sample) == 0) by (bit_vector)
                requires
                    answer & (1u32 << sample) == 0,
            ;
        }
        a_sample_stays(
            surfaces_of(target, None),
            target,
            None,
            fragment,
            blended[i]@,
            target.samples as nat,
            sample,
        );
    }
}

/// Where the test admits every sample, as it does without a depth attachment, following its answer leaves
/// a write what it was.
pub proof fn without_a_refusal_every_write_is_its_own(
    colour: Seq<Colour>,
    entries: Seq<Entry>,
    blended: Seq<Vec<Pixel>>,
    i: int,
)
    requires
        0 <= i < entries.len(),
        forall|j: int| 0 <= j < entries.len() ==> (#[trigger] entries[j]).attachment < colour.len(),
        colour[entries[i].attachment as int].samples <= 32,
        colour[entries[0].attachment as int].samples == colour[entries[i].attachment as int].samples,
    ensures
        entry_written(colour, None, entries, blended, i) == fragment_written(
            colour[entries[i].attachment as int],
            None,
            entries[i].fragment,
            blended[i]@,
        ),
{
    let target = colour[entries[i].attachment as int];
    let answer = passing(None, entries[0].fragment, target.samples as nat);
    let own = entries[i].fragment;
    if i > 0 && !(own.alpha_mask matches Some(Err(_))) {
        assert forall|sample: u32| sample < target.samples implies #[trigger] bit(
            narrowed(following(own, answer)),
            sample,
        ) == bit(narrowed(own), sample) by {
            a_bit_per_sample(None, entries[0].fragment, target.samples as nat, sample);
            let (covered, mask) = (own.coverage, own.sample_mask);
            let alpha: u32 = match own.alpha_mask {
                Some(Ok(alpha)) => alpha,
                _ => u32::MAX,
            };
            assert((covered & (mask & answer) & alpha & (1u32 << sample) != 0 <==> covered & mask & alpha & (
            1u32 << sample) != 0) && (covered & (mask & answer) & (1u32 << sample) != 0 <==> covered & mask & (
            1u32 << sample) != 0)) by (bit_vector)
                requires
                    answer & (1u32 << sample) != 0,
                    sample < 32,
            ;
        }
        the_same_samples(surfaces_of(target, None), target, own, answer, blended[i]@, target.samples as nat);
    }
}

proof fn the_same_samples(
    start: Surfaces,
    colour: Colour,
    fragment: Fragment,
    answer: u32,
    blended: Seq<Pixel>,
    count: nat,
)
    requires
        count <= colour.samples,
        forall|sample: u32|
            sample < colour.samples ==> #[trigger] bit(narrowed(following(fragment, answer)), sample) == bit(
                narrowed(fragment),
                sample,
            ),
    ensures
        samples_written(start, colour, None, following(fragment, answer), blended, count) == samples_written(
            start,
            colour,
            None,
            fragment,
            blended,
            count,
        ),
    decreases count,
{
    if count > 0 {
        the_same_samples(start, colour, fragment, answer, blended, (count - 1) as nat);
        let current = (count - 1) as u32;
        assert(bit(narrowed(following(fragment, answer)), current) == bit(narrowed(fragment), current));
    }
}


/// Every write is made up to the first that fails, and that one is the last.
pub proof fn writes_stop_at_the_first_fault(
    colour: Seq<Colour>,
    depth_stencil: Option<DepthStencil>,
    entries: Seq<Entry>,
    blended: Seq<Vec<Pixel>>,
    count: nat,
    i: int,
)
    requires
        0 <= i < count,
    ensures
        ({
            let done = made(colour, depth_stencil, entries, blended, count);
            &&& 0 < done <= count
            &&& i < done - 1 ==> entry_written(colour, depth_stencil, entries, blended, i).fault is None
            &&& done < count ==> entry_written(colour, depth_stencil, entries, blended, done - 1).fault is Some
        }),
    decreases count,
{
    if count > 1 {
        writes_stop_at_the_first_fault(colour, depth_stencil, entries, blended, (count - 1) as nat, 0);
        if i < count - 1 {
            writes_stop_at_the_first_fault(colour, depth_stencil, entries, blended, (count - 1) as nat, i);
        }
        if i == count - 2 {
            writes_stop_at_the_first_fault(colour, depth_stencil, entries, blended, (count - 1) as nat, count - 2);
        }
    } else {
        assert(made(colour, depth_stencil, entries, blended, 0) == 0);
    }
}

/// The samples that are counted are those of every write, each write once.
pub proof fn every_write_is_counted(
    colour: Seq<Colour>,
    depth_stencil: Option<DepthStencil>,
    entries: Seq<Entry>,
    blended: Seq<Vec<Pixel>>,
    few: nat,
    many: nat,
)
    requires
        few < many,
    ensures
        changed(colour, depth_stencil, entries, blended, 0) == 0,
        changed(colour, depth_stencil, entries, blended, many) >= changed(
            colour,
            depth_stencil,
            entries,
            blended,
            few,
        ) + entry_written(colour, depth_stencil, entries, blended, few as int).written,
        changed(colour, depth_stencil, entries, blended, few + 1) == changed(
            colour,
            depth_stencil,
            entries,
            blended,
            few,
        ) + entry_written(colour, depth_stencil, entries, blended, few as int).written,
    decreases many - few,
{
    if few + 1 < many {
        every_write_is_counted(colour, depth_stencil, entries, blended, few + 1, many);
    }
}

/// The answer of the test is by sample: its bit is set where the sample passes, and for no sample past the last.
pub proof fn an_answer_is_by_sample(depth_stencil: Option<DepthStencil>, fragment: Fragment, samples: u32, sample: u32)
    requires
        sample < 32,
        samples <= 32,
    ensures
        bit(passing(depth_stencil, fragment, samples as nat), sample) <==> sample < samples && sample_outcome(
            surfaces_of_buffer(depth_stencil),
            depth_stencil,
            fragment,
            sample,
        ).passed,
{
    a_bit_per_sample(depth_stencil, fragment, samples as nat, sample);
}

} // verus!
