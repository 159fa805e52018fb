//! Clipping as coverage: each level is a rectangle or a mask, and levels nest by multiplying.
use super::geom::PixelRect;
use crate::grid::cell;
use vstd::prelude::*;

verus! {

/// One level of the clip stack: a rectangle, or a rectangle with a mask.
#[derive(Debug)]
pub struct ClipLevel {
    pub bounds: PixelRect,
    pub mask: Option<Vec<u8>>,
}

/// A level as mathematics.
#[verifier::ext_equal]
pub ghost struct Admission {
    pub bounds: PixelRect,
    pub mask: Option<Seq<u8>>,
}

impl Admission {
    /// How much of a pixel the level lets through, in two hundred and fifty-fifths: nothing outside its
    /// bounds, everything inside a rectangle, what the mask says inside a mask.
    pub open spec fn at(self, x: int, y: int) -> u8 {
        if !self.bounds.has(x, y) {
            0
        } else {
            match self.mask {
                None => 255,
                Some(mask) => {
                    let index = cell(x - self.bounds.x, y - self.bounds.y, self.bounds.width as int);
                    if index < mask.len() {
                        mask[index]
                    } else {
                        0
                    }
                },
            }
        }
    }
}

impl View for ClipLevel {
    type V = Admission;

    open spec fn view(&self) -> Admission {
        Admission {
            bounds: self.bounds,
            mask: match self.mask {
                Some(mask) => Some(mask@),
                None => None,
            },
        }
    }
}

impl ClipLevel {
    pub fn rectangle(bounds: PixelRect) -> (made: ClipLevel)
        ensures
            made@ == (Admission { bounds, mask: None }),
    {
        ClipLevel { bounds, mask: None }
    }

    pub fn with_mask(bounds: PixelRect, mask: Vec<u8>) -> (made: ClipLevel)
        ensures
            made@ == (Admission { bounds, mask: Some(mask@) }),
    {
        ClipLevel { bounds, mask: Some(mask) }
    }

    pub fn bounds(&self) -> (bounds: PixelRect)
        ensures
            bounds == self.bounds,
    {
        self.bounds
    }

    /// How much of a pixel this level lets through, in two hundred and fifty-fifths.
    pub fn coverage(&self, x: u32, y: u32) -> (admitted: u8)
        ensures
            admitted == self@.at(x as int, y as int),
    {
        if x < self.bounds.x || y < self.bounds.y {
            return 0;
        }
        let (local_x, local_y): (u32, u32) = (x - self.bounds.x, y - self.bounds.y);
        if local_x >= self.bounds.width || local_y >= self.bounds.height {
            return 0;
        }
        match &self.mask {
            None => 255,
            Some(mask) => {
                let width: u32 = self.bounds.width;
                assert(0 <= local_y * width <= 0xffff_ffff * 0xffff_ffff) by (nonlinear_arith)
                    requires
                        0 <= local_y <= 0xffff_ffff,
                        0 <= width <= 0xffff_ffff,
                ;
                let index: u64 = local_y as u64 * width as u64 + local_x as u64;
                if index < mask.len() as u64 {
                    mask[index as usize]
                } else {
                    0
                }
            },
        }
    }

    pub fn scratch_bytes(&self) -> (bytes: u64)
        ensures
            bytes == match self@.mask {
                Some(mask) => mask.len(),
                None => 0,
            },
    {
        match &self.mask {
            Some(mask) => mask.len() as u64,
            None => 0,
        }
    }
}

/// Levels as mathematics.
pub open spec fn admissions(levels: Seq<ClipLevel>) -> Seq<Admission> {
    Seq::new(levels.len(), |i: int| levels[i]@)
}

/// A clip stack as mathematics: its levels, and after each the bounds that are left.
#[verifier::ext_equal]
pub ghost struct Nesting {
    pub levels: Seq<Admission>,
    pub bounds: Seq<PixelRect>,
}

impl Nesting {
    /// The bounds that are left.
    pub open spec fn left(self) -> PixelRect {
        if self.bounds.len() == 0 {
            PixelRect { x: 0, y: 0, width: 0, height: 0 }
        } else {
            self.bounds.last()
        }
    }

    /// One level more.
    pub open spec fn pushed(self, level: Admission) -> Nesting {
        Nesting {
            levels: self.levels.push(level),
            bounds: self.bounds.push(self.left().meet(level.bounds)),
        }
    }

    /// One level less. The first bounds stay.
    pub open spec fn popped(self) -> Nesting {
        Nesting {
            levels: if self.levels.len() == 0 {
                self.levels
            } else {
                self.levels.drop_last()
            },
            bounds: if self.bounds.len() > 1 {
                self.bounds.drop_last()
            } else {
                self.bounds
            },
        }
    }

    /// What each level lets through of a pixel, up to the first that lets nothing through.
    pub open spec fn through(self, x: int, y: int, from: nat) -> Seq<u8>
        decreases self.levels.len() - from,
    {
        if from >= self.levels.len() {
            Seq::empty()
        } else {
            let admitted = self.levels[from as int].at(x, y);
            if admitted == 0 {
                seq![admitted]
            } else {
                seq![admitted] + self.through(x, y, from + 1)
            }
        }
    }

    /// Whether some level lets nothing through of a pixel.
    pub open spec fn blocks(self, x: int, y: int) -> bool {
        let through = self.through(x, y, 0);
        through.len() > 0 && through.last() == 0
    }

    /// Whether every level is a plain rectangle.
    pub open spec fn rectangular(self) -> bool {
        forall|i: int| 0 <= i < self.levels.len() ==> (#[trigger] self.levels[i]).mask is None
    }

    /// Whether the bounds are those of the levels, intersected one after the other.
    pub open spec fn consistent(self) -> bool {
        &&& self.bounds.len() == self.levels.len() + 1
        &&& forall|i: int|
            0 <= i < self.levels.len() ==> #[trigger] self.bounds[i + 1] == self.bounds[i].meet(
                self.levels[i].bounds,
            )
    }
}

/// The clip stack.
#[derive(Debug)]
pub struct ClipStack {
    pub levels: Vec<ClipLevel>,
    /// The intersection of every level's bounds, kept as it changes.
    pub bounds: Vec<PixelRect>,
}

impl View for ClipStack {
    type V = Nesting;

    open spec fn view(&self) -> Nesting {
        Nesting { levels: admissions(self.levels@), bounds: self.bounds@ }
    }
}

impl ClipStack {
    pub fn new() -> (made: ClipStack)
        ensures
            made@ == (Nesting { levels: Seq::empty(), bounds: Seq::empty() }),
    {
        let made = ClipStack { levels: Vec::new(), bounds: Vec::new() };
        assert(made@.levels =~= Seq::<Admission>::empty());
        made
    }

    /// Start anew within bounds.
    pub fn reset(&mut self, bounds: PixelRect)
        ensures
            final(self)@ == (Nesting { levels: Seq::empty(), bounds: seq![bounds] }),
            final(self)@.consistent(),
    {
        self.levels.clear();
        self.bounds.clear();
        self.bounds.push(bounds);
        assert(self@.levels =~= Seq::<Admission>::empty());
        assert(self@.bounds =~= seq![bounds]);
    }

    pub fn bounds(&self) -> (bounds: PixelRect)
        ensures
            bounds == self@.left(),
    {
        let count: usize = self.bounds.len();
        if count == 0 {
            PixelRect::nowhere()
        } else {
            self.bounds[count - 1]
        }
    }

    pub fn depth(&self) -> (count: usize)
        ensures
            count == self@.levels.len(),
    {
        self.levels.len()
    }

    pub fn push(&mut self, level: ClipLevel)
        ensures
            final(self)@ == old(self)@.pushed(level@),
            old(self)@.consistent() ==> final(self)@.consistent(),
    {
        let narrowed = self.bounds().intersection(&level.bounds());
        self.levels.push(level);
        self.bounds.push(narrowed);
        assert(self@.levels =~= old(self)@.pushed(level@).levels);
    }

    /// Pop, returning the mask's storage to the pool it came from.
    pub fn pop(&mut self, pool: &mut MaskPool)
        requires
            old(pool).wf(),
        ensures
            final(self)@ == old(self)@.popped(),
            old(self)@.consistent() ==> final(self)@.consistent(),
            final(pool).wf(),
            final(pool).size == old(pool).size,
            masks(final(pool).free@) == if old(self)@.levels.len() > 0 && returnable(
                old(self)@.levels.last().mask,
                old(pool).size as nat,
            ) {
                masks(old(pool).free@).push(old(self)@.levels.last().mask->0)
            } else {
                masks(old(pool).free@)
            },
    {
        if let Some(level) = self.levels.pop() {
            assert(old(self)@.levels.last() == level@);
            if let Some(mask) = level.mask {
                assert(masks(pool.free@.push(mask)) =~= masks(pool.free@).push(mask@));
                pool.give(mask);
            }
        }
        if self.bounds.len() > 1 {
            let dropped = self.bounds.pop();
        }
        assert(self@.levels =~= old(self)@.popped().levels);
        assert(self@.bounds =~= old(self)@.popped().bounds);
    }

    /// Return every level's storage.
    pub fn drain_into(&mut self, pool: &mut MaskPool)
        requires
            old(pool).wf(),
        ensures
            final(self)@.levels.len() == 0,
            old(self)@.consistent() ==> final(self)@.bounds == seq![old(self)@.bounds[0]],
            final(pool).wf(),
            final(pool).size == old(pool).size,
            masks(final(pool).free@) == masks(old(pool).free@) + returned(
                old(self)@.levels,
                old(pool).size as nat,
                old(self)@.levels.len(),
            ),
    {
        let ghost all = self@.levels;
        assert(all.take(all.len() as int) =~= all);
        while self.levels.len() > 0
            invariant
                pool.wf(),
                pool.size == old(pool).size,
                all == old(self)@.levels,
                self@.levels.len() <= all.len(),
                self@.levels == all.take(self@.levels.len() as int),
                old(self)@.consistent() ==> self@.consistent() && self@.bounds[0] == old(self)@.bounds[0],
                masks(pool.free@) + returned(all, pool.size as nat, self@.levels.len()) == masks(
                    old(pool).free@,
                ) + returned(all, pool.size as nat, all.len()),
            decreases self.levels@.len(),
        {
            let ghost (before, held, size) = (self@.levels, masks(pool.free@), pool.size as nat);
            self.pop(pool);
            assert(before.last() == all[before.len() - 1]);
            assert(self@.levels =~= all.take(self@.levels.len() as int));
            assert(masks(pool.free@) + returned(all, size, self@.levels.len()) =~= held + returned(
                all,
                size,
                before.len(),
            ));
        }
        assert(masks(pool.free@) + returned(all, pool.size as nat, 0) =~= masks(pool.free@));
        assert(self@.consistent() ==> self@.bounds =~= seq![self@.bounds[0]]);
    }

    /// What each level lets through of a pixel, up to the first that lets nothing through. The coverage of the
    /// pixel is their product, each over two hundred and fifty-five.
    pub fn coverage(&self, x: u32, y: u32) -> (factors: Vec<u8>)
        ensures
            factors@ == self@.through(x as int, y as int, 0),
    {
        let mut factors: Vec<u8> = Vec::new();
        let mut next: usize = 0;
        let ghost nesting = self@;
        while next < self.levels.len()
            invariant
                next <= self.levels@.len(),
                nesting == self@,
                factors@ + nesting.through(x as int, y as int, next as nat) == nesting.through(
                    x as int,
                    y as int,
                    0,
                ),
            decreases self.levels@.len() - next,
        {
            let admitted: u8 = self.levels[next].coverage(x, y);
            let ghost before = factors@;
            assert(nesting.levels[next as int].at(x as int, y as int) == admitted);
            factors.push(admitted);
            if admitted == 0 {
                assert(factors@ =~= before + seq![admitted]);
                return factors;
            }
            assert(factors@ + nesting.through(x as int, y as int, (next + 1) as nat) =~= before + (seq![
                admitted,
            ] + nesting.through(x as int, y as int, (next + 1) as nat)));
            next = next + 1;
        }
        assert(factors@ =~= factors@ + Seq::<u8>::empty());
        factors
    }

    /// Whether some level lets nothing through of a pixel.
    pub fn blocks(&self, x: u32, y: u32) -> (nothing: bool)
        ensures
            nothing == self@.blocks(x as int, y as int),
    {
        let factors = self.coverage(x, y);
        let depth: usize = factors.len();
        depth > 0 && factors[depth - 1] == 0
    }

    /// How many bytes the masks of the levels hold.
    pub fn scratch_bytes(&self) -> (bytes: u64)
        requires
            mask_bytes(self@.levels, self@.levels.len()) <= u64::MAX,
        ensures
            bytes == mask_bytes(self@.levels, self@.levels.len()),
    {
        let mut bytes: u64 = 0;
        let mut next: usize = 0;
        while next < self.levels.len()
            invariant
                next <= self.levels@.len(),
                mask_bytes(self@.levels, self@.levels.len()) <= u64::MAX,
                bytes == mask_bytes(self@.levels, next as nat),
            decreases self.levels@.len() - next,
        {
            proof {
                mask_bytes_grow(self@.levels, (next + 1) as nat, self@.levels.len());
                assert(self@.levels[next as int] == self.levels@[next as int]@);
            }
            bytes = bytes + self.levels[next].scratch_bytes();
            next = next + 1;
        }
        bytes
    }

    /// Whether every level is a plain rectangle.
    pub fn is_rectangular(&self) -> (plain: bool)
        ensures
            plain == self@.rectangular(),
    {
        let mut next: usize = 0;
        while next < self.levels.len()
            invariant
                next <= self.levels@.len(),
                forall|i: int| 0 <= i < next ==> (#[trigger] self@.levels[i]).mask is None,
            decreases self.levels@.len() - next,
        {
            if self.levels[next].mask.is_some() {
                assert(self@.levels[next as int].mask is Some);
                return false;
            }
            next = next + 1;
        }
        true
    }
}

/// How many bytes the masks of the first `count` levels hold.
pub open spec fn mask_bytes(levels: Seq<Admission>, count: nat) -> nat
    decreases count,
{
    if count == 0 {
        0
    } else {
        mask_bytes(levels, (count - 1) as nat) + match levels[count - 1].mask {
            Some(mask) => mask.len(),
            None => 0,
        }
    }
}

proof fn mask_bytes_grow(levels: Seq<Admission>, some: nat, all: nat)
    requires
        some <= all,
    ensures
        mask_bytes(levels, some) <= mask_bytes(levels, all),
    decreases all - some,
{
    if some < all {
        mask_bytes_grow(levels, some, (all - 1) as nat);
    }
}

/// Whether a mask goes back into a pool of masks of one size.
pub open spec fn returnable(mask: Option<Seq<u8>>, size: nat) -> bool {
    match mask {
        Some(found) => found.len() == size,
        None => false,
    }
}

/// What the masks of a pool hold, in order.
pub open spec fn masks(free: Seq<Vec<u8>>) -> Seq<Seq<u8>> {
    free.map_values(|mask: Vec<u8>| mask@)
}

/// The masks of the first `count` levels that go back into a pool, the last level's first.
pub open spec fn returned(levels: Seq<Admission>, size: nat, count: nat) -> Seq<Seq<u8>>
    decreases count,
{
    if count == 0 {
        Seq::empty()
    } else if returnable(levels[count - 1].mask, size) {
        seq![levels[count - 1].mask->0] + returned(levels, size, (count - 1) as nat)
    } else {
        returned(levels, size, (count - 1) as nat)
    }
}

/// Mask storage, taken and given back.
#[derive(Debug)]
pub struct MaskPool {
    pub free: Vec<Vec<u8>>,
    pub size: usize,
}

impl MaskPool {
    /// Every mask of the pool is of its one size.
    pub open spec fn wf(self) -> bool {
        forall|i: int| 0 <= i < self.free@.len() ==> (#[trigger] self.free@[i])@.len() == self.size
    }

    /// Whether this is a pool after a reservation: of the size, what it held of that size kept, and empty masks behind
    /// it up to the count.
    pub open spec fn refilled(self, before: MaskPool, count: nat, size: usize) -> bool {
        let kept = if before.size == size {
            before.free@.len()
        } else {
            0
        };
        &&& self.size == size
        &&& self.free@.len() == if kept < count {
            count
        } else {
            kept
        }
        &&& self.free@.take(kept as int) == before.free@.take(kept as int)
        &&& forall|i: int| kept <= i < self.free@.len() ==> (#[trigger] self.free@[i])@ == Seq::new(
            size as nat,
            |j: int| 0u8,
        )
    }

    pub fn new() -> (made: MaskPool)
        ensures
            made.wf(),
            made.free@.len() == 0,
            made.size == 0,
    {
        MaskPool { free: Vec::new(), size: 0 }
    }

    /// Reserve `count` masks of `size` bytes. Masks of another size are given up.
    pub fn reserve(&mut self, count: usize, size: usize)
        requires
            old(self).wf(),
        ensures
            final(self).wf(),
            final(self).refilled(*old(self), count as nat, size),
    {
        if self.size != size {
            self.free.clear();
            self.size = size;
        }
        let ghost (kept, before) = (self.free@.len(), self.free@);
        while self.free.len() < count
            invariant
                self.wf(),
                self.size == size,
                kept == before.len(),
                kept <= self.free@.len(),
                self.free@.take(kept as int) == before,
                forall|i: int| kept <= i < self.free@.len() ==> (#[trigger] self.free@[i])@ == Seq::new(
                    size as nat,
                    |j: int| 0u8,
                ),
                self.free@.len() == kept || self.free@.len() <= count,
            decreases count - self.free@.len(),
        {
            let mask = filled(size, 0);
            assert(mask@ =~= Seq::new(size as nat, |j: int| 0u8));
            self.free.push(mask);
            assert(self.free@.take(kept as int) =~= before);
        }
        assert(before =~= old(self).free@.take(kept as int));
    }

    pub fn take(&mut self) -> (mask: Option<Vec<u8>>)
        requires
            old(self).wf(),
        ensures
            final(self).wf(),
            final(self).size == old(self).size,
            match mask {
                Some(found) => old(self).free@.len() > 0 && final(self).free@ == old(self).free@.drop_last()
                    && found@ == Seq::new(old(self).size as nat, |i: int| 0u8),
                None => old(self).free@.len() == 0 && final(self).free@ == old(self).free@,
            },
    {
        self.take_filled(0)
    }

    /// Take a mask filled with a value, or none where the reservation is used up.
    pub fn take_filled(&mut self, value: u8) -> (mask: Option<Vec<u8>>)
        requires
            old(self).wf(),
        ensures
            final(self).wf(),
            final(self).size == old(self).size,
            match mask {
                Some(found) => old(self).free@.len() > 0 && final(self).free@ == old(self).free@.drop_last()
                    && found@ == Seq::new(old(self).size as nat, |i: int| value),
                None => old(self).free@.len() == 0 && final(self).free@ == old(self).free@,
            },
    {
        match self.free.pop() {
            None => None,
            Some(taken) => {
                let mut mask = taken;
                let mut next: usize = 0;
                while next < mask.len()
                    invariant
                        next <= mask@.len(),
                        mask@.len() == old(self).size,
                        forall|i: int| 0 <= i < next ==> #[trigger] mask@[i] == value,
                    decreases mask@.len() - next,
                {
                    mask.set(next, value);
                    next = next + 1;
                }
                assert(mask@ =~= Seq::new(old(self).size as nat, |i: int| value));
                Some(mask)
            },
        }
    }

    /// Give a mask back. One of another size is not the pool's.
    pub fn give(&mut self, mask: Vec<u8>)
        requires
            old(self).wf(),
        ensures
            final(self).wf(),
            final(self).size == old(self).size,
            final(self).free@ == if mask@.len() == old(self).size {
                old(self).free@.push(mask)
            } else {
                old(self).free@
            },
    {
        if mask.len() == self.size {
            self.free.push(mask);
        }
    }

    pub fn scratch_bytes(&self) -> (bytes: u64)
        requires
            self.wf(),
            self.free@.len() * self.size <= u64::MAX,
        ensures
            bytes == self.free@.len() * self.size,
    {
        let mut bytes: u64 = 0;
        let mut next: usize = 0;
        let ghost (count, each) = (self.free@.len() as int, self.size as int);
        while next < self.free.len()
            invariant
                next <= self.free@.len(),
                self.wf(),
                count == self.free@.len(),
                each == self.size,
                count * each <= u64::MAX,
                bytes == next * each,
            decreases self.free@.len() - next,
        {
            assert(next * each + each <= count * each && next * each + each == (next + 1) * each)
                by (nonlinear_arith)
                requires
                    next + 1 <= count,
                    each >= 0,
            ;
            assert(self.free@[next as int]@.len() == each);
            bytes = bytes + self.free[next].len() as u64;
            next = next + 1;
        }
        bytes
    }
}

fn filled(size: usize, value: u8) -> (mask: Vec<u8>)
    ensures
        mask@ == Seq::new(size as nat, |i: int| value),
{
    let mut mask: Vec<u8> = Vec::new();
    while mask.len() < size
        invariant
            mask@.len() <= size,
            forall|i: int| 0 <= i < mask@.len() ==> #[trigger] mask@[i] == value,
        decreases size - mask@.len(),
    {
        mask.push(value);
    }
    assert(mask@ =~= Seq::new(size as nat, |i: int| value));
    mask
}

/// A step of coverage as a mask keeps it, inverted where the clip is an inverse one.
pub open spec fn masked(coverage: u8, inverse: bool) -> u8 {
    if inverse {
        (255 - coverage) as u8
    } else {
        coverage
    }
}

/// Turn a row of coverage, quantised to two hundred and fifty-five steps, into the part of a mask that starts
/// at `start` and is `length` bytes, inverted where the clip is an inverse one.
pub fn write_mask_row(mask: &mut Vec<u8>, start: usize, length: usize, coverage: &[u8], inverse: bool)
    requires
        start + length <= old(mask)@.len(),
    ensures
        final(mask)@ == Seq::new(
            old(mask)@.len(),
            |i: int|
                if start <= i < start + length && i - start < coverage@.len() {
                    masked(coverage@[i - start], inverse)
                } else {
                    old(mask)@[i]
                },
        ),
{
    let mut next: usize = 0;
    let size: usize = mask.len();
    let ghost before = mask@;
    while next < length && next < coverage.len()
        invariant
            size == mask@.len(),
            next <= length,
            next <= coverage@.len(),
            start + length <= mask@.len(),
            mask@.len() == before.len(),
            forall|i: int|
                0 <= i < mask@.len() ==> #[trigger] mask@[i] == (if start <= i < start + next {
                    masked(coverage@[i - start], inverse)
                } else {
                    before[i]
                }),
        decreases length - next,
    {
        let value: u8 = if inverse {
            255 - coverage[next]
        } else {
            coverage[next]
        };
        mask.set(start + next, value);
        next = next + 1;
    }
    assert(mask@ =~= Seq::new(
        before.len(),
        |i: int|
            if start <= i < start + length && i - start < coverage@.len() {
                masked(coverage@[i - start], inverse)
            } else {
                before[i]
            },
    ));
}

// ---------------------------------------------------------------------------------------------
// Laws of the stack.
// ---------------------------------------------------------------------------------------------
/// Clips intersect and never replace: no push lets a pixel back in.
pub proof fn a_clip_never_widens(nesting: Nesting, level: Admission, x: int, y: int)
    requires
        nesting.pushed(level).left().has(x, y),
    ensures
        nesting.left().has(x, y),
        level.bounds.has(x, y),
{
}

/// A pop undoes a push.
pub proof fn a_pop_undoes_a_push(nesting: Nesting, level: Admission)
    requires
        nesting.bounds.len() >= 1,
    ensures
        nesting.pushed(level).popped() == nesting,
{
    assert(nesting.pushed(level).popped().levels =~= nesting.levels);
    assert(nesting.pushed(level).popped().bounds =~= nesting.bounds);
}

/// A pixel some level lets nothing through of has a factor of nothing, whatever the other levels say.
pub proof fn a_blocked_pixel_has_no_coverage(nesting: Nesting, x: int, y: int, from: nat, i: int)
    requires
        from <= i < nesting.levels.len(),
        nesting.levels[i].at(x, y) == 0,
    ensures
        nesting.through(x, y, from).len() > 0,
        nesting.through(x, y, from).last() == 0,
    decreases i - from,
{
    if nesting.levels[from as int].at(x, y) != 0 {
        a_blocked_pixel_has_no_coverage(nesting, x, y, from + 1, i);
        let rest = nesting.through(x, y, from + 1);
        let admitted = nesting.levels[from as int].at(x, y);
        assert((seq![admitted] + rest).last() == rest.last());
    }
}

proof fn bounds_are_within(nesting: Nesting, upto: nat, i: int, x: int, y: int)
    requires
        nesting.consistent(),
        upto <= nesting.levels.len(),
        0 <= i < upto,
        nesting.bounds[upto as int].has(x, y),
    ensures
        nesting.levels[i].bounds.has(x, y),
    decreases upto,
{
    let last = upto - 1;
    assert(nesting.bounds[last + 1] == nesting.bounds[last].meet(nesting.levels[last].bounds));
    if i < last {
        bounds_are_within(nesting, last as nat, i, x, y);
    }
}

/// A pixel inside the bounds that are left is inside every level's, so a rectangular stack lets all of it
/// through.
pub proof fn inside_a_rectangular_stack_nothing_is_cut(nesting: Nesting, x: int, y: int, i: int)
    requires
        nesting.consistent(),
        nesting.rectangular(),
        nesting.left().has(x, y),
        0 <= i < nesting.levels.len(),
    ensures
        nesting.levels[i].at(x, y) == 255,
{
    bounds_are_within(nesting, nesting.levels.len(), i, x, y);
}

/// A level lets nothing through outside its bounds, everything inside a rectangle, and inside a mask what the mask's byte
/// for that pixel says, the bytes row by row from the corner of the bounds.
pub proof fn a_level_is_by_pixel(level: Admission, x: int, y: int)
    ensures
        ({
            let bounds = level.bounds;
            let inside = bounds.x <= x < bounds.x + bounds.width && bounds.y <= y < bounds.y + bounds.height;
            let index = (y - bounds.y) * bounds.width + (x - bounds.x);
            &&& !inside ==> level.at(x, y) == 0
            &&& inside && level.mask is None ==> level.at(x, y) == 255
            &&& inside ==> (level.mask matches Some(mask) ==> level.at(x, y) == if index < mask.len() {
                mask[index]
            } else {
                0u8
            })
        }),
{
}

proof fn a_stack_lets_through_level_by_level(nesting: Nesting, x: int, y: int, from: nat)
    requires
        from <= nesting.levels.len(),
    ensures
        ({
            let through = nesting.through(x, y, from);
            let stops = exists|i: int| from <= i < nesting.levels.len() && (#[trigger] nesting.levels[i]).at(x, y) == 0;
            &&& stops <==> through.len() > 0 && through.last() == 0
            &&& !stops ==> through.len() == nesting.levels.len() - from && forall|i: int|
                0 <= i < through.len() ==> #[trigger] through[i] == nesting.levels[from + i].at(x, y)
        }),
    decreases nesting.levels.len() - from,
{
    let through = nesting.through(x, y, from);
    if from < nesting.levels.len() {
        a_stack_lets_through_level_by_level(nesting, x, y, from + 1);
        let here = nesting.levels[from as int].at(x, y);
        let rest = nesting.through(x, y, from + 1);
        if here == 0 {
            assert(through.last() == 0);
        } else {
            assert(through =~= seq![here] + rest);
            if rest.len() > 0 {
                assert(through.last() == rest.last());
            }
            if exists|i: int| from <= i < nesting.levels.len() && (#[trigger] nesting.levels[i]).at(x, y) == 0 {
                let i = choose|i: int|
                    from <= i < nesting.levels.len() && (#[trigger] nesting.levels[i]).at(x, y) == 0;
                assert(from + 1 <= i && nesting.levels[i].at(x, y) == 0);
            }
        }
    }
}

/// A stack blocks a pixel exactly where some level lets nothing through of it; where none does, what it lets through is
/// every level's share, in order.
pub proof fn a_stack_blocks_where_a_level_does(nesting: Nesting, x: int, y: int)
    ensures
        nesting.blocks(x, y) <==> exists|i: int|
            0 <= i < nesting.levels.len() && (#[trigger] nesting.levels[i]).at(x, y) == 0,
        !nesting.blocks(x, y) ==> nesting.through(x, y, 0) =~= Seq::new(
            nesting.levels.len(),
            |i: int| nesting.levels[i].at(x, y),
        ),
{
    a_stack_lets_through_level_by_level(nesting, x, y, 0);
}

/// A mask keeps a step of coverage as it is, and an inverse one what is missing to full.
pub proof fn a_mask_keeps_or_inverts(coverage: u8)
    ensures
        masked(coverage, false) == coverage,
        masked(coverage, true) + coverage == 255,
        masked(masked(coverage, true), true) == coverage,
{
}

/// A push leaves what is in the bounds that were left and in the level's own; the levels before stay.
pub proof fn a_push_leaves_what_is_in_both(nesting: Nesting, level: Admission, x: int, y: int)
    ensures
        nesting.pushed(level).left().has(x, y) <==> nesting.left().has(x, y) && level.bounds.has(x, y),
        nesting.pushed(level).levels =~= nesting.levels.push(level),
{
    super::geom::meeting_is_by_pixels(nesting.left(), level.bounds, x, y);
}

} // verus!
