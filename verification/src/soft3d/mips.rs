//! The shape of a mip chain: which level follows which, and which texels of the level above each texel is
//! the average of. Decoding the top level and averaging are floating-point work of the caller.
use super::texture::{Kind, Level, Plane, Texel, Texture, Transfer};
use vstd::prelude::*;

verus! {

/// Half of an extent, and at least one.
pub open spec fn halved(extent: u32) -> u32 {
    if extent / 2 < 1 {
        1
    } else {
        extent / 2
    }
}

fn half(extent: u32) -> (smaller: u32)
    ensures
        smaller == halved(extent),
{
    if extent / 2 < 1 {
        1
    } else {
        extent / 2
    }
}

/// Whether a level has one below it.
pub open spec fn has_smaller(level: Plane, kind: Kind) -> bool {
    level.width > 1 || level.height > 1 || (kind == Kind::Dim3 && level.depth > 1)
}

/// The extents of the level below. Only a volume halves its depth; layers are kept.
pub open spec fn smaller(level: Plane, kind: Kind) -> (u32, u32, u32) {
    (
        halved(level.width),
        halved(level.height),
        if kind == Kind::Dim3 {
            halved(level.depth)
        } else {
            level.depth
        },
    )
}

/// How many texels the level below has.
pub open spec fn smaller_count(level: Plane, kind: Kind) -> int {
    let (width, height, depth) = smaller(level, kind);
    width * height * depth
}

/// The coordinates of one of the up to eight texels a box reads: `corner` counts along the row, then down
/// the rows, then through the planes.
pub open spec fn corner_of(kind: Kind, x: int, y: int, z: int, corner: int) -> (int, int, int) {
    (
        2 * x + corner % 2,
        2 * y + (corner / 2) % 2,
        if kind == Kind::Dim3 {
            2 * z + corner / 4
        } else {
            z
        },
    )
}

/// How many corners a box has.
pub open spec fn corners(kind: Kind) -> nat {
    if kind == Kind::Dim3 {
        8
    } else {
        4
    }
}

/// The texels of a box, up to a corner: those that exist, each as often as every other.
pub open spec fn boxed(level: Plane, kind: Kind, x: int, y: int, z: int, upto: nat) -> Seq<Texel>
    decreases upto,
{
    if upto == 0 {
        Seq::empty()
    } else {
        let before = boxed(level, kind, x, y, z, (upto - 1) as nat);
        let (sx, sy, sz) = corner_of(kind, x, y, z, upto - 1);
        if sx < level.width && sy < level.height && sz < level.depth {
            before.push(level.texel(sx as u32, sy as u32, sz as u32))
        } else {
            before
        }
    }
}

/// The texels a texel of the level below is the average of; `index` counts its texels in storage order.
pub open spec fn averaged(level: Plane, kind: Kind, index: int) -> Seq<Texel> {
    let (width, height, _) = smaller(level, kind);
    let row = index / (width as int);
    boxed(level, kind, index % (width as int), row % (height as int), row / (height as int), corners(kind))
}

/// The texels each texel of the level below is the average of, in storage order.
pub open spec fn boxes(level: Plane, kind: Kind) -> Seq<Seq<Texel>> {
    Seq::new(smaller_count(level, kind) as nat, |i: int| averaged(level, kind, i))
}

/// A list of lists as mathematics.
pub open spec fn lists(groups: Seq<Vec<Texel>>) -> Seq<Seq<Texel>> {
    Seq::new(groups.len(), |i: int| groups[i]@)
}

/// A list of levels as mathematics.
pub open spec fn planes(levels: Seq<Level>) -> Seq<Plane> {
    Seq::new(levels.len(), |i: int| levels[i]@)
}

/// An extent, counted as one where it is none.
pub open spec fn at_least_one(extent: u32) -> int {
    if extent < 1 {
        1
    } else {
        extent as int
    }
}

/// Whether a level and every level below it can be counted.
pub open spec fn countable(level: Plane) -> bool {
    at_least_one(level.width) * at_least_one(level.height) * at_least_one(level.depth) <= u32::MAX
}

/// How far a mip chain got.
pub ghost enum Chain {
    /// The next level is the averages of these texels.
    Waits(Seq<Seq<Texel>>),
    Done(Seq<Plane>),
}

/// The levels below a level, with the averages the caller computed.
pub open spec fn chain(level: Plane, kind: Kind, averages: Seq<Vec<Texel>>, from: nat) -> Chain
    decreases
            at_least_one(level.width) + at_least_one(level.height) + (if kind == Kind::Dim3 {
                at_least_one(level.depth)
            } else {
                0
            }),
{
    if !has_smaller(level, kind) {
        Chain::Done(Seq::empty())
    } else if from >= averages.len() || averages[from as int]@.len() != smaller_count(level, kind) {
        Chain::Waits(boxes(level, kind))
    } else {
        let (width, height, depth) = smaller(level, kind);
        let next = Plane { width, height, depth, texels: averages[from as int]@ };
        match chain(next, kind, averages, from + 1) {
            Chain::Waits(groups) => Chain::Waits(groups),
            Chain::Done(rest) => Chain::Done(seq![next] + rest),
        }
    }
}

proof fn products_shrink(a: int, b: int, c: int, x: int, y: int, z: int)
    requires
        0 <= x <= a,
        0 <= y <= b,
        0 <= z <= c,
        a * b * c <= u32::MAX,
        1 <= c,
        1 <= a,
        1 <= b,
    ensures
        0 <= x * y * z <= a * b * c,
        0 <= x * y <= a * b <= a * b * c,
{
    assert(x * y <= a * b && 0 <= x * y) by (nonlinear_arith)
        requires
            0 <= x <= a,
            0 <= y <= b,
    ;
    assert((x * y) * z <= (a * b) * c && 0 <= (x * y) * z && a * b <= (a * b) * c) by (nonlinear_arith)
        requires
            0 <= x * y <= a * b,
            0 <= z <= c,
            1 <= c,
    ;
}

proof fn smaller_is_countable(level: Plane, kind: Kind)
    requires
        countable(level),
    ensures
        0 <= smaller_count(level, kind) <= u32::MAX,
        smaller(level, kind).0 * smaller(level, kind).1 <= u32::MAX,
        at_least_one(smaller(level, kind).0) * at_least_one(smaller(level, kind).1) * at_least_one(
            smaller(level, kind).2,
        ) <= u32::MAX,
{
    let (width, height, depth) = smaller(level, kind);
    products_shrink(
        at_least_one(level.width),
        at_least_one(level.height),
        at_least_one(level.depth),
        width as int,
        height as int,
        depth as int,
    );
    products_shrink(
        at_least_one(level.width),
        at_least_one(level.height),
        at_least_one(level.depth),
        at_least_one(width),
        at_least_one(height),
        at_least_one(depth),
    );
}

/// The texels of one box.
fn gather_box(level: &Level, kind: Kind, x: u32, y: u32, z: u32) -> (texels: Vec<Texel>)
    ensures
        texels@ == boxed(level@, kind, x as int, y as int, z as int, corners(kind)),
{
    let count: u32 = if kind == Kind::Dim3 {
        8
    } else {
        4
    };
    let mut texels: Vec<Texel> = Vec::new();
    let mut corner: u32 = 0;
    while corner < count
        invariant
            corner <= count <= 8,
            count == corners(kind),
            texels@ == boxed(level@, kind, x as int, y as int, z as int, corner as nat),
        decreases count - corner,
    {
        let sx: u64 = 2 * x as u64 + (corner % 2) as u64;
        let sy: u64 = 2 * y as u64 + ((corner / 2) % 2) as u64;
        let sz: u64 = if kind == Kind::Dim3 {
            2 * z as u64 + (corner / 4) as u64
        } else {
            z as u64
        };
        assert((sx as int, sy as int, sz as int) == corner_of(
            kind,
            x as int,
            y as int,
            z as int,
            corner as int,
        ));
        if sx < level.width as u64 && sy < level.height as u64 && sz < level.depth as u64 {
            texels.push(level.at(sx as u32, sy as u32, sz as u32));
        }
        corner = corner + 1;
    }
    texels
}

/// The texels each texel of the level below is the average of.
fn gather_boxes(level: &Level, kind: Kind) -> (groups: Vec<Vec<Texel>>)
    requires
        countable(level@),
    ensures
        lists(groups@) == boxes(level@, kind),
{
    let width: u32 = half(level.width);
    let height: u32 = half(level.height);
    let depth: u32 = if kind == Kind::Dim3 {
        half(level.depth)
    } else {
        level.depth
    };
    proof {
        smaller_is_countable(level@, kind);
        assert(0 <= width * height) by (nonlinear_arith);
    }
    let count: u32 = width * height * depth;
    let mut groups: Vec<Vec<Texel>> = Vec::new();
    let mut index: u32 = 0;
    while index < count
        invariant
            index <= count,
            count == smaller_count(level@, kind),
            (width, height, depth) == smaller(level@, kind),
            width >= 1,
            height >= 1,
            groups@.len() == index,
            lists(groups@) == boxes(level@, kind).take(index as int),
        decreases count - index,
    {
        let row: u32 = index / width;
        let group = gather_box(level, kind, index % width, row % height, row / height);
        let ghost before = groups@;
        groups.push(group);
        assert(lists(groups@) =~= boxes(level@, kind).take(index + 1)) by {
            assert(lists(groups@)[index as int] == averaged(level@, kind, index as int));
            assert forall|i: int| 0 <= i < index implies lists(groups@)[i] == boxes(level@, kind)[i] by {
                assert(lists(before)[i] == boxes(level@, kind).take(index as int)[i]);
            }
        }
        index = index + 1;
    }
    assert(boxes(level@, kind).take(count as int) =~= boxes(level@, kind));
    groups
}

/// How far generating a chain got.
#[derive(Clone, Debug)]
pub enum Generation {
    /// The texels each texel of the next level is the average of.
    Pending(Vec<Vec<Texel>>),
    Finished,
}

fn copy_texels(texels: &Vec<Texel>) -> (copy: Vec<Texel>)
    ensures
        copy@ == texels@,
{
    let mut copy: Vec<Texel> = Vec::new();
    let mut next: usize = 0;
    while next < texels.len()
        invariant
            next <= texels@.len(),
            copy@ == texels@.take(next as int),
        decreases texels@.len() - next,
    {
        copy.push(texels[next]);
        next = next + 1;
        assert(copy@ =~= texels@.take(next as int));
    }
    assert(texels@.take(texels@.len() as int) =~= texels@);
    copy
}

/// Generate the mip chain of a texture from its decoded top level and the averages of the levels so far. Once
/// every level is there the texture is replaced by its chain, and says it is linear and premultiplied. A
/// list of averages that does not fit its level counts as not there yet.
pub fn generate_mips(texture: &mut Texture, decoded: &Vec<Texel>, averages: &[Vec<Texel>]) -> (outcome: Generation)
    requires
        old(texture).levels@.len() > 0 ==> countable(old(texture).levels@[0]@),
        old(texture).levels@.len() > 0 ==> decoded@.len() == old(texture).levels@[0].texels@.len(),
    ensures
        old(texture).levels@.len() == 0 ==> outcome is Finished && *final(texture) == *old(texture),
        old(texture).levels@.len() > 0 ==> {
            let top = Plane { texels: decoded@, ..old(texture).levels@[0]@ };
            match outcome {
                Generation::Pending(groups) => chain(top, old(texture).kind, averages@, 0) == Chain::Waits(
                    lists(groups@),
                ) && *final(texture) == *old(texture),
                Generation::Finished => {
                    &&& chain(top, old(texture).kind, averages@, 0) is Done
                    &&& planes(final(texture).levels@) == seq![top] + chain(
                        top,
                        old(texture).kind,
                        averages@,
                        0,
                    )->Done_0
                    &&& final(texture).transfer == Transfer::Linear
                    &&& final(texture).premultiplied
                    &&& final(texture).id == old(texture).id
                    &&& final(texture).kind == old(texture).kind
                    &&& final(texture).semantics == old(texture).semantics
                },
            }
        },
{
    if texture.levels.len() == 0 {
        return Generation::Finished;
    }
    let kind = texture.kind;
    let ghost top = Plane { texels: decoded@, ..texture.levels@[0]@ };
    let ghost whole = chain(top, kind, averages@, 0);
    let mut levels: Vec<Level> = Vec::new();
    levels.push(
        Level {
            width: texture.levels[0].width,
            height: texture.levels[0].height,
            depth: texture.levels[0].depth,
            texels: copy_texels(decoded),
        },
    );
    assert(planes(levels@) =~= seq![top]);
    let mut next: usize = 0;
    loop
        invariant
            levels@.len() == next + 1,
            next <= averages@.len(),
            *texture == *old(texture),
            texture.levels@.len() > 0,
            kind == texture.kind,
            top == (Plane { texels: decoded@, ..texture.levels@[0]@ }),
            whole == chain(top, kind, averages@, 0),
            planes(levels@)[0] == top,
            countable(levels@[next as int]@),
            match chain(levels@[next as int]@, kind, averages@, next as nat) {
                Chain::Waits(groups) => whole == Chain::Waits(groups),
                Chain::Done(rest) => whole is Done && seq![top] + whole->Done_0 == planes(levels@) + rest,
            },
        decreases averages@.len() - next,
    {
        let source = &levels[next];
        let (width, height): (u32, u32) = (half(source.width), half(source.height));
        let depth: u32 = if kind == Kind::Dim3 {
            half(source.depth)
        } else {
            source.depth
        };
        let more = source.width > 1 || source.height > 1 || (kind == Kind::Dim3 && source.depth > 1);
        if !more {
            assert(planes(levels@) + Seq::<Plane>::empty() =~= planes(levels@));
            texture.levels = levels;
            texture.transfer = Transfer::Linear;
            texture.premultiplied = true;
            return Generation::Finished;
        }
        proof {
            smaller_is_countable(source@, kind);
            assert(0 <= width * height) by (nonlinear_arith);
        }
        let count: u32 = width * height * depth;
        if next >= averages.len() || averages[next].len() != count as usize {
            return Generation::Pending(gather_boxes(source, kind));
        }
        let ghost before = levels@;
        let ghost current = source@;
        let level = Level { width, height, depth, texels: copy_texels(&averages[next]) };
        let ghost made = level@;
        levels.push(level);
        proof {
            assert(made == (Plane { width, height, depth, texels: averages@[next as int]@ }));
            assert(planes(levels@) =~= planes(before).push(made));
            match chain(made, kind, averages@, (next + 1) as nat) {
                Chain::Waits(_) => {},
                Chain::Done(rest) => {
                    assert(planes(before) + (seq![made] + rest) =~= planes(levels@) + rest);
                },
            }
        }
        next = next + 1;
    }
}

// ---------------------------------------------------------------------------------------------
// Laws of a chain.
// ---------------------------------------------------------------------------------------------
/// The extents of a finished chain's last level: nothing is left to halve.
pub proof fn a_chain_ends_where_nothing_halves(
    level: Plane,
    kind: Kind,
    averages: Seq<Vec<Texel>>,
    from: nat,
)
    requires
        chain(level, kind, averages, from) is Done,
    ensures
        ({
            let rest = chain(level, kind, averages, from)->Done_0;
            !has_smaller((seq![level] + rest).last(), kind)
        }),
    decreases
            at_least_one(level.width) + at_least_one(level.height) + (if kind == Kind::Dim3 {
                at_least_one(level.depth)
            } else {
                0
            }),
{
    if has_smaller(level, kind) {
        let (width, height, depth) = smaller(level, kind);
        let next = Plane { width, height, depth, texels: averages[from as int]@ };
        a_chain_ends_where_nothing_halves(next, kind, averages, from + 1);
        let below = chain(next, kind, averages, from + 1)->Done_0;
        assert((seq![level] + (seq![next] + below)).last() == (seq![next] + below).last());
    }
}

/// Every level of a chain is half of the one above it, rounded down and at least one.
pub proof fn each_level_halves_the_one_above(
    level: Plane,
    kind: Kind,
    averages: Seq<Vec<Texel>>,
    from: nat,
    i: int,
)
    requires
        chain(level, kind, averages, from) is Done,
        0 <= i < chain(level, kind, averages, from)->Done_0.len(),
    ensures
        ({
            let all = seq![level] + chain(level, kind, averages, from)->Done_0;
            (all[i + 1].width, all[i + 1].height, all[i + 1].depth) == smaller(all[i], kind)
        }),
    decreases i,
{
    let (width, height, depth) = smaller(level, kind);
    let next = Plane { width, height, depth, texels: averages[from as int]@ };
    let below = chain(next, kind, averages, from + 1)->Done_0;
    let all = seq![level] + chain(level, kind, averages, from)->Done_0;
    assert(all =~= seq![level] + (seq![next] + below));
    if i > 0 {
        each_level_halves_the_one_above(next, kind, averages, from + 1, i - 1);
        assert(all[i] == (seq![next] + below)[i - 1]);
        assert(all[i + 1] == (seq![next] + below)[i]);
    }
}

/// No texel is averaged into two texels of the level below.
pub proof fn boxes_do_not_overlap(
    kind: Kind,
    x: int,
    y: int,
    z: int,
    corner: int,
    u: int,
    v: int,
    w: int,
    other: int,
)
    requires
        0 <= corner < corners(kind),
        0 <= other < corners(kind),
        corner_of(kind, x, y, z, corner) == corner_of(kind, u, v, w, other),
    ensures
        x == u,
        y == v,
        z == w,
        corner == other,
{
}

/// A level below is half as wide and half as high, rounded down and one at least, and half as deep in a volume alone.
pub proof fn a_level_below_is_half(level: Plane, kind: Kind)
    ensures
        ({
            let (width, height, depth) = smaller(level, kind);
            let halves = |small: u32, large: u32| large >= 2 ==> 2 * small <= large < 2 * small + 2;
            &&& halves(width, level.width) && (level.width < 2 ==> width == 1)
            &&& halves(height, level.height) && (level.height < 2 ==> height == 1)
            &&& kind is Dim3 ==> halves(depth, level.depth) && (level.depth < 2 ==> depth == 1)
            &&& !(kind is Dim3) ==> depth == level.depth
        }),
        has_smaller(level, kind) <==> level.width > 1 || level.height > 1 || kind is Dim3 && level.depth > 1,
{
}

/// Whether a texel of a level is averaged into one of the level below: half of its coordinates, rounded down, are that
/// one's, and where the level is no volume its layer is the same.
pub open spec fn falls_into(kind: Kind, u: int, v: int, w: int, x: int, y: int, z: int) -> bool {
    u / 2 == x && v / 2 == y && if kind is Dim3 {
        w / 2 == z
    } else {
        w == z
    }
}

/// Whether a texel is one of a level that is averaged into one of the level below.
pub open spec fn is_averaged_into(level: Plane, kind: Kind, x: int, y: int, z: int, texel: Texel) -> bool {
    exists|u: u32, v: u32, w: u32|
        u < level.width && v < level.height && w < level.depth && falls_into(
            kind,
            u as int,
            v as int,
            w as int,
            x,
            y,
            z,
        ) && #[trigger] level.texel(u, v, w) == texel
}

proof fn a_box_holds_what_falls_into_it(level: Plane, kind: Kind, x: int, y: int, z: int, upto: nat)
    requires
        upto <= corners(kind),
        0 <= x && 0 <= y && 0 <= z,
    ensures
        forall|i: int|
            0 <= i < boxed(level, kind, x, y, z, upto).len() ==> is_averaged_into(
                level,
                kind,
                x,
                y,
                z,
                #[trigger] boxed(level, kind, x, y, z, upto)[i],
            ),
        boxed(level, kind, x, y, z, upto).len() <= upto,
    decreases upto,
{
    if upto > 0 {
        a_box_holds_what_falls_into_it(level, kind, x, y, z, (upto - 1) as nat);
        let before = boxed(level, kind, x, y, z, (upto - 1) as nat);
        let list = boxed(level, kind, x, y, z, upto);
        let (sx, sy, sz) = corner_of(kind, x, y, z, upto - 1);
        assert forall|i: int| 0 <= i < list.len() implies is_averaged_into(level, kind, x, y, z, #[trigger] list[i]) by {
            if i < before.len() {
                assert(list[i] == before[i]);
            } else {
                assert(level.texel(sx as u32, sy as u32, sz as u32) == list[i]);
                assert(falls_into(kind, sx, sy, sz, x, y, z));
            }
        }
    }
}

proof fn a_texel_is_in_its_box(level: Plane, kind: Kind, x: int, y: int, z: int, upto: nat, corner: int)
    requires
        0 <= corner < upto <= corners(kind),
        ({
            let (u, v, w) = corner_of(kind, x, y, z, corner);
            u < level.width && v < level.height && w < level.depth
        }),
    ensures
        ({
            let (u, v, w) = corner_of(kind, x, y, z, corner);
            boxed(level, kind, x, y, z, upto).contains(level.texel(u as u32, v as u32, w as u32))
        }),
    decreases upto,
{
    let (u, v, w) = corner_of(kind, x, y, z, corner);
    let before = boxed(level, kind, x, y, z, (upto - 1) as nat);
    let list = boxed(level, kind, x, y, z, upto);
    let texel = level.texel(u as u32, v as u32, w as u32);
    if corner < upto - 1 {
        a_texel_is_in_its_box(level, kind, x, y, z, (upto - 1) as nat, corner);
        let i = choose|i: int| 0 <= i < before.len() && before[i] == texel;
        assert(list[i] == texel);
    } else {
        assert(list[before.len() as int] == texel);
    }
}

/// A texel of the level below is the average of the texels that fall into it, those that are there and no others; the
/// texels of the level below are counted row by row and slice by slice.
pub proof fn a_texel_is_the_average_of_its_own(
    level: Plane,
    kind: Kind,
    x: int,
    y: int,
    z: int,
    u: u32,
    v: u32,
    w: u32,
)
    requires
        0 <= x < smaller(level, kind).0,
        0 <= y < smaller(level, kind).1,
        0 <= z < smaller(level, kind).2,
        u < level.width && v < level.height && w < level.depth,
        falls_into(kind, u as int, v as int, w as int, x, y, z),
    ensures
        ({
            let (width, height, _) = smaller(level, kind);
            let list = averaged(level, kind, (z * height + y) * width + x);
            &&& list.contains(level.texel(u, v, w))
            &&& list.len() <= if kind is Dim3 {
                8int
            } else {
                4
            }
            &&& forall|i: int|
                0 <= i < list.len() ==> is_averaged_into(level, kind, x, y, z, #[trigger] list[i])
        }),
{
    let (width, height, _) = smaller(level, kind);
    let (width, height) = (width as int, height as int);
    let row = z * height + y;
    let index = row * width + x;
    vstd::arithmetic::div_mod::lemma_fundamental_div_mod_converse(index, width, row, x);
    vstd::arithmetic::div_mod::lemma_fundamental_div_mod_converse(row, height, z, y);
    a_box_holds_what_falls_into_it(level, kind, x, y, z, corners(kind));
    let corner = u as int % 2 + 2 * (v as int % 2) + if kind is Dim3 {
        4 * (w as int % 2)
    } else {
        0
    };
    assert(corner_of(kind, x, y, z, corner) == (u as int, v as int, w as int));
    a_texel_is_in_its_box(level, kind, x, y, z, corners(kind), corner);
}

} // verus!
