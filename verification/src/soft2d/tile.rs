//! Tiles, and which commands each tile has to replay.
use super::geom::{capped_sum, floored_difference, saturating_difference, saturating_sum, Extent2D, PixelRect};
use crate::grid::{cell, cell_is_stored, cells_are_apart};
use vstd::prelude::*;

verus! {

/// How wide and tall a tile is.
pub const TILE_SIZE: u32 = 64;

/// `extent / size`, rounded up.
pub open spec fn rounded_up(extent: u32, size: u32) -> int {
    (extent as int + size as int - 1) / size as int
}

/// The tiles of a target, row by row.
#[derive(Clone, Copy, PartialEq, Eq, Structural, Debug)]
pub struct Tiling {
    pub extent: Extent2D,
    pub size: u32,
    pub columns: u32,
    pub rows: u32,
}

impl Tiling {
    /// Whether the tiles are those of the extent.
    pub open spec fn wf(self) -> bool {
        self.size >= 1 && self.columns == rounded_up(self.extent.width, self.size) && self.rows
            == rounded_up(self.extent.height, self.size)
    }

    /// The tiling of an extent. A size of none counts as one.
    pub fn new(extent: Extent2D, size: u32) -> (made: Tiling)
        ensures
            made.wf(),
            made.extent == extent,
            made.size == (if size < 1 {
                1
            } else {
                size
            }),
    {
        let size: u32 = if size < 1 {
            1
        } else {
            size
        };
        Tiling {
            extent,
            size,
            columns: divide_up(extent.width, size),
            rows: divide_up(extent.height, size),
        }
    }

    /// How many tiles there are.
    pub open spec fn tiles(self) -> int {
        self.columns * self.rows
    }

    /// How many tiles there are.
    pub fn count(&self) -> (tiles: usize)
        requires
            self.tiles() <= usize::MAX,
        ensures
            tiles == self.tiles(),
    {
        assert(self.columns * self.rows >= 0) by (nonlinear_arith);
        self.columns as usize * self.rows as usize
    }

    /// The pixels of the tile at a column and a row, held to the extent.
    pub open spec fn pixels(self, column: int, row: int) -> PixelRect {
        let (x, y) = (column * self.size, row * self.size);
        PixelRect {
            x: x as u32,
            y: y as u32,
            width: if self.size < self.extent.width - x {
                self.size
            } else {
                (self.extent.width - x) as u32
            },
            height: if self.size < self.extent.height - y {
                self.size
            } else {
                (self.extent.height - y) as u32
            },
        }
    }

    /// The pixels of a tile.
    pub fn tile(&self, index: usize) -> (area: PixelRect)
        requires
            self.wf(),
            index < self.tiles(),
        ensures
            area == self.pixels(
                index as int % self.columns as int,
                index as int / self.columns as int,
            ),
    {
        proof {
            if self.columns == 0 {
                assert(self.columns * self.rows == 0) by (nonlinear_arith)
                    requires
                        self.columns == 0,
                ;
            }
            crate::grid::every_index_is_a_cell(index as int, self.columns as int, self.rows as int);
            a_tile_starts_inside(self.extent.width, self.size, index as int % self.columns as int);
            a_tile_starts_inside(self.extent.height, self.size, index as int / self.columns as int);
        }
        let column: u32 = (index % self.columns as usize) as u32;
        let row: u32 = (index / self.columns as usize) as u32;
        let x: u32 = column * self.size;
        let y: u32 = row * self.size;
        let (across, down): (u32, u32) = (self.extent.width - x, self.extent.height - y);
        PixelRect {
            x,
            y,
            width: if self.size < across {
                self.size
            } else {
                across
            },
            height: if self.size < down {
                self.size
            } else {
                down
            },
        }
    }

    /// The first and last columns and rows of tiles a rectangle touches.
    pub open spec fn span(self, bounds: PixelRect) -> (int, int, int, int) {
        if bounds.empty() {
            (0, 0, 0, 0)
        } else {
            let last_column = floored_difference(capped_sum(bounds.x, bounds.width), 1) / self.size;
            let last_row = floored_difference(capped_sum(bounds.y, bounds.height), 1) / self.size;
            let (across, down) = (floored_difference(self.columns, 1), floored_difference(self.rows, 1));
            (
                (bounds.x / self.size) as int,
                (bounds.y / self.size) as int,
                if last_column < across {
                    last_column as int
                } else {
                    across as int
                },
                if last_row < down {
                    last_row as int
                } else {
                    down as int
                },
            )
        }
    }

    /// The first and last columns and rows of tiles a rectangle touches.
    pub fn range(&self, bounds: PixelRect) -> (span: (u32, u32, u32, u32))
        requires
            self.size >= 1,
        ensures
            self.span(bounds) == (span.0 as int, span.1 as int, span.2 as int, span.3 as int),
    {
        if bounds.is_empty() {
            return (0, 0, 0, 0);
        }
        let last_column: u32 = saturating_difference(saturating_sum(bounds.x, bounds.width), 1) / self.size;
        let last_row: u32 = saturating_difference(saturating_sum(bounds.y, bounds.height), 1) / self.size;
        let (across, down): (u32, u32) = (
            saturating_difference(self.columns, 1),
            saturating_difference(self.rows, 1),
        );
        (
            bounds.x / self.size,
            bounds.y / self.size,
            if last_column < across {
                last_column
            } else {
                across
            },
            if last_row < down {
                last_row
            } else {
                down
            },
        )
    }

    /// Whether a rectangle's span has a tile.
    pub open spec fn touches(self, bounds: PixelRect, column: int, row: int) -> bool {
        let (first_column, first_row, last_column, last_row) = self.span(bounds);
        !bounds.empty() && first_column <= column <= last_column && first_row <= row <= last_row
    }
}

fn divide_up(extent: u32, size: u32) -> (count: u32)
    requires
        size >= 1,
    ensures
        count == rounded_up(extent, size),
{
    let whole: u32 = extent / size;
    let rest: u32 = extent % size;
    proof {
        vstd::arithmetic::div_mod::lemma_fundamental_div_mod(extent as int, size as int);
        let (e, s, w, r) = (extent as int, size as int, whole as int, rest as int);
        if r == 0 {
            assert(e + s - 1 == w * s + (s - 1)) by (nonlinear_arith)
                requires
                    e == s * w + r,
                    r == 0,
            ;
            vstd::arithmetic::div_mod::lemma_fundamental_div_mod_converse(e + s - 1, s, w, s - 1);
        } else {
            assert(e + s - 1 == (w + 1) * s + (r - 1)) by (nonlinear_arith)
                requires
                    e == s * w + r,
            ;
            vstd::arithmetic::div_mod::lemma_fundamental_div_mod_converse(e + s - 1, s, w + 1, r - 1);
            assert(w < e) by (nonlinear_arith)
                requires
                    e == s * w + r,
                    r > 0,
                    s >= 1,
                    w >= 0,
            ;
        }
    }
    if rest == 0 {
        whole
    } else {
        whole + 1
    }
}

/// Every column and row of tiles starts inside the extent.
pub proof fn a_tile_starts_inside(extent: u32, size: u32, tile: int)
    requires
        size >= 1,
        0 <= tile < rounded_up(extent, size),
    ensures
        0 <= tile * size < extent,
{
    let (e, s) = (extent as int, size as int);
    vstd::arithmetic::div_mod::lemma_fundamental_div_mod(e + s - 1, s);
    let (q, r) = ((e + s - 1) / s, (e + s - 1) % s);
    assert(0 <= tile * s && tile * s < e) by (nonlinear_arith)
        requires
            e + s - 1 == s * q + r,
            0 <= r < s,
            0 <= tile < q,
            s >= 1,
    ;
}

/// Which of the first `count` commands a tile replays: those that draw into it, and every one that has no
/// bounds, since a change of state is a change of state everywhere.
pub open spec fn replayed(
    tiling: Tiling,
    bounds: Seq<Option<PixelRect>>,
    column: int,
    row: int,
    count: nat,
) -> Seq<u32>
    decreases count,
{
    if count == 0 {
        Seq::empty()
    } else {
        let before = replayed(tiling, bounds, column, row, (count - 1) as nat);
        let present = match bounds[count - 1] {
            None => true,
            Some(bound) => tiling.touches(bound, column, row),
        };
        if present {
            before.push((count - 1) as u32)
        } else {
            before
        }
    }
}

/// Which commands each tile has to replay.
#[derive(Debug)]
pub struct Bins {
    pub lists: Vec<Vec<u32>>,
}

impl Bins {
    /// The commands of a tile.
    pub open spec fn list(self, index: int) -> Seq<u32> {
        if 0 <= index < self.lists@.len() {
            self.lists@[index]@
        } else {
            Seq::empty()
        }
    }

    /// The bins of a list of commands, by the bounds of each.
    pub fn build(tiling: &Tiling, bounds: &[Option<PixelRect>]) -> (made: Bins)
        requires
            tiling.wf(),
            tiling.tiles() <= usize::MAX,
            bounds@.len() <= u32::MAX,
        ensures
            made.lists@.len() == tiling.tiles(),
            forall|column: int, row: int|
                0 <= column < tiling.columns && 0 <= row < tiling.rows ==> made.list(
                    #[trigger] cell(column, row, tiling.columns as int),
                ) == replayed(*tiling, bounds@, column, row, bounds@.len()),
    {
        let count: usize = tiling.count();
        let mut lists: Vec<Vec<u32>> = Vec::new();
        while lists.len() < count
            invariant
                lists@.len() <= count,
                forall|i: int| 0 <= i < lists@.len() ==> (#[trigger] lists@[i])@.len() == 0,
            decreases count - lists@.len(),
        {
            lists.push(Vec::new());
        }
        let mut made = Bins { lists };
        let mut index: usize = 0;
        assert forall|column: int, row: int|
            0 <= column < tiling.columns && 0 <= row < tiling.rows implies made.list(
            #[trigger] cell(column, row, tiling.columns as int),
        ) == replayed(*tiling, bounds@, column, row, 0) by {
            cell_is_stored(column, row, tiling.columns as int, tiling.rows as int);
            assert(made.list(cell(column, row, tiling.columns as int)) =~= Seq::<u32>::empty());
        }
        while index < bounds.len()
            invariant
                index <= bounds@.len() <= u32::MAX,
                tiling.wf(),
                count == tiling.tiles(),
                made.lists@.len() == count,
                forall|column: int, row: int|
                    0 <= column < tiling.columns && 0 <= row < tiling.rows ==> made.list(
                        #[trigger] cell(column, row, tiling.columns as int),
                    ) == replayed(*tiling, bounds@, column, row, index as nat),
            decreases bounds@.len() - index,
        {
            match bounds[index] {
                None => made.place_everywhere(index as u32),
                Some(bound) => {
                    made.place(tiling, bound, index as u32);
                },
            }
            assert forall|column: int, row: int|
                0 <= column < tiling.columns && 0 <= row < tiling.rows implies made.list(
                #[trigger] cell(column, row, tiling.columns as int),
            ) == replayed(*tiling, bounds@, column, row, (index + 1) as nat) by {
                cell_is_stored(column, row, tiling.columns as int, tiling.rows as int);
            }
            index = index + 1;
        }
        made
    }

    /// A command every tile replays.
    fn place_everywhere(&mut self, command: u32)
        ensures
            final(self).lists@.len() == old(self).lists@.len(),
            forall|i: int|
                0 <= i < old(self).lists@.len() ==> #[trigger] final(self).list(i) == old(self).list(
                    i,
                ).push(command),
    {
        let mut next: usize = 0;
        while next < self.lists.len()
            invariant
                next <= self.lists@.len(),
                self.lists@.len() == old(self).lists@.len(),
                forall|i: int| 0 <= i < next ==> #[trigger] self.list(i) == old(self).list(i).push(command),
                forall|i: int| next <= i < self.lists@.len() ==> #[trigger] self.list(i) == old(self).list(i),
            decreases self.lists@.len() - next,
        {
            let ghost before = *self;
            assert(self.list(next as int) == old(self).list(next as int));
            self.lists[next].push(command);
            assert forall|i: int| 0 <= i < self.lists@.len() && i != next implies #[trigger] self.list(i)
                == before.list(i) by {}
            next = next + 1;
        }
    }

    /// A command the tiles its bounds touch replay.
    fn place(&mut self, tiling: &Tiling, bound: PixelRect, command: u32)
        requires
            tiling.wf(),
            old(self).lists@.len() == tiling.tiles(),
        ensures
            final(self).lists@.len() == old(self).lists@.len(),
            forall|column: int, row: int|
                0 <= column < tiling.columns && 0 <= row < tiling.rows ==> final(self).list(
                    #[trigger] cell(column, row, tiling.columns as int),
                ) == if tiling.touches(bound, column, row) {
                    old(self).list(cell(column, row, tiling.columns as int)).push(command)
                } else {
                    old(self).list(cell(column, row, tiling.columns as int))
                },
    {
        if bound.is_empty() || tiling.columns == 0 || tiling.rows == 0 {
            return;
        }
        let (first_column, first_row, last_column, last_row): (u32, u32, u32, u32) = tiling.range(bound);
        let across: u32 = tiling.columns;
        let mut row: u32 = first_row;
        while row <= last_row
            invariant
                across == tiling.columns,
                last_column < across,
                last_row < tiling.rows,
                first_row <= row,
                row <= last_row + 1 || row == first_row,
                tiling.wf(),
                self.lists@.len() == old(self).lists@.len() == tiling.tiles(),
                forall|u: int, v: int|
                    0 <= u < across && 0 <= v < tiling.rows ==> self.list(
                        #[trigger] cell(u, v, across as int),
                    ) == if first_column <= u <= last_column && first_row <= v < row {
                        old(self).list(cell(u, v, across as int)).push(command)
                    } else {
                        old(self).list(cell(u, v, across as int))
                    },
            decreases last_row + 1 - row,
        {
            let mut column: u32 = first_column;
            while column <= last_column
                invariant
                    across == tiling.columns,
                    last_column < across,
                    last_row < tiling.rows,
                    first_row <= row <= last_row,
                    first_column <= column,
                    column <= last_column + 1 || column == first_column,
                    tiling.wf(),
                    self.lists@.len() == old(self).lists@.len() == tiling.tiles(),
                    forall|u: int, v: int|
                        0 <= u < across && 0 <= v < tiling.rows ==> self.list(
                            #[trigger] cell(u, v, across as int),
                        ) == if first_column <= u <= last_column && (first_row <= v < row || (v == row && u
                            < column)) {
                            old(self).list(cell(u, v, across as int)).push(command)
                        } else {
                            old(self).list(cell(u, v, across as int))
                        },
                decreases last_column + 1 - column,
            {
                proof {
                    cell_is_stored(column as int, row as int, across as int, tiling.rows as int);
                    assert(cell(column as int, row as int, across as int) == row * across + column);
                    let count = self.lists.len();
                }
                let count: usize = self.lists.len();
                let slot: usize = row as usize * across as usize + column as usize;
                let ghost before = *self;
                self.lists[slot].push(command);
                assert forall|u: int, v: int| 0 <= u < across && 0 <= v < tiling.rows implies self.list(
                    #[trigger] cell(u, v, across as int),
                ) == if first_column <= u <= last_column && (first_row <= v < row || (v == row && u < column
                    + 1)) {
                    old(self).list(cell(u, v, across as int)).push(command)
                } else {
                    old(self).list(cell(u, v, across as int))
                } by {
                    cell_is_stored(u, v, across as int, tiling.rows as int);
                    if cell(u, v, across as int) == slot {
                        cells_are_apart(u, v, column as int, row as int, across as int);
                    } else {
                        assert(self.list(cell(u, v, across as int)) == before.list(
                            cell(u, v, across as int),
                        ));
                    }
                }
                column = column + 1;
            }
            row = row + 1;
        }
    }

    /// The commands of a tile; none for a tile there is not.
    pub fn commands(&self, tile: usize) -> (list: &[u32])
        ensures
            list@ == self.list(tile as int),
    {
        if tile < self.lists.len() {
            self.lists[tile].as_slice()
        } else {
            let none: &[u32] = &[];
            assert(none@ =~= Seq::<u32>::empty());
            none
        }
    }
}

// ---------------------------------------------------------------------------------------------
// Laws of the tiling.
// ---------------------------------------------------------------------------------------------
/// Every pixel of the extent is in the tile its coordinates name.
pub proof fn a_pixel_is_in_its_tile(tiling: Tiling, x: int, y: int)
    requires
        tiling.wf(),
        0 <= x < tiling.extent.width,
        0 <= y < tiling.extent.height,
    ensures
        0 <= x / (tiling.size as int) < tiling.columns,
        0 <= y / (tiling.size as int) < tiling.rows,
        tiling.pixels(x / (tiling.size as int), y / (tiling.size as int)).has(x, y),
{
    a_coordinate_has_a_tile(tiling.extent.width, tiling.size, x);
    a_coordinate_has_a_tile(tiling.extent.height, tiling.size, y);
}

proof fn a_coordinate_has_a_tile(extent: u32, size: u32, at: int)
    requires
        size >= 1,
        0 <= at < extent,
    ensures
        0 <= at / (size as int) < rounded_up(extent, size),
        0 <= (at / (size as int)) * size <= at < (at / (size as int)) * size + size,
        (at / (size as int)) * size < extent,
{
    let (e, s) = (extent as int, size as int);
    vstd::arithmetic::div_mod::lemma_fundamental_div_mod(at, s);
    vstd::arithmetic::div_mod::lemma_fundamental_div_mod(e + s - 1, s);
    let (q, r) = (at / s, at % s);
    let (n, m) = ((e + s - 1) / s, (e + s - 1) % s);
    assert(q * s == s * q) by (nonlinear_arith);
    assert(0 <= q < n && 0 <= q * s) by (nonlinear_arith)
        requires
            at == s * q + r,
            0 <= r < s,
            0 <= at < e,
            e + s - 1 == s * n + m,
            0 <= m < s,
            s >= 1,
    ;
}

/// A command that can touch a pixel is replayed by the pixel's tile.
pub proof fn a_touched_tile_replays(tiling: Tiling, bound: PixelRect, x: int, y: int)
    requires
        tiling.wf(),
        0 <= x < tiling.extent.width,
        0 <= y < tiling.extent.height,
        bound.has(x, y),
    ensures
        tiling.touches(bound, x / (tiling.size as int), y / (tiling.size as int)),
{
    a_pixel_is_in_its_tile(tiling, x, y);
    let last_x = floored_difference(capped_sum(bound.x, bound.width), 1);
    let last_y = floored_difference(capped_sum(bound.y, bound.height), 1);
    let s = tiling.size as int;
    assert(bound.x <= x <= last_x && bound.y <= y <= last_y);
    vstd::arithmetic::div_mod::lemma_div_is_ordered(bound.x as int, x, s);
    vstd::arithmetic::div_mod::lemma_div_is_ordered(x, last_x as int, s);
    vstd::arithmetic::div_mod::lemma_div_is_ordered(bound.y as int, y, s);
    vstd::arithmetic::div_mod::lemma_div_is_ordered(y, last_y as int, s);
}

/// A pixel of a tile is in no other: its column and its row of tiles are its coordinates over the size, rounded down.
pub proof fn a_tile_has_its_own_pixels(tiling: Tiling, column: int, row: int, x: int, y: int)
    requires
        tiling.wf(),
        0 <= column < tiling.columns,
        0 <= row < tiling.rows,
    ensures
        tiling.pixels(column, row).has(x, y) <==> 0 <= x < tiling.extent.width && 0 <= y < tiling.extent.height && x / (
        tiling.size as int) == column && y / (tiling.size as int) == row,
{
    let s = tiling.size as int;
    a_tile_starts_inside(tiling.extent.width, tiling.size, column);
    a_tile_starts_inside(tiling.extent.height, tiling.size, row);
    if tiling.pixels(column, row).has(x, y) {
        vstd::arithmetic::div_mod::lemma_fundamental_div_mod_converse(x, s, column, x - column * s);
        vstd::arithmetic::div_mod::lemma_fundamental_div_mod_converse(y, s, row, y - row * s);
    }
    if 0 <= x && x / s == column {
        vstd::arithmetic::div_mod::lemma_fundamental_div_mod(x, s);
        assert(s * column == column * s) by (nonlinear_arith);
    }
    if 0 <= y && y / s == row {
        vstd::arithmetic::div_mod::lemma_fundamental_div_mod(y, s);
        assert(s * row == row * s) by (nonlinear_arith);
    }
}

/// A tile a rectangle touches has a pixel of it, or would have one were it not cut off by the target's edge.
pub proof fn a_touched_tile_shares_a_pixel(tiling: Tiling, bounds: PixelRect, column: int, row: int) -> (at: (int, int))
    requires
        tiling.wf(),
        bounds.x + bounds.width <= u32::MAX,
        bounds.y + bounds.height <= u32::MAX,
        tiling.touches(bounds, column, row),
    ensures
        bounds.has(at.0, at.1),
        at.0 / (tiling.size as int) == column,
        at.1 / (tiling.size as int) == row,
{
    let s = tiling.size as int;
    (
        a_touched_line_shares_a_pixel(bounds.x as int, bounds.x + bounds.width, column, s),
        a_touched_line_shares_a_pixel(bounds.y as int, bounds.y + bounds.height, row, s),
    )
}

proof fn a_touched_line_shares_a_pixel(low: int, high: int, tile: int, size: int) -> (at: int)
    requires
        0 <= low < high,
        size >= 1,
        low / size <= tile <= (high - 1) / size,
    ensures
        low <= at < high,
        at / size == tile,
{
    vstd::arithmetic::div_mod::lemma_fundamental_div_mod(low, size);
    vstd::arithmetic::div_mod::lemma_fundamental_div_mod(high - 1, size);
    let (q, r) = ((high - 1) / size, (high - 1) % size);
    if low / size == tile {
        low
    } else {
        let at = tile * size;
        vstd::arithmetic::div_mod::lemma_fundamental_div_mod_converse(at, size, tile, 0);
        let (p, o) = (low / size, low % size);
        assert(low <= at) by (nonlinear_arith)
            requires
                low == size * p + o,
                0 <= o < size,
                p + 1 <= tile,
                at == tile * size,
        ;
        assert(at <= high - 1) by (nonlinear_arith)
            requires
                high - 1 == size * q + r,
                0 <= r,
                tile <= q,
                at == tile * size,
                size >= 1,
        ;
        at
    }
}

/// A tile's list is the commands that touch it and those without bounds, each once and in the order of the drawing.
pub proof fn a_tile_lists_its_commands_in_order(
    tiling: Tiling,
    bounds: Seq<Option<PixelRect>>,
    column: int,
    row: int,
    count: nat,
    k: int,
)
    requires
        count <= bounds.len() <= u32::MAX,
        0 <= k < count,
    ensures
        replayed(tiling, bounds, column, row, count).contains(k as u32) <==> (bounds[k] matches Some(bound)
            ==> tiling.touches(bound, column, row)),
        forall|i: int, j: int|
            0 <= i < j < replayed(tiling, bounds, column, row, count).len() ==> #[trigger] replayed(
                tiling,
                bounds,
                column,
                row,
                count,
            )[i] < #[trigger] replayed(tiling, bounds, column, row, count)[j],
    decreases count,
{
    a_list_ascends(tiling, bounds, column, row, count);
    a_list_ascends(tiling, bounds, column, row, (count - 1) as nat);
    let before = replayed(tiling, bounds, column, row, (count - 1) as nat);
    let list = replayed(tiling, bounds, column, row, count);
    if k < count - 1 {
        a_tile_lists_its_commands_in_order(tiling, bounds, column, row, (count - 1) as nat, k);
        if before.contains(k as u32) {
            let i = choose|i: int| 0 <= i < before.len() && before[i] == k as u32;
            assert(list[i] == k as u32);
        }
        if list.contains(k as u32) {
            let i = choose|i: int| 0 <= i < list.len() && list[i] == k as u32;
            if i == before.len() {
                assert(list[i] == (count - 1) as u32);
            }
            assert(before[i] == k as u32);
        }
    } else {
        if list.contains(k as u32) {
            let i = choose|i: int| 0 <= i < list.len() && list[i] == k as u32;
            if i < before.len() {
                assert(before[i] < count - 1);
            }
        }
        if list.len() > before.len() {
            assert(list[before.len() as int] == k as u32);
        }
    }
}

proof fn a_list_ascends(tiling: Tiling, bounds: Seq<Option<PixelRect>>, column: int, row: int, count: nat)
    requires
        count <= bounds.len() <= u32::MAX,
    ensures
        ({
            let list = replayed(tiling, bounds, column, row, count);
            &&& forall|i: int| 0 <= i < list.len() ==> #[trigger] list[i] < count
            &&& forall|i: int, j: int| 0 <= i < j < list.len() ==> #[trigger] list[i] < #[trigger] list[j]
        }),
    decreases count,
{
    if count > 0 {
        a_list_ascends(tiling, bounds, column, row, (count - 1) as nat);
        let before = replayed(tiling, bounds, column, row, (count - 1) as nat);
        let list = replayed(tiling, bounds, column, row, count);
        assert forall|i: int| 0 <= i < list.len() implies #[trigger] list[i] < count by {
            if i < before.len() {
                assert(list[i] == before[i]);
            }
        }
        assert forall|i: int, j: int| 0 <= i < j < list.len() implies #[trigger] list[i] < #[trigger] list[j] by {
            assert(list[i] == before[i]);
            if j < before.len() {
                assert(list[j] == before[j]);
            }
        }
    }
}

} // verus!
