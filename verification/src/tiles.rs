//! Tiles, in which the image is drawn and kept.
//!
//! The image is cut into squares at each level of reduction. Drawn tiles are kept until they take
//! too much memory.
use vstd::prelude::*;

use crate::composite;
use crate::composite::Region;
use crate::document::Document;

verus! {

/// The number of output pixels along the edge of a tile.
pub const TILE_SIZE: usize = 512;

/// How many pixels are drawn around a tile, so that interpolation does not break off at its edge.
pub const PAD: usize = 1;

/// One tile.
#[derive(Clone, Copy, PartialEq, Eq, Hash, Debug, Structural)]
pub struct TileKey {
    pub level: u32,
    pub x: u32,
    pub y: u32,
}

/// `a / b`, rounded up.
pub open spec fn ceil_div(a: int, b: int) -> int {
    (a + b - 1) / b
}

/// A size at a level of reduction.
pub open spec fn reduced(size: u32, level: u32) -> int {
    ceil_div(size as int, composite::scale(level))
}

/// A reduced size is no larger than the size, and positive where the size is.
proof fn reduced_bounds(size: u32, level: u32)
    ensures
        0 <= reduced(size, level) <= size,
        size > 0 ==> reduced(size, level) > 0,
        level >= 32 ==> reduced(size, level) <= 1,
{
    let s = composite::scale(level);
    vstd::arithmetic::power2::lemma_pow2_pos(level as nat);
    assert(0 <= (size + s - 1) / s <= size) by (nonlinear_arith)
        requires
            s > 0,
            size >= 0,
    ;
    assert(size > 0 ==> (size + s - 1) / s > 0) by (nonlinear_arith)
        requires
            s > 0,
            size >= 0,
    ;
    if level >= 32 {
        vstd::arithmetic::power2::lemma2_to64();
        if level > 32 {
            vstd::arithmetic::power2::lemma_pow2_strictly_increases(32, level as nat);
        }
        assert((size + s - 1) / s <= 1) by (nonlinear_arith)
            requires
                s >= 4294967296,
                0 <= size < 4294967296,
        ;
    }
}

/// A size at a level of reduction.
fn reduce(size: u32, level: u32) -> (r: u32)
    ensures
        r == reduced(size, level),
{
    proof {
        reduced_bounds(size, level);
    }
    if level >= 32 {
        if size == 0 {
            0
        } else {
            1
        }
    } else {
        let s: u64 = composite::scale_of(level);
        proof {
            vstd::arithmetic::power2::lemma2_to64();
            vstd::arithmetic::power2::lemma_pow2_strictly_increases(level as nat, 32);
        }
        ((size as u64 + s - 1) / s) as u32
    }
}

/// The size of the image at a level of reduction.
pub fn level_size(doc: &Document, level: u32) -> (r: (usize, usize))
    ensures
        r.0 == reduced(doc.width, level),
        r.1 == reduced(doc.height, level),
{
    (reduce(doc.width, level) as usize, reduce(doc.height, level) as usize)
}

/// How many pixels the tile number `at` takes along an edge of `size` pixels.
pub open spec fn content(size: int, at: u32) -> int {
    let left = size - at * TILE_SIZE;
    if left < 0 {
        0
    } else if left < TILE_SIZE {
        left
    } else {
        TILE_SIZE as int
    }
}

/// How many pixels the tile number `at` takes along an edge of `size` pixels.
fn content_of(size: usize, at: u32) -> (r: usize)
    ensures
        r == content(size as int, at),
{
    assert(at * TILE_SIZE <= 4294967295 * 512) by (nonlinear_arith)
        requires
            0 <= at <= 4294967295,
            TILE_SIZE == 512,
    ;
    let from: u64 = at as u64 * TILE_SIZE as u64;
    if from >= size as u64 {
        0
    } else {
        let left: u64 = size as u64 - from;
        if left < TILE_SIZE as u64 {
            left as usize
        } else {
            TILE_SIZE
        }
    }
}

impl TileKey {
    /// A number that stands for the tile.
    pub open spec fn number(self) -> u128 {
        (self.level * 18446744073709551616 + self.x * 4294967296 + self.y) as u128
    }

    /// A number that stands for the tile.
    pub fn code(&self) -> (r: u128)
        ensures
            r == self.number(),
    {
        self.level as u128 * 18446744073709551616 + self.x as u128 * 4294967296 + self.y as u128
    }

    /// The number of output pixels, without those around the tile.
    pub fn content_size(&self, doc: &Document) -> (r: (usize, usize))
        ensures
            r.0 == content(reduced(doc.width, self.level), self.x),
            r.1 == content(reduced(doc.height, self.level), self.y),
    {
        let (w, h) = level_size(doc, self.level);
        (content_of(w, self.x), content_of(h, self.y))
    }

    /// What is drawn for the tile, with the pixels around it.
    pub open spec fn drawn(self, width: u32, height: u32) -> Region {
        Region {
            level: self.level,
            x: (self.x * TILE_SIZE - PAD) as i64,
            y: (self.y * TILE_SIZE - PAD) as i64,
            width: (content(reduced(width, self.level), self.x) + PAD * 2) as usize,
            height: (content(reduced(height, self.level), self.y) + PAD * 2) as usize,
        }
    }

    /// What is drawn for the tile, with the pixels around it.
    pub fn region(&self, doc: &Document) -> (r: Region)
        ensures
            r == self.drawn(doc.width, doc.height),
    {
        let (w, h) = self.content_size(doc);
        assert(self.x * TILE_SIZE <= 4294967295 * 512 && self.y * TILE_SIZE <= 4294967295 * 512)
            by (nonlinear_arith)
            requires
                0 <= self.x <= 4294967295,
                0 <= self.y <= 4294967295,
                TILE_SIZE == 512,
        ;
        Region {
            level: self.level,
            x: self.x as i64 * TILE_SIZE as i64 - PAD as i64,
            y: self.y as i64 * TILE_SIZE as i64 - PAD as i64,
            width: w + PAD * 2,
            height: h + PAD * 2,
        }
    }
}

/// Whether the whole image fits into one tile.
pub open spec fn fits_one_tile(doc: Document, level: u32) -> bool {
    reduced(doc.width, level) <= TILE_SIZE && reduced(doc.height, level) <= TILE_SIZE
}

/// The first level at which the whole image fits into one tile.
pub fn max_level(doc: &Document) -> (level: u32)
    ensures
        fits_one_tile(*doc, level),
        forall|l: u32| l < level ==> !#[trigger] fits_one_tile(*doc, l),
        level < 32,
{
    let mut level: u32 = 0;
    while level < 31
        invariant
            level <= 31,
            forall|l: u32| l < level ==> !#[trigger] fits_one_tile(*doc, l),
        decreases 31 - level,
    {
        let (w, h) = level_size(doc, level);
        if w <= TILE_SIZE && h <= TILE_SIZE {
            return level;
        }
        level = level + 1;
    }
    proof {
        vstd::arithmetic::power2::lemma2_to64();
    }
    level
}

/// The number of tiles along an edge at a level of reduction.
pub open spec fn tile_count(size: u32, level: u32) -> int {
    ceil_div(reduced(size, level), TILE_SIZE as int)
}

/// The number of tiles along an edge at a level of reduction.
fn count_tiles(size: u32, level: u32) -> (r: u32)
    ensures
        r == tile_count(size, level),
        r <= 8388608,
{
    ((reduce(size, level) as u64 + TILE_SIZE as u64 - 1) / TILE_SIZE as u64) as u32
}

/// Every pixel of the image at a level of reduction lies in exactly one tile of it.
pub proof fn tiles_share_out_the_image(size: u32, level: u32, at: int)
    requires
        0 <= at < reduced(size, level),
    ensures
        ({
            let own = at / TILE_SIZE as int;
            &&& 0 <= own < tile_count(size, level)
            &&& forall|t: u32|
                t * TILE_SIZE <= at < t * TILE_SIZE + #[trigger] content(reduced(size, level), t)
                    <==> t == own
        }),
{
    reduced_bounds(size, level);
}

/// The tiles of a row, from left to right.
pub open spec fn tiles_of_row(level: u32, x0: int, x1: int, y: int) -> Seq<TileKey> {
    Seq::new(
        (x1 - x0) as nat,
        |i: int| TileKey { level, x: (x0 + i) as u32, y: y as u32 },
    )
}

/// The tiles of the rows from `y0` to `y1`, row by row.
pub open spec fn tiles_of_rows(level: u32, x0: int, x1: int, y0: int, y1: int) -> Seq<TileKey>
    decreases y1 - y0,
{
    if y0 >= y1 {
        seq![]
    } else {
        tiles_of_rows(level, x0, x1, y0, y1 - 1) + tiles_of_row(
            level,
            x0,
            if x1 < x0 {
                x0
            } else {
                x1
            },
            y1 - 1,
        )
    }
}

/// `v` moved to the nearest number from 0 to `max`.
fn hold_within(v: i64, max: u32) -> (r: u32)
    ensures
        r == composite::within_size(v as int, max as int),
{
    if v < 0 {
        0
    } else if v > max as i64 {
        max
    } else {
        v as u32
    }
}

/// The tiles at a level of reduction whose column and row lie in the given ranges, row by row. The
/// ranges are held inside the image.
pub fn tiles_in(doc: &Document, level: u32, columns: (i64, i64), rows: (i64, i64)) -> (r: Vec<
    TileKey,
>)
    ensures
        r@ == tiles_of_rows(
            level,
            composite::within_size(columns.0 as int, tile_count(doc.width, level)),
            composite::within_size(columns.1 as int, tile_count(doc.width, level)),
            composite::within_size(rows.0 as int, tile_count(doc.height, level)),
            composite::within_size(rows.1 as int, tile_count(doc.height, level)),
        ),
        forall|k: TileKey| #[trigger]
            r@.contains(k) <==> {
                &&& k.level == level
                &&& columns.0 <= k.x < columns.1
                &&& rows.0 <= k.y < rows.1
                &&& k.x * 512 < reduced(doc.width, level)
                &&& k.y * 512 < reduced(doc.height, level)
            },
        r@.no_duplicates(),
{
    let count_x: u32 = count_tiles(doc.width, level);
    let count_y: u32 = count_tiles(doc.height, level);
    let x0: u32 = hold_within(columns.0, count_x);
    let x1: u32 = hold_within(columns.1, count_x);
    let y0: u32 = hold_within(rows.0, count_y);
    let y1: u32 = hold_within(rows.1, count_y);
    let mut r: Vec<TileKey> = Vec::new();
    let mut y: u32 = y0;
    while y < y1
        invariant
            y0 <= y,
            y <= y1 || y == y0,
            r@ == tiles_of_rows(level, x0 as int, x1 as int, y0 as int, y as int),
        decreases y1 - y,
    {
        let ghost before = r@;
        let ghost end: int = if x1 < x0 {
            x0 as int
        } else {
            x1 as int
        };
        let mut x: u32 = x0;
        while x < x1
            invariant
                x0 <= x,
                x <= x1 || x == x0,
                r@ =~= before + tiles_of_row(level, x0 as int, x as int, y as int),
            decreases x1 - x,
        {
            r.push(TileKey { level, x, y });
            x = x + 1;
        }
        assert(x == end);
        y = y + 1;
    }
    assert(y0 >= y1 ==> tiles_of_rows(level, x0 as int, x1 as int, y0 as int, y1 as int)
        =~= tiles_of_rows(level, x0 as int, x1 as int, y0 as int, y0 as int));
    proof {
        tiles_of_rows_are_those_in_range(level, x0 as int, x1 as int, y0 as int, y1 as int);
        assert forall|k: TileKey| #[trigger] r@.contains(k) <==> {
            &&& k.level == level
            &&& columns.0 <= k.x < columns.1
            &&& rows.0 <= k.y < rows.1
            &&& k.x * 512 < reduced(doc.width, level)
            &&& k.y * 512 < reduced(doc.height, level)
        } by {
            counts_are_of_tiles(doc.width, level, k.x as int);
            counts_are_of_tiles(doc.height, level, k.y as int);
        }
    }
    r
}

/// The tiles of a range are those whose column and row lie in it, each of them once.
pub proof fn tiles_of_rows_are_those_in_range(level: u32, x0: int, x1: int, y0: int, y1: int)
    requires
        0 <= x0,
        x1 <= u32::MAX,
        0 <= y0,
        y1 <= u32::MAX,
    ensures
        forall|k: TileKey| #[trigger]
            tiles_of_rows(level, x0, x1, y0, y1).contains(k) <==> k.level == level && x0 <= k.x < x1
                && y0 <= k.y < y1,
        tiles_of_rows(level, x0, x1, y0, y1).no_duplicates(),
    decreases y1 - y0,
{
    let all = tiles_of_rows(level, x0, x1, y0, y1);
    if y0 < y1 {
        tiles_of_rows_are_those_in_range(level, x0, x1, y0, y1 - 1);
        let before = tiles_of_rows(level, x0, x1, y0, y1 - 1);
        let end = if x1 < x0 {
            x0
        } else {
            x1
        };
        let row = tiles_of_row(level, x0, end, y1 - 1);
        assert forall|k: TileKey| #[trigger] all.contains(k) <==> k.level == level && x0 <= k.x < x1
            && y0 <= k.y < y1 by {
            if all.contains(k) {
                let i = choose|i: int| 0 <= i < all.len() && all[i] == k;
                if i < before.len() {
                    assert(before[i] == k);
                    assert(before.contains(k));
                } else {
                    assert(row[i - before.len()] == k);
                }
            }
            if k.level == level && x0 <= k.x < x1 && y0 <= k.y < y1 {
                if k.y < y1 - 1 {
                    assert(before.contains(k));
                    let i = choose|i: int| 0 <= i < before.len() && before[i] == k;
                    assert(all[i] == k);
                } else {
                    assert(row[k.x - x0] == k);
                    assert(all[before.len() + (k.x - x0)] == k);
                }
            }
        }
        assert forall|i: int, j: int| 0 <= i < all.len() && 0 <= j < all.len() && i != j implies all[i]
            != all[j] by {
            if i < before.len() && j >= before.len() {
                assert(before.contains(before[i]));
                assert(all[j] == row[j - before.len()]);
            }
            if j < before.len() && i >= before.len() {
                assert(before.contains(before[j]));
                assert(all[i] == row[i - before.len()]);
            }
            if i >= before.len() && j >= before.len() {
                assert(all[i] == row[i - before.len()]);
                assert(all[j] == row[j - before.len()]);
            }
        }
    }
}

/// Different tiles have different numbers.
pub proof fn numbers_are_distinct(a: TileKey, b: TileKey)
    requires
        a.number() == b.number(),
    ensures
        a == b,
{
}

/// A reduced size is the number of output pixels that it takes to cover the size, and no more.
pub proof fn reduced_sizes_cover_the_image(size: u32, level: u32)
    ensures
        ({
            let step = vstd::arithmetic::power2::pow2(level as nat) as int;
            let n = reduced(size, level);
            &&& size <= n * step
            &&& n > 0 ==> (n - 1) * step < size
            &&& 0 <= n
            &&& size == 0 ==> n == 0
        }),
{
    let s = composite::scale(level);
    vstd::arithmetic::power2::lemma_pow2_pos(level as nat);
    let n = reduced(size, level);
    reduced_bounds(size, level);
    assert(size <= n * s && (n > 0 ==> (n - 1) * s < size)) by (nonlinear_arith)
        requires
            s > 0,
            size >= 0,
            n == (size + s - 1) / s,
    ;
}

/// What is drawn for a tile: its own up to 512 columns and rows of the reduced image, and one more
/// on each side.
pub proof fn tiles_are_drawn_with_a_border(key: TileKey, width: u32, height: u32)
    requires
        key.x * 512 <= reduced(width, key.level),
        key.y * 512 <= reduced(height, key.level),
    ensures
        ({
            let r = key.drawn(width, height);
            &&& r.level == key.level
            &&& r.x + 1 == key.x * 512
            &&& r.y + 1 == key.y * 512
            &&& r.x + r.width - 1 == if (key.x + 1) * 512 <= reduced(width, key.level) {
                (key.x + 1) * 512
            } else {
                reduced(width, key.level)
            }
            &&& r.y + r.height - 1 == if (key.y + 1) * 512 <= reduced(height, key.level) {
                (key.y + 1) * 512
            } else {
                reduced(height, key.level)
            }
        }),
{
    reduced_bounds(width, key.level);
    reduced_bounds(height, key.level);
}

/// The tiles of a range come row by row, and in each row from left to right.
pub proof fn tiles_of_rows_are_in_order(
    level: u32,
    x0: int,
    x1: int,
    y0: int,
    y1: int,
    i: int,
    j: int,
)
    requires
        0 <= x0,
        x1 <= u32::MAX,
        0 <= y0,
        y1 <= u32::MAX,
        0 <= i < j < tiles_of_rows(level, x0, x1, y0, y1).len(),
    ensures
        ({
            let a = tiles_of_rows(level, x0, x1, y0, y1)[i];
            let b = tiles_of_rows(level, x0, x1, y0, y1)[j];
            a.y < b.y || (a.y == b.y && a.x < b.x)
        }),
    decreases y1 - y0,
{
    let before = tiles_of_rows(level, x0, x1, y0, y1 - 1);
    let all = tiles_of_rows(level, x0, x1, y0, y1);
    let row = tiles_of_row(
        level,
        x0,
        if x1 < x0 {
            x0
        } else {
            x1
        },
        y1 - 1,
    );
    assert(all == before + row);
    if j < before.len() {
        tiles_of_rows_are_in_order(level, x0, x1, y0, y1 - 1, i, j);
    } else if i < before.len() {
        tiles_of_rows_are_those_in_range(level, x0, x1, y0, y1 - 1);
        assert(before.contains(before[i]));
        assert(all[j] == row[j - before.len()]);
    } else {
        assert(all[i] == row[i - before.len()] && all[j] == row[j - before.len()]);
    }
}

/// A tile holds part of the image if and only if its number is below the count.
proof fn counts_are_of_tiles(size: u32, level: u32, t: int)
    requires
        0 <= t,
    ensures
        t < tile_count(size, level) <==> t * 512 < reduced(size, level),
        0 <= tile_count(size, level) <= u32::MAX,
{
    reduced_bounds(size, level);
}

/// An image fits into one tile at a level of reduction if and only if neither edge is longer than
/// 512 pixels times the reduction.
pub proof fn one_tile_holds_small_images(doc: Document, level: u32)
    ensures
        fits_one_tile(doc, level) <==> {
            let step = vstd::arithmetic::power2::pow2(level as nat);
            doc.width <= 512 * step && doc.height <= 512 * step
        },
{
    let step = vstd::arithmetic::power2::pow2(level as nat) as int;
    vstd::arithmetic::power2::lemma_pow2_pos(level as nat);
    quotients_are_bounded(doc.width as int, step);
    quotients_are_bounded(doc.height as int, step);
}

proof fn quotients_are_bounded(a: int, b: int)
    requires
        a >= 0,
        b > 0,
    ensures
        ceil_div(a, b) <= 512 <==> a <= 512 * b,
{
    let q = ceil_div(a, b);
    vstd::arithmetic::div_mod::lemma_fundamental_div_mod(a + b - 1, b);
    vstd::arithmetic::div_mod::lemma_mod_bound(a + b - 1, b);
    if q <= 512 {
        assert(b * q <= 512 * b) by (nonlinear_arith)
            requires
                q <= 512,
                b > 0,
        ;
    } else {
        assert(b * q >= 513 * b) by (nonlinear_arith)
            requires
                q >= 513,
                b > 0,
        ;
    }
}

} // verus!
