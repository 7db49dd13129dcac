//! The tiles that have been drawn.
use vstd::prelude::*;

use crate::tiles::TileKey;

verus! {

/// A tile that has been drawn. `T` is the texture that holds its pixels.
#[derive(Debug)]
pub struct Tile<T> {
    pub key: TileKey,
    pub texture: T,
    /// The state of the display for which it was drawn.
    pub generation: u64,
    pub last_used: u64,
    pub bytes: usize,
}

/// The tiles that have been drawn, each at most once.
#[derive(Debug)]
pub struct TileCache<T> {
    tiles: Vec<Tile<T>>,
    bytes: usize,
}

/// The memory that the tiles take.
pub open spec fn total_bytes<T>(s: Seq<Tile<T>>) -> int
    decreases s.len(),
{
    if s.len() == 0 {
        0
    } else {
        total_bytes(s.drop_last()) + s.last().bytes
    }
}

/// Whether no tile is there twice.
pub open spec fn distinct<T>(s: Seq<Tile<T>>) -> bool {
    forall|i: int, j: int|
        0 <= i < s.len() && 0 <= j < s.len() && i != j ==> (#[trigger] s[i]).key != (
        #[trigger] s[j]).key
}

/// Where the tile is, or the length where it is not there.
pub open spec fn position<T>(s: Seq<Tile<T>>, key: TileKey) -> int
    decreases s.len(),
{
    if s.len() == 0 || s[0].key == key {
        0
    } else {
        1 + position(s.skip(1), key)
    }
}

/// The tiles with one that is new, or in place of an older one.
pub open spec fn with_tile<T>(s: Seq<Tile<T>>, tile: Tile<T>) -> Seq<Tile<T>> {
    let i = position(s, tile.key);
    if i < s.len() {
        s.update(i, tile)
    } else {
        s.push(tile)
    }
}

/// Whether `a` is given up before `b`: tiles of an older state come first, then those that were not
/// used for longer.
pub open spec fn goes_before<T>(a: Tile<T>, b: Tile<T>, generation: u64) -> bool {
    if (a.generation == generation) == (b.generation == generation) {
        a.last_used < b.last_used
    } else {
        a.generation != generation
    }
}

/// The tile among the first `n` that is given up next, where there is one that is not used in this
/// frame.
pub open spec fn next_victim<T>(s: Seq<Tile<T>>, n: int, frame: u64, generation: u64) -> Option<int>
    decreases n,
{
    if n <= 0 {
        None
    } else {
        match next_victim(s, n - 1, frame, generation) {
            None => if s[n - 1].last_used < frame {
                Some(n - 1)
            } else {
                None
            },
            Some(i) => if s[n - 1].last_used < frame && goes_before(s[n - 1], s[i], generation) {
                Some(n - 1)
            } else {
                Some(i)
            },
        }
    }
}

/// The tiles that are left when they may take `budget` bytes. Tiles are given up one by one, for as
/// long as there are too many bytes and a tile that is not used in this frame.
pub open spec fn after_eviction<T>(
    s: Seq<Tile<T>>,
    budget: int,
    frame: u64,
    generation: u64,
) -> Seq<Tile<T>>
    decreases s.len(),
{
    if total_bytes(s) <= budget {
        s
    } else {
        match next_victim(s, s.len() as int, frame, generation) {
            Some(i) => if 0 <= i < s.len() {
                after_eviction(s.remove(i), budget, frame, generation)
            } else {
                s
            },
            None => s,
        }
    }
}

/// The victim is one of the tiles, is not used in this frame, and none of these goes before it.
pub proof fn victim_goes_first<T>(s: Seq<Tile<T>>, n: int, frame: u64, generation: u64)
    requires
        0 <= n <= s.len(),
    ensures
        match next_victim(s, n, frame, generation) {
            Some(i) => {
                &&& 0 <= i < n
                &&& s[i].last_used < frame
                &&& forall|k: int|
                    0 <= k < n && (#[trigger] s[k]).last_used < frame ==> !goes_before(
                        s[k],
                        s[i],
                        generation,
                    )
            },
            None => forall|k: int| 0 <= k < n ==> (#[trigger] s[k]).last_used >= frame,
        },
    decreases n,
{
    if n > 0 {
        victim_goes_first(s, n - 1, frame, generation);
    }
}

/// The place is that of the tile, or past the end where no tile has the key.
pub proof fn position_finds<T>(s: Seq<Tile<T>>, key: TileKey)
    ensures
        0 <= position(s, key) <= s.len(),
        position(s, key) < s.len() ==> s[position(s, key)].key == key,
        forall|i: int| 0 <= i < position(s, key) ==> (#[trigger] s[i]).key != key,
    decreases s.len(),
{
    if s.len() > 0 && s[0].key != key {
        position_finds(s.skip(1), key);
        assert forall|i: int| 0 <= i < position(s, key) implies (#[trigger] s[i]).key != key by {
            if i > 0 {
                assert(s[i] == s.skip(1)[i - 1]);
            }
        }
        if position(s, key) < s.len() {
            assert(s[position(s, key)] == s.skip(1)[position(s, key) - 1]);
        }
    }
}

/// The memory of the tiles without one.
proof fn total_without<T>(s: Seq<Tile<T>>, i: int)
    requires
        0 <= i < s.len(),
    ensures
        total_bytes(s.remove(i)) == total_bytes(s) - s[i].bytes,
    decreases s.len(),
{
    if i == s.len() - 1 {
        assert(s.remove(i) =~= s.drop_last());
    } else {
        assert(s.remove(i).drop_last() =~= s.drop_last().remove(i));
        total_without(s.drop_last(), i);
    }
}

/// The memory of the tiles with one in place of another.
proof fn total_updated<T>(s: Seq<Tile<T>>, i: int, tile: Tile<T>)
    requires
        0 <= i < s.len(),
    ensures
        total_bytes(s.update(i, tile)) == total_bytes(s) - s[i].bytes + tile.bytes,
    decreases s.len(),
{
    if i == s.len() - 1 {
        assert(s.update(i, tile).drop_last() =~= s.drop_last());
    } else {
        assert(s.update(i, tile).drop_last() =~= s.drop_last().update(i, tile));
        total_updated(s.drop_last(), i, tile);
    }
}

/// The tiles take at least as much memory as one of them.
proof fn total_bounds<T>(s: Seq<Tile<T>>, i: int)
    ensures
        0 <= total_bytes(s),
        0 <= i < s.len() ==> s[i].bytes <= total_bytes(s),
    decreases s.len(),
{
    if s.len() > 0 {
        total_bounds(s.drop_last(), i);
    }
}

impl<T> View for TileCache<T> {
    type V = Seq<Tile<T>>;

    closed spec fn view(&self) -> Seq<Tile<T>> {
        self.tiles@
    }
}

impl<T> TileCache<T> {
    /// No tile is there twice and the memory is counted right.
    #[verifier::type_invariant]
    spec fn is_counted(self) -> bool {
        distinct(self.tiles@) && self.bytes == total_bytes(self.tiles@)
    }

    /// A cache without tiles.
    pub fn new() -> (c: TileCache<T>)
        ensures
            c@ == Seq::<Tile<T>>::empty(),
    {
        TileCache { tiles: Vec::new(), bytes: 0 }
    }

    /// The memory that the tiles take. No tile is there twice.
    pub fn bytes(&self) -> (r: usize)
        ensures
            r == total_bytes(self@),
            distinct(self@),
    {
        proof {
            use_type_invariant(self);
        }
        self.bytes
    }

    /// Gives up all the tiles.
    pub fn clear(&mut self)
        ensures
            final(self)@ == Seq::<Tile<T>>::empty(),
    {
        *self = TileCache::new();
    }

    /// Keeps a tile, in place of an older one with its key.
    pub fn insert(&mut self, key: TileKey, generation: u64, texture: T, bytes: usize, frame: u64)
        requires
            total_bytes(old(self)@) + bytes <= usize::MAX,
        ensures
            final(self)@ == with_tile(
                old(self)@,
                Tile { key, texture, generation, last_used: frame, bytes },
            ),
    {
        let tile = Tile { key, texture, generation, last_used: frame, bytes };
        let mut whole = TileCache::new();
        std::mem::swap(&mut whole, self);
        proof {
            use_type_invariant(&whole);
        }
        let TileCache { mut tiles, bytes: held } = whole;
        let i: usize = find(&tiles, &key);
        let ghost before = tiles@;
        proof {
            position_finds(before, key);
        }
        if i < tiles.len() {
            proof {
                total_updated(before, i as int, tile);
                total_bounds(before, i as int);
            }
            let held: usize = held + bytes - tiles[i].bytes;
            tiles[i] = tile;
            assert(tiles@ =~= before.update(i as int, tile));
            *self = TileCache { tiles, bytes: held };
        } else {
            tiles.push(tile);
            assert(tiles@.drop_last() =~= before);
            *self = TileCache { tiles, bytes: held + bytes };
        }
    }

    /// Whether the tile is there and was drawn for this state of the display.
    pub fn is_ready(&self, key: &TileKey, generation: u64) -> (r: bool)
        ensures
            r == ({
                let i = position(self@, *key);
                i < self@.len() && self@[i].generation == generation
            }),
    {
        let i: usize = find(&self.tiles, key);
        i < self.tiles.len() && self.tiles[i].generation == generation
    }

    /// The texture of a tile, which counts as used in this frame. A tile of an older state is given
    /// too: it is shown until the new one comes.
    pub fn use_tile(&mut self, key: &TileKey, frame: u64) -> (r: Option<&T>)
        ensures
            ({
                let i = position(old(self)@, *key);
                if i < old(self)@.len() {
                    &&& r == Some(&old(self)@[i].texture)
                    &&& final(self)@ == old(self)@.update(
                        i,
                        Tile { last_used: frame, ..old(self)@[i] },
                    )
                } else {
                    r is None && final(self)@ == old(self)@
                }
            }),
    {
        let i: usize = find(&self.tiles, key);
        proof {
            position_finds(self.tiles@, *key);
        }
        if i < self.tiles.len() {
            let mut whole = TileCache::new();
            std::mem::swap(&mut whole, self);
            proof {
                use_type_invariant(&whole);
            }
            let TileCache { mut tiles, bytes } = whole;
            let ghost before = tiles@;
            let ghost used = Tile { last_used: frame, ..before[i as int] };
            proof {
                total_updated(before, i as int, used);
            }
            tiles[i].last_used = frame;
            assert(tiles@ =~= before.update(i as int, used));
            *self = TileCache { tiles, bytes };
            Some(&self.tiles[i].texture)
        } else {
            None
        }
    }

    /// Gives up tiles that are not used in this frame, where all of them take more than `budget`
    /// bytes.
    pub fn evict(&mut self, budget: usize, frame: u64, generation: u64)
        ensures
            final(self)@ == after_eviction(old(self)@, budget as int, frame, generation),
    {
        let ghost all = after_eviction(self@, budget as int, frame, generation);
        let mut whole = TileCache::new();
        std::mem::swap(&mut whole, self);
        proof {
            use_type_invariant(&whole);
        }
        let TileCache { mut tiles, bytes: mut held } = whole;
        while held > budget
            invariant_except_break
                all == after_eviction(tiles@, budget as int, frame, generation),
            invariant
                distinct(tiles@),
                held == total_bytes(tiles@),
            ensures
                tiles@ == all,
            decreases tiles@.len(),
        {
            match find_victim(&tiles, frame, generation) {
                Some(i) => {
                    proof {
                        total_without(tiles@, i as int);
                        total_bounds(tiles@, i as int);
                    }
                    let tile = tiles.remove(i);
                    held = held - tile.bytes;
                },
                None => {
                    break;
                },
            }
        }
        *self = TileCache { tiles, bytes: held };
    }
}

impl<T> Default for TileCache<T> {
    /// A cache without tiles.
    fn default() -> (c: TileCache<T>)
        ensures
            c@ == Seq::<Tile<T>>::empty(),
    {
        TileCache::new()
    }
}

/// Where the tile is.
fn find<T>(tiles: &Vec<Tile<T>>, key: &TileKey) -> (i: usize)
    ensures
        i == position(tiles@, *key),
{
    let mut i: usize = 0;
    assert(tiles@.skip(0) =~= tiles@);
    while i < tiles.len()
        invariant
            i <= tiles@.len(),
            position(tiles@, *key) == i + position(tiles@.skip(i as int), *key),
        decreases tiles@.len() - i,
    {
        assert(tiles@.skip(i as int)[0] == tiles@[i as int]);
        if tiles[i].key == *key {
            return i;
        }
        assert(tiles@.skip(i as int).skip(1) =~= tiles@.skip(i + 1));
        i = i + 1;
    }
    i
}

/// Whether `a` is given up before `b`.
fn is_before<T>(a: &Tile<T>, b: &Tile<T>, generation: u64) -> (r: bool)
    ensures
        r == goes_before(*a, *b, generation),
{
    let current_a = a.generation == generation;
    let current_b = b.generation == generation;
    if current_a == current_b {
        a.last_used < b.last_used
    } else {
        !current_a
    }
}

/// The tile that is given up next.
fn find_victim<T>(tiles: &Vec<Tile<T>>, frame: u64, generation: u64) -> (r: Option<usize>)
    ensures
        match r {
            Some(i) => next_victim(tiles@, tiles@.len() as int, frame, generation) == Some(i as int)
                && i < tiles@.len(),
            None => next_victim(tiles@, tiles@.len() as int, frame, generation) is None,
        },
{
    let mut found: Option<usize> = None;
    let mut n: usize = 0;
    while n < tiles.len()
        invariant
            n <= tiles@.len(),
            match found {
                Some(i) => next_victim(tiles@, n as int, frame, generation) == Some(i as int) && i
                    < n,
                None => next_victim(tiles@, n as int, frame, generation) is None,
            },
        decreases tiles@.len() - n,
    {
        if tiles[n].last_used < frame {
            found = match found {
                Some(i) => if is_before(&tiles[n], &tiles[i], generation) {
                    Some(n)
                } else {
                    Some(i)
                },
                None => Some(n),
            };
        }
        n = n + 1;
    }
    found
}

/// What is left of a list without one entry.
proof fn without_one<T>(s: Seq<Tile<T>>, i: int)
    requires
        0 <= i < s.len(),
    ensures
        forall|t: Tile<T>| #[trigger] s.remove(i).contains(t) ==> s.contains(t),
        forall|t: Tile<T>| #[trigger] s.contains(t) ==> t == s[i] || s.remove(i).contains(t),
        distinct(s) ==> distinct(s.remove(i)) && !s.remove(i).contains(s[i]),
{
    let rest = s.remove(i);
    assert forall|t: Tile<T>| #[trigger] rest.contains(t) implies s.contains(t) by {
        let k = choose|k: int| 0 <= k < rest.len() && rest[k] == t;
        assert(s[if k < i {
            k
        } else {
            k + 1
        }] == t);
    }
    assert forall|t: Tile<T>| #[trigger] s.contains(t) implies t == s[i] || rest.contains(t) by {
        let k = choose|k: int| 0 <= k < s.len() && s[k] == t;
        if k < i {
            assert(rest[k] == t);
        } else if k > i {
            assert(rest[k - 1] == t);
        }
    }
}

/// What is left after an eviction was there before, and all that is used in this frame is left.
pub proof fn used_tiles_are_kept<T>(
    s: Seq<Tile<T>>,
    budget: int,
    frame: u64,
    generation: u64,
    tile: Tile<T>,
)
    ensures
        after_eviction(s, budget, frame, generation).contains(tile) ==> s.contains(tile),
        s.contains(tile) && tile.last_used >= frame ==> after_eviction(
            s,
            budget,
            frame,
            generation,
        ).contains(tile),
    decreases s.len(),
{
    victim_goes_first(s, s.len() as int, frame, generation);
    if total_bytes(s) > budget {
        if let Some(i) = next_victim(s, s.len() as int, frame, generation) {
            without_one(s, i);
            used_tiles_are_kept(s.remove(i), budget, frame, generation, tile);
        }
    }
}

/// After an eviction the budget is kept, unless all that is left is used in this frame.
pub proof fn eviction_keeps_the_budget<T>(
    s: Seq<Tile<T>>,
    budget: int,
    frame: u64,
    generation: u64,
)
    ensures
        ({
            let left = after_eviction(s, budget, frame, generation);
            total_bytes(left) <= budget || forall|i: int|
                0 <= i < left.len() ==> (#[trigger] left[i]).last_used >= frame
        }),
    decreases s.len(),
{
    victim_goes_first(s, s.len() as int, frame, generation);
    if total_bytes(s) > budget {
        if let Some(i) = next_victim(s, s.len() as int, frame, generation) {
            eviction_keeps_the_budget(s.remove(i), budget, frame, generation);
        }
    }
}

/// A tile that is left and could have been given up does not go before one that was given up.
pub proof fn older_tiles_go_first<T>(
    s: Seq<Tile<T>>,
    budget: int,
    frame: u64,
    generation: u64,
    gone: Tile<T>,
    left: Tile<T>,
)
    requires
        s.contains(gone),
        !after_eviction(s, budget, frame, generation).contains(gone),
        after_eviction(s, budget, frame, generation).contains(left),
        left.last_used < frame,
    ensures
        !goes_before(left, gone, generation),
    decreases s.len(),
{
    victim_goes_first(s, s.len() as int, frame, generation);
    if total_bytes(s) > budget {
        if let Some(i) = next_victim(s, s.len() as int, frame, generation) {
            without_one(s, i);
            used_tiles_are_kept(s, budget, frame, generation, left);
            if gone == s[i] {
                let k = choose|k: int| 0 <= k < s.len() && s[k] == left;
                assert(!goes_before(s[k], s[i], generation));
            } else {
                older_tiles_go_first(s.remove(i), budget, frame, generation, gone, left);
            }
        }
    }
}

/// Whether `gone` was given up when `left` was left.
pub open spec fn given_up<T>(s: Seq<Tile<T>>, left: Seq<Tile<T>>, gone: Tile<T>) -> bool {
    s.contains(gone) && !left.contains(gone)
}

/// Whether `gone` was given up last: none of the others that were given up comes after it.
pub open spec fn given_up_last<T>(
    s: Seq<Tile<T>>,
    left: Seq<Tile<T>>,
    generation: u64,
    gone: Tile<T>,
) -> bool {
    given_up(s, left, gone) && forall|other: Tile<T>| #[trigger]
        given_up(s, left, other) ==> !goes_before(gone, other, generation)
}

/// No tile is given up without need: with the last one that was given up, which ranks highest of
/// them, the tiles would still take too much memory.
pub proof fn eviction_stops_in_time<T>(s: Seq<Tile<T>>, budget: int, frame: u64, generation: u64)
    requires
        distinct(s),
        after_eviction(s, budget, frame, generation) != s,
    ensures
        exists|gone: Tile<T>|
            {
                &&& #[trigger] given_up_last(
                    s,
                    after_eviction(s, budget, frame, generation),
                    generation,
                    gone,
                )
                &&& gone.last_used < frame
                &&& total_bytes(after_eviction(s, budget, frame, generation)) + gone.bytes > budget
            },
    decreases s.len(),
{
    victim_goes_first(s, s.len() as int, frame, generation);
    let left = after_eviction(s, budget, frame, generation);
    if let Some(i) = next_victim(s, s.len() as int, frame, generation) {
        without_one(s, i);
        let rest = s.remove(i);
        if left == rest {
            total_without(s, i);
            assert(s.contains(s[i]));
            assert(given_up_last(s, left, generation, s[i]));
        } else {
            eviction_stops_in_time(rest, budget, frame, generation);
            let gone = choose|gone: Tile<T>|
                {
                    &&& #[trigger] given_up_last(rest, left, generation, gone)
                    &&& gone.last_used < frame
                    &&& total_bytes(left) + gone.bytes > budget
                };
            let k = choose|k: int| 0 <= k < s.len() && s[k] == gone;
            assert(!goes_before(s[k], s[i], generation));
            assert forall|other: Tile<T>| #[trigger] given_up(s, left, other) implies !goes_before(
                gone,
                other,
                generation,
            ) by {
                if other != s[i] {
                    assert(given_up(rest, left, other));
                }
            }
            assert(given_up_last(s, left, generation, gone));
        }
    }
}

/// A tile that was kept is found again, and no other tile has changed.
pub proof fn kept_tiles_are_found<T>(s: Seq<Tile<T>>, tile: Tile<T>, key: TileKey)
    requires
        distinct(s),
    ensures
        ({
            let after = with_tile(s, tile);
            let i = position(after, key);
            if key == tile.key {
                i < after.len() && after[i] == tile
            } else {
                (i < after.len() <==> position(s, key) < s.len()) && (i < after.len() ==> after[i]
                    == s[position(s, key)])
            }
        }),
{
    let after = with_tile(s, tile);
    position_finds(s, tile.key);
    position_finds(s, key);
    position_finds(after, key);
    let p = position(s, tile.key);
    if key == tile.key {
        assert(after[if p < s.len() {
            p
        } else {
            s.len() as int
        }] == tile);
    } else {
        let j = position(s, key);
        let i = position(after, key);
        if j < s.len() {
            assert(after[j] == s[j]);
        }
        if i < after.len() {
            assert(i < s.len());
            assert(after[i] == s[i]);
        }
    }
}

/// When tiles are given up, those of an older state of the display go first, and among those of the
/// same kind the ones that were not used for longer: a tile that is left although it was not used
/// in this frame is of this state where the one that was given up is, and then was used no earlier.
pub proof fn newer_and_recent_tiles_stay<T>(
    s: Seq<Tile<T>>,
    budget: int,
    frame: u64,
    generation: u64,
    gone: Tile<T>,
    left: Tile<T>,
)
    requires
        s.contains(gone),
        !after_eviction(s, budget, frame, generation).contains(gone),
        after_eviction(s, budget, frame, generation).contains(left),
        left.last_used < frame,
    ensures
        gone.generation == generation ==> left.generation == generation,
        (gone.generation == generation) == (left.generation == generation) ==> gone.last_used
            <= left.last_used,
{
    older_tiles_go_first(s, budget, frame, generation, gone, left);
}

/// The memory that tiles take is the sum of what each of them takes.
pub proof fn memory_adds_up<T>(a: Seq<Tile<T>>, b: Seq<Tile<T>>, tile: Tile<T>)
    ensures
        total_bytes(a + b) == total_bytes(a) + total_bytes(b),
        total_bytes(seq![tile]) == tile.bytes,
        total_bytes(Seq::<Tile<T>>::empty()) == 0,
    decreases b.len(),
{
    reveal_with_fuel(total_bytes, 2);
    assert(seq![tile].drop_last() =~= Seq::<Tile<T>>::empty());
    if b.len() == 0 {
        assert(a + b =~= a);
    } else {
        memory_adds_up(a, b.drop_last(), tile);
        assert((a + b).drop_last() =~= a + b.drop_last());
    }
}

} // verus!
