//! What the display shows, and what it has asked for and received.
use vstd::prelude::*;

use std::collections::HashSet;

use crate::tile_cache;
use crate::tile_cache::TileCache;
use crate::tiles::TileKey;

verus! {

/// The least memory that tiles may take.
pub const MIN_CACHE_BYTES: usize = 134_217_728;

/// What the display is doing.
#[derive(Clone, Copy, Debug, PartialEq, Eq, Structural)]
pub enum Status {
    /// A file is being opened.
    Loading,
    /// Tiles are being drawn.
    Drawing,
    /// Nothing is waited for.
    Ready,
}

/// What the display shows, and what it has asked for and received.
pub struct Session {
    /// Whether a file is being opened.
    loading: bool,
    /// Counts the files that have been opened.
    serial: u64,
    /// Whether the image is to be fitted into the window.
    fit: bool,
    /// Counts the states of the display: it changes with the file and with the visible layers.
    generation: u64,
    /// The tiles that were asked for and have not arrived.
    pending: HashSet<u128>,
    /// The number of tiles that have arrived.
    received: u64,
}

/// What the display shows, and what it has asked for and received, in mathematical terms.
#[verifier::ext_equal]
pub struct SessionView {
    pub loading: bool,
    pub serial: u64,
    pub fit: bool,
    pub generation: u64,
    pub pending: Set<u128>,
    pub received: u64,
}

impl View for Session {
    type V = SessionView;

    closed spec fn view(&self) -> SessionView {
        SessionView {
            loading: self.loading,
            serial: self.serial,
            fit: self.fit,
            generation: self.generation,
            pending: self.pending@,
            received: self.received,
        }
    }
}

impl SessionView {
    /// The state after a change of what is displayed: what was asked for is not waited for any
    /// more.
    pub open spec fn changed(self) -> SessionView {
        SessionView {
            generation: (self.generation + 1) as u64,
            pending: Set::empty(),
            ..self
        }
    }
}

/// The numbers of the tiles.
pub open spec fn numbers(s: Seq<TileKey>) -> Set<u128>
    decreases s.len(),
{
    if s.len() == 0 {
        Set::empty()
    } else {
        numbers(s.drop_last()).insert(s.last().number())
    }
}

/// Whether all the tiles are among the numbers.
pub open spec fn all_among(s: Seq<TileKey>, pending: Set<u128>) -> bool {
    forall|i: int| 0 <= i < s.len() ==> pending.contains((#[trigger] s[i]).number())
}

/// Whether the tile is there for this state of the display.
pub open spec fn ready<T>(cache: Seq<tile_cache::Tile<T>>, key: TileKey, generation: u64) -> bool {
    let i = tile_cache::position(cache, key);
    i < cache.len() && cache[i].generation == generation
}

/// The tiles that are not there, each of them once, in their order.
pub open spec fn lacking<T>(
    cache: Seq<tile_cache::Tile<T>>,
    generation: u64,
    s: Seq<TileKey>,
) -> Seq<TileKey>
    decreases s.len(),
{
    if s.len() == 0 {
        seq![]
    } else {
        let before = lacking(cache, generation, s.drop_last());
        if ready(cache, s.last(), generation) || before.contains(s.last()) {
            before
        } else {
            before.push(s.last())
        }
    }
}

/// Whether the tile is in the list.
fn holds(s: &Vec<TileKey>, key: TileKey) -> (r: bool)
    ensures
        r == s@.contains(key),
{
    let mut i: usize = 0;
    while i < s.len()
        invariant
            i <= s@.len(),
            forall|k: int| 0 <= k < i ==> #[trigger] s@[k] != key,
        decreases s@.len() - i,
    {
        if s[i] == key {
            assert(s@[i as int] == key);
            return true;
        }
        i = i + 1;
    }
    false
}

/// Adds those of `s` to `missing` that are not there.
fn add_missing<T>(
    cache: &TileCache<T>,
    generation: u64,
    missing: &mut Vec<TileKey>,
    s: &Vec<TileKey>,
    Ghost(done): Ghost<Seq<TileKey>>,
)
    requires
        old(missing)@ == lacking(cache@, generation, done),
    ensures
        final(missing)@ == lacking(cache@, generation, done + s@),
{
    let mut i: usize = 0;
    assert(done + s@.take(0) =~= done);
    while i < s.len()
        invariant
            i <= s@.len(),
            missing@ == lacking(cache@, generation, done + s@.take(i as int)),
        decreases s@.len() - i,
    {
        let key = s[i];
        proof {
            let now = done + s@.take(i + 1);
            assert(now.drop_last() =~= done + s@.take(i as int));
            assert(now.last() == key);
        }
        if !cache.is_ready(&key, generation) && !holds(missing, key) {
            missing.push(key);
        }
        i = i + 1;
    }
    assert(done + s@.take(i as int) =~= done + s@);
}

/// The tiles of the view and then those of the coarsest level that are not there for this state of
/// the display. The latter are always kept, to show the whole image while others are drawn.
pub fn missing_tiles<T>(
    cache: &TileCache<T>,
    generation: u64,
    wanted: &Vec<TileKey>,
    coarse: &Vec<TileKey>,
) -> (missing: Vec<TileKey>)
    ensures
        missing@ == lacking(cache@, generation, wanted@ + coarse@),
{
    let mut missing: Vec<TileKey> = Vec::new();
    add_missing(cache, generation, &mut missing, wanted, Ghost(Seq::<TileKey>::empty()));
    assert(Seq::<TileKey>::empty() + wanted@ =~= wanted@);
    add_missing(cache, generation, &mut missing, coarse, Ghost(wanted@));
    missing
}

/// What is missing is what is asked for and not there, each tile once.
pub proof fn missing_tiles_are_those_not_there<T>(
    cache: Seq<tile_cache::Tile<T>>,
    generation: u64,
    s: Seq<TileKey>,
)
    ensures
        lacking(cache, generation, s).no_duplicates(),
        forall|k: TileKey| #[trigger]
            lacking(cache, generation, s).contains(k) <==> s.contains(k) && !ready(
                cache,
                k,
                generation,
            ),
    decreases s.len(),
{
    if s.len() > 0 {
        let before = s.drop_last();
        missing_tiles_are_those_not_there(cache, generation, before);
        let rest = lacking(cache, generation, before);
        let all = lacking(cache, generation, s);
        assert forall|k: TileKey| #[trigger] all.contains(k) <==> s.contains(k) && !ready(
            cache,
            k,
            generation,
        ) by {
            assert(rest.contains(k) <==> before.contains(k) && !ready(cache, k, generation));
            if s.contains(k) {
                let i = choose|i: int| 0 <= i < s.len() && s[i] == k;
                if i < before.len() {
                    assert(before[i] == k);
                }
            }
            if before.contains(k) {
                let i = choose|i: int| 0 <= i < before.len() && before[i] == k;
                assert(s[i] == k);
            }
            assert(s[s.len() - 1] == s.last());
            if rest.contains(k) {
                let i = choose|i: int| 0 <= i < rest.len() && rest[i] == k;
                assert(all[i] == k);
            }
            if all.contains(k) && !rest.contains(k) {
                let i = choose|i: int| 0 <= i < all.len() && all[i] == k;
                assert(i >= rest.len());
            }
            if all.len() > rest.len() {
                assert(all[rest.len() as int] == s.last());
            }
        }
        assert forall|i: int, j: int|
            0 <= i < all.len() && 0 <= j < all.len() && i != j implies all[i] != all[j] by {
            if i == rest.len() {
                assert(rest.contains(rest[j]));
            }
            if j == rest.len() {
                assert(rest.contains(rest[i]));
            }
        }
    }
}

/// The memory that tiles may take when one screen takes `screen` bytes: that of four screens, but
/// not less than a fixed amount.
pub fn cache_budget(screen: usize) -> (r: usize)
    ensures
        r == ({
            let four = if screen * 4 > usize::MAX {
                usize::MAX as int
            } else {
                screen * 4
            };
            if four > MIN_CACHE_BYTES {
                four
            } else {
                MIN_CACHE_BYTES as int
            }
        }),
{
    let four: usize = if screen > usize::MAX / 4 { usize::MAX } else { screen * 4 };
    if four > MIN_CACHE_BYTES {
        four
    } else {
        MIN_CACHE_BYTES
    }
}

impl Session {
    /// Nothing has been asked for.
    pub fn new() -> (s: Session)
        ensures
            s@ == (SessionView {
                loading: false,
                serial: 0,
                fit: false,
                generation: 0,
                pending: Set::empty(),
                received: 0,
            }),
    {
        Session {
            loading: false,
            serial: 0,
            fit: false,
            generation: 0,
            pending: HashSet::new(),
            received: 0,
        }
    }

    /// The number of files that have been opened.
    pub fn serial(&self) -> (r: u64)
        ensures
            r == self@.serial,
    {
        self.serial
    }

    /// What the display is doing. A file comes before tiles.
    pub fn status(&self) -> (r: Status)
        ensures
            r == if self@.loading {
                Status::Loading
            } else if !self@.pending.is_empty() {
                Status::Drawing
            } else {
                Status::Ready
            },
    {
        if self.loading {
            Status::Loading
        } else if !self.pending.is_empty() {
            Status::Drawing
        } else {
            Status::Ready
        }
    }

    /// A file is to be opened.
    pub fn open(&mut self)
        ensures
            final(self)@ == (SessionView { loading: true, ..old(self)@ }),
    {
        self.loading = true;
    }

    /// The file has been opened, or could not be. A new file is fitted into the window.
    pub fn opened(&mut self, success: bool)
        requires
            success ==> old(self)@.generation < u64::MAX,
            success ==> old(self)@.serial < u64::MAX,
        ensures
            final(self)@ == if success {
                SessionView {
                    loading: false,
                    serial: (old(self)@.serial + 1) as u64,
                    fit: true,
                    ..old(self)@.changed()
                }
            } else {
                SessionView { loading: false, ..old(self)@ }
            },
    {
        self.loading = false;
        if success {
            self.serial = self.serial + 1;
            self.fit = true;
            self.next_generation();
        }
    }

    /// Asks for the image to be fitted into the window.
    pub fn ask_to_fit(&mut self)
        ensures
            final(self)@ == (SessionView { fit: true, ..old(self)@ }),
    {
        self.fit = true;
    }

    /// Whether the image is to be fitted into the window. It is then taken as done.
    pub fn take_fit(&mut self) -> (r: bool)
        ensures
            r == old(self)@.fit,
            final(self)@ == (SessionView { fit: false, ..old(self)@ }),
    {
        let r = self.fit;
        self.fit = false;
        r
    }

    /// The state of the display.
    pub fn generation(&self) -> (r: u64)
        ensures
            r == self@.generation,
    {
        self.generation
    }

    /// Whether something was drawn for this state of the display.
    pub fn is_current(&self, generation: u64) -> (r: bool)
        ensures
            r == (generation == self@.generation),
    {
        generation == self.generation
    }

    /// The number of tiles that have arrived.
    pub fn received(&self) -> (r: u64)
        ensures
            r == self@.received,
    {
        self.received
    }

    /// The display changes: what was asked for is not waited for any more.
    pub fn next_generation(&mut self)
        requires
            old(self)@.generation < u64::MAX,
        ensures
            final(self)@ == old(self)@.changed(),
    {
        self.generation = self.generation + 1;
        self.pending.clear();
    }

    /// Whether the missing tiles are to be asked for: they are, all of them, if one of them was not
    /// asked for yet.
    pub fn request(&mut self, missing: &Vec<TileKey>) -> (r: bool)
        ensures
            r == !all_among(missing@, old(self)@.pending),
            final(self)@ == (SessionView {
                pending: if r {
                    numbers(missing@)
                } else {
                    old(self)@.pending
                },
                ..old(self)@
            }),
    {
        broadcast use vstd::std_specs::hash::group_hash_axioms;

        let mut i: usize = 0;
        let mut known = true;
        while i < missing.len() && known
            invariant
                i <= missing@.len(),
                self@ == old(self)@,
                known ==> forall|k: int|
                    0 <= k < i ==> self@.pending.contains((#[trigger] missing@[k]).number()),
                !known ==> !all_among(missing@, self@.pending),
            decreases missing@.len() - i,
        {
            known = self.pending.contains(&missing[i].code());
            i = i + 1;
        }
        if known {
            return false;
        }
        self.pending.clear();
        let mut j: usize = 0;
        assert(missing@.take(0) =~= seq![]);
        while j < missing.len()
            invariant
                j <= missing@.len(),
                self@ =~= (SessionView {
                    pending: numbers(missing@.take(j as int)),
                    ..old(self)@
                }),
            decreases missing@.len() - j,
        {
            assert(missing@.take(j + 1).drop_last() =~= missing@.take(j as int));
            self.pending.insert(missing[j].code());
            j = j + 1;
        }
        assert(missing@.take(j as int) =~= missing@);
        true
    }

    /// A tile has arrived. It is kept if it was drawn for this state of the display.
    pub fn tile_arrived(&mut self, generation: u64, key: &TileKey) -> (keep: bool)
        requires
            old(self)@.received < u64::MAX,
        ensures
            keep == (generation == old(self)@.generation),
            final(self)@ == (SessionView {
                pending: if keep {
                    old(self)@.pending.remove(key.number())
                } else {
                    old(self)@.pending
                },
                received: (old(self)@.received + 1) as u64,
                ..old(self)@
            }),
    {
        broadcast use vstd::std_specs::hash::group_hash_axioms;

        self.received = self.received + 1;
        if generation == self.generation {
            self.pending.remove(&key.code());
            true
        } else {
            false
        }
    }
}

/// After a request, exactly the tiles that are missing are waited for.
pub proof fn requested_tiles_are_waited_for(s: Seq<TileKey>, key: TileKey)
    ensures
        numbers(s).contains(key.number()) <==> s.contains(key),
    decreases s.len(),
{
    if s.len() > 0 {
        let before = s.drop_last();
        requested_tiles_are_waited_for(before, key);
        if s.contains(key) {
            let i = choose|i: int| 0 <= i < s.len() && s[i] == key;
            if i < before.len() {
                assert(before[i] == key);
            }
        }
        if before.contains(key) {
            let i = choose|i: int| 0 <= i < before.len() && before[i] == key;
            assert(s[i] == key);
        }
        if s.last().number() == key.number() {
            crate::tiles::numbers_are_distinct(s.last(), key);
            assert(s[s.len() - 1] == key);
        }
    }
}

/// The same missing tiles are not asked for twice in a row.
pub proof fn requests_are_not_repeated(s: Seq<TileKey>)
    ensures
        all_among(s, numbers(s)),
{
    assert forall|i: int| 0 <= i < s.len() implies numbers(s).contains(
        (#[trigger] s[i]).number(),
    ) by {
        assert(s.contains(s[i]));
        requested_tiles_are_waited_for(s, s[i]);
    }
}

/// A tile is there for a state of the display if and only if one with its key was kept for it.
pub proof fn ready_tiles_were_kept<T>(
    cache: Seq<tile_cache::Tile<T>>,
    key: TileKey,
    generation: u64,
)
    requires
        tile_cache::distinct(cache),
    ensures
        ready(cache, key, generation) <==> exists|i: int|
            0 <= i < cache.len() && (#[trigger] cache[i]).key == key && cache[i].generation
                == generation,
{
    tile_cache::position_finds(cache, key);
    if exists|i: int|
        0 <= i < cache.len() && (#[trigger] cache[i]).key == key && cache[i].generation
            == generation {
        let i = choose|i: int|
            0 <= i < cache.len() && (#[trigger] cache[i]).key == key && cache[i].generation
                == generation;
        let p = tile_cache::position(cache, key);
        if p < i {
            assert(cache[p].key == cache[i].key);
        }
        assert(p == i);
    } else if ready(cache, key, generation) {
        assert(cache[tile_cache::position(cache, key)].key == key);
    }
}

/// Missing tiles are asked for in the order in which they are wanted: of two of them, the one comes
/// first that is wanted first.
pub proof fn missing_tiles_keep_their_order<T>(
    cache: Seq<tile_cache::Tile<T>>,
    generation: u64,
    s: Seq<TileKey>,
    t: Seq<TileKey>,
)
    ensures
        lacking(cache, generation, s).len() <= lacking(cache, generation, s + t).len(),
        lacking(cache, generation, s + t).take(lacking(cache, generation, s).len() as int)
            == lacking(cache, generation, s),
    decreases t.len(),
{
    if t.len() == 0 {
        assert(s + t =~= s);
        assert(lacking(cache, generation, s).take(lacking(cache, generation, s).len() as int)
            =~= lacking(cache, generation, s));
    } else {
        missing_tiles_keep_their_order(cache, generation, s, t.drop_last());
        assert((s + t).drop_last() =~= s + t.drop_last());
        let n = lacking(cache, generation, s).len() as int;
        let before = lacking(cache, generation, s + t.drop_last());
        let all = lacking(cache, generation, s + t);
        assert(all.take(n) =~= before.take(n));
    }
}

/// A change of the display counts, and forgets what was waited for and nothing else.
pub proof fn changes_forget_what_was_asked(s: SessionView)
    requires
        s.generation < u64::MAX,
    ensures
        s.changed().generation == s.generation + 1,
        s.changed().pending.is_empty(),
        s.changed().received == s.received,
        s.changed().loading == s.loading,
        s.changed().serial == s.serial,
        s.changed().fit == s.fit,
{
}

} // verus!
