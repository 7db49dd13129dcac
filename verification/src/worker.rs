//! What the drawing thread does next.
use vstd::prelude::*;

use std::collections::{HashMap, VecDeque};

use crate::document::Document;
use crate::tiles::TileKey;

verus! {

/// About how many pixels of the canvas are drawn at once. The fewer they are, the sooner a result
/// arrives and a new request is taken up.
pub const BATCH_AREA: usize = 2_000_000;

/// The tiles that are still to be drawn, in the order of their priority.
struct Job {
    generation: u64,
    queue: VecDeque<TileKey>,
}

impl Job {
    /// The work for every tile can be measured.
    #[verifier::type_invariant]
    spec fn is_measurable(self) -> bool {
        all_measurable(self.queue@)
    }
}

/// What the drawing thread remembers.
pub struct Scheduler {
    job: Option<Job>,
    /// For each tile that was sent, its number in the order of sending.
    sent: HashMap<u128, u64>,
    /// The state of the display for which tiles were sent.
    sent_generation: u64,
    next_index: u64,
}

/// The tiles that are still to be drawn.
#[verifier::ext_equal]
pub struct JobView {
    pub generation: u64,
    pub queue: Seq<TileKey>,
}

/// What the drawing thread remembers, in mathematical terms.
#[verifier::ext_equal]
pub struct SchedulerView {
    pub job: Option<JobView>,
    pub sent: Map<u128, u64>,
    pub sent_generation: u64,
    pub next_index: u64,
}

impl View for Scheduler {
    type V = SchedulerView;

    closed spec fn view(&self) -> SchedulerView {
        SchedulerView {
            job: match self.job {
                Some(job) => Some(JobView { generation: job.generation, queue: job.queue@ }),
                None => None,
            },
            sent: self.sent@,
            sent_generation: self.sent_generation,
            next_index: self.next_index,
        }
    }
}

/// Whether the work for a tile can be measured.
pub open spec fn measurable(key: TileKey) -> bool {
    2 * key.level < usize::BITS
}

/// Whether the work for every tile can be measured.
pub open spec fn all_measurable(s: Seq<TileKey>) -> bool {
    forall|i: int| 0 <= i < s.len() ==> measurable(#[trigger] s[i])
}

/// Whether the tile was sent and has not been received, when `received` tiles have.
pub open spec fn on_its_way(sent: Map<u128, u64>, key: TileKey, received: u64) -> bool {
    sent.contains_key(key.number()) && sent[key.number()] >= received
}

/// The tiles that are not on their way, in their order.
pub open spec fn still_wanted(s: Seq<TileKey>, sent: Map<u128, u64>, received: u64) -> Seq<TileKey>
    decreases s.len(),
{
    if s.len() == 0 {
        seq![]
    } else if on_its_way(sent, s.last(), received) {
        still_wanted(s.drop_last(), sent, received)
    } else {
        still_wanted(s.drop_last(), sent, received).push(s.last())
    }
}

/// The work for a tile.
pub open spec fn work(key: TileKey, width: u32, height: u32) -> int {
    let r = key.drawn(width, height);
    (((r.width * r.height) as usize) << ((2 * key.level) as usize)) as int
}

/// The work for the first `n` tiles.
pub open spec fn total_work(s: Seq<TileKey>, n: int, width: u32, height: u32) -> int
    decreases n,
{
    if n <= 0 {
        0
    } else {
        total_work(s, n - 1, width, height) + work(s[n - 1], width, height)
    }
}

/// Whether `n` tiles are drawn at once: one, or as many as do not take too much work.
pub open spec fn is_batch(s: Seq<TileKey>, n: int, width: u32, height: u32) -> bool {
    &&& 1 <= n <= s.len()
    &&& n > 1 ==> total_work(s, n, width, height) <= BATCH_AREA
    &&& n < s.len() ==> total_work(s, n + 1, width, height) > BATCH_AREA
}

impl SchedulerView {
    /// Whether nothing is to be drawn.
    pub open spec fn idle(self) -> bool {
        match self.job {
            Some(job) => job.queue.len() == 0,
            None => true,
        }
    }

    /// The state after a request for tiles, of which the sender had received `received`. It takes
    /// the place of an earlier request.
    pub open spec fn requested(
        self,
        generation: u64,
        tiles: Seq<TileKey>,
        received: u64,
    ) -> SchedulerView {
        let sent = if generation == self.sent_generation {
            self.sent
        } else {
            Map::empty()
        };
        SchedulerView {
            job: Some(JobView { generation, queue: still_wanted(tiles, sent, received) }),
            sent,
            sent_generation: generation,
            next_index: self.next_index,
        }
    }
}

/// What the drawing thread does next.
#[derive(Debug)]
pub enum Next {
    /// Waits for a request.
    Wait,
    /// Tells that all the tiles that were asked for have been sent.
    Idle { generation: u64 },
    /// Draws and sends some tiles.
    Draw { generation: u64, keys: Vec<TileKey> },
}

/// The work for a tile.
fn work_of(key: &TileKey, doc: &Document) -> (r: usize)
    requires
        measurable(*key),
    ensures
        r == work(*key, doc.width, doc.height),
{
    let region = key.region(doc);
    assert(region.width * region.height <= 514 * 514) by (nonlinear_arith)
        requires
            0 <= region.width <= 514,
            0 <= region.height <= 514,
    ;
    region.canvas_area()
}

/// The work is not negative.
proof fn total_work_bounds(s: Seq<TileKey>, n: int, width: u32, height: u32)
    ensures
        0 <= total_work(s, n, width, height),
    decreases n,
{
    if n > 0 {
        total_work_bounds(s, n - 1, width, height);
    }
}

impl Scheduler {
    /// Nothing has been requested or sent.
    pub fn new() -> (s: Scheduler)
        ensures
            s@ == (SchedulerView {
                job: None,
                sent: Map::empty(),
                sent_generation: 0,
                next_index: 0,
            }),
    {
        Scheduler { job: None, sent: HashMap::new(), sent_generation: 0, next_index: 0 }
    }

    /// The number of tiles that have been sent.
    pub fn next_index(&self) -> (r: u64)
        ensures
            r == self@.next_index,
    {
        self.next_index
    }

    /// Whether nothing is to be drawn, so that a request is waited for.
    pub fn is_idle(&self) -> (r: bool)
        ensures
            r == self@.idle(),
    {
        match &self.job {
            Some(job) => job.queue.len() == 0,
            None => true,
        }
    }

    /// Another file is opened: what was to be drawn is forgotten.
    pub fn open(&mut self)
        ensures
            final(self)@ == (SchedulerView { job: None, ..old(self)@ }),
    {
        self.job = None;
    }

    /// Takes a request for tiles. The result tells whether tiles were still to be drawn before.
    pub fn request(&mut self, generation: u64, tiles: &Vec<TileKey>, received: u64) -> (busy: bool)
        requires
            all_measurable(tiles@),
        ensures
            final(self)@ == old(self)@.requested(generation, tiles@, received),
            busy == !old(self)@.idle(),
    {
        broadcast use vstd::std_specs::hash::group_hash_axioms;

        let busy = !self.is_idle();
        if generation != self.sent_generation {
            self.sent.clear();
            self.sent_generation = generation;
        }
        let mut queue: VecDeque<TileKey> = VecDeque::new();
        let mut i: usize = 0;
        assert(tiles@.take(0) =~= seq![]);
        while i < tiles.len()
            invariant
                i <= tiles@.len(),
                all_measurable(tiles@),
                all_measurable(queue@),
                queue@ == still_wanted(tiles@.take(i as int), self.sent@, received),
            decreases tiles@.len() - i,
        {
            let key = tiles[i];
            assert(tiles@.take(i + 1).drop_last() =~= tiles@.take(i as int));
            let coming = match self.sent.get(&key.code()) {
                Some(index) => *index >= received,
                None => false,
            };
            if !coming {
                queue.push_back(key);
            }
            i = i + 1;
        }
        assert(tiles@.take(i as int) =~= tiles@);
        self.job = Some(Job { generation, queue });
        busy
    }

    /// Takes the tiles that are drawn at once from the queue.
    fn take_batch(queue: &mut VecDeque<TileKey>, doc: &Document) -> (keys: Vec<TileKey>)
        requires
            old(queue)@.len() > 0,
            all_measurable(old(queue)@),
        ensures
            is_batch(old(queue)@, keys@.len() as int, doc.width, doc.height),
            keys@ == old(queue)@.take(keys@.len() as int),
            final(queue)@ == old(queue)@.skip(keys@.len() as int),
    {
        let ghost all = queue@;
        let mut keys: Vec<TileKey> = Vec::new();
        let mut area: usize = 0;
        assert(queue@ =~= all.skip(0));
        while queue.len() > 0
            invariant
                all == old(queue)@,
                keys@.len() <= all.len(),
                0 < all.len(),
                all_measurable(all),
                keys@ =~= all.take(keys@.len() as int),
                queue@ =~= all.skip(keys@.len() as int),
                area == if total_work(all, keys@.len() as int, doc.width, doc.height) > usize::MAX {
                    usize::MAX as int
                } else {
                    total_work(all, keys@.len() as int, doc.width, doc.height)
                },
                keys@.len() > 1 ==> total_work(all, keys@.len() as int, doc.width, doc.height)
                    <= BATCH_AREA,
            decreases queue@.len(),
        {
            let key = queue[0];
            let n: usize = keys.len();
            assert(key == all[n as int]);
            let more: usize = work_of(&key, doc);
            proof {
                total_work_bounds(all, n as int, doc.width, doc.height);
            }
            area = area.saturating_add(more);
            if n > 0 && area > BATCH_AREA {
                return keys;
            }
            let _ = queue.pop_front();
            keys.push(key);
        }
        keys
    }

    /// What is done next. Tiles that are to be drawn leave the queue.
    pub fn next(&mut self, doc: &Document) -> (r: Next)
        ensures
            match old(self)@.job {
                None => r is Wait && final(self)@ == old(self)@,
                Some(job) => if job.queue.len() == 0 {
                    r matches Next::Idle { generation } && generation == job.generation
                        && final(self)@ == (SchedulerView { job: None, ..old(self)@ })
                } else {
                    r matches Next::Draw { generation, keys } && generation == job.generation
                        && is_batch(job.queue, keys@.len() as int, doc.width, doc.height) && keys@
                        == job.queue.take(keys@.len() as int) && final(self)@ == (SchedulerView {
                        job: Some(
                            JobView { generation, queue: job.queue.skip(keys@.len() as int) },
                        ),
                        ..old(self)@
                    })
                },
            },
    {
        match self.job.take() {
            None => Next::Wait,
            Some(job) => {
                proof {
                    use_type_invariant(&job);
                }
                let generation: u64 = job.generation;
                let mut queue = job.queue;
                if queue.len() == 0 {
                    Next::Idle { generation }
                } else {
                    let keys = Self::take_batch(&mut queue, doc);
                    self.job = Some(Job { generation, queue });
                    Next::Draw { generation, keys }
                }
            },
        }
    }

    /// A tile has been sent.
    pub fn tile_sent(&mut self, key: &TileKey)
        requires
            old(self)@.next_index < u64::MAX,
        ensures
            final(self)@ == (SchedulerView {
                sent: old(self)@.sent.insert(key.number(), old(self)@.next_index),
                next_index: (old(self)@.next_index + 1) as u64,
                ..old(self)@
            }),
    {
        broadcast use vstd::std_specs::hash::group_hash_axioms;

        self.sent.insert(key.code(), self.next_index);
        self.next_index = self.next_index + 1;
    }

    /// Ends the job where nothing is left of it. The result is its generation, of which it is told
    /// that all tiles have been sent.
    pub fn finish(&mut self) -> (r: Option<u64>)
        ensures
            match old(self)@.job {
                Some(job) => if job.queue.len() == 0 {
                    r == Some(job.generation) && final(self)@ == (SchedulerView {
                        job: None,
                        ..old(self)@
                    })
                } else {
                    r is None && final(self)@ == old(self)@
                },
                None => r is None && final(self)@ == old(self)@,
            },
    {
        let done = match &self.job {
            Some(job) => if job.queue.len() == 0 {
                Some(job.generation)
            } else {
                None
            },
            None => None,
        };
        if done.is_some() {
            self.job = None;
        }
        done
    }
}

/// A tile is drawn for a request if and only if it was asked for and is not on its way. So what the
/// sender has merely not received yet is not drawn again, and what it has received and lost is.
pub proof fn wanted_tiles_are_drawn(
    s: Seq<TileKey>,
    sent: Map<u128, u64>,
    received: u64,
    key: TileKey,
)
    ensures
        still_wanted(s, sent, received).contains(key) <==> s.contains(key) && !on_its_way(
            sent,
            key,
            received,
        ),
    decreases s.len(),
{
    if s.len() > 0 {
        let before = s.drop_last();
        wanted_tiles_are_drawn(before, sent, received, key);
        let rest = still_wanted(before, sent, received);
        if s.contains(key) {
            let i = choose|i: int| 0 <= i < s.len() && s[i] == key;
            if i < before.len() {
                assert(before[i] == key);
            }
        }
        if before.contains(key) {
            let i = choose|i: int| 0 <= i < before.len() && before[i] == key;
            assert(s[i] == key);
        }
        assert(s[s.len() - 1] == s.last());
        let all = still_wanted(s, sent, received);
        if rest.contains(key) {
            let i = choose|i: int| 0 <= i < rest.len() && rest[i] == key;
            assert(all[i] == key);
        }
        if all.contains(key) && !rest.contains(key) {
            let i = choose|i: int| 0 <= i < all.len() && all[i] == key;
            assert(i >= rest.len());
        }
        if !on_its_way(sent, s.last(), received) {
            assert(all[rest.len() as int] == s.last());
        }
    }
}

/// Tiles that are drawn for a request are drawn in the order in which they were asked for.
pub proof fn wanted_tiles_keep_their_order(
    s: Seq<TileKey>,
    sent: Map<u128, u64>,
    received: u64,
    i: int,
    j: int,
)
    requires
        0 <= i < j < still_wanted(s, sent, received).len(),
    ensures
        exists|a: int, b: int|
            0 <= a < b < s.len() && #[trigger] s[a] == still_wanted(s, sent, received)[i]
                && #[trigger] s[b] == still_wanted(s, sent, received)[j],
    decreases s.len(),
{
    let before = s.drop_last();
    let rest = still_wanted(before, sent, received);
    if j < rest.len() {
        wanted_tiles_keep_their_order(before, sent, received, i, j);
        let (a, b) = choose|a: int, b: int|
            0 <= a < b < before.len() && #[trigger] before[a] == rest[i] && #[trigger] before[b]
                == rest[j];
        assert(s[a] == before[a] && s[b] == before[b]);
    } else {
        assert(rest.contains(rest[i]));
        wanted_tiles_are_drawn(before, sent, received, rest[i]);
        let a = choose|a: int| 0 <= a < before.len() && before[a] == rest[i];
        assert(s[a] == rest[i]);
        assert(s[s.len() - 1] == s.last());
    }
}

/// A tile that has just been sent is on its way for every sender that has not received it, as long
/// as the state of the display stays the same.
pub proof fn sent_tiles_are_on_their_way(before: SchedulerView, key: TileKey, received: u64)
    requires
        received <= before.next_index,
    ensures
        on_its_way(before.sent.insert(key.number(), before.next_index), key, received),
{
}

/// A request for another state of the display is drawn in full.
pub proof fn new_states_are_drawn_in_full(
    before: SchedulerView,
    generation: u64,
    s: Seq<TileKey>,
    received: u64,
)
    requires
        generation != before.sent_generation,
    ensures
        before.requested(generation, s, received).job == Some(JobView { generation, queue: s }),
{
    nothing_on_its_way(s, received);
}

/// Where nothing was sent, all is wanted.
proof fn nothing_on_its_way(s: Seq<TileKey>, received: u64)
    ensures
        still_wanted(s, Map::empty(), received) == s,
    decreases s.len(),
{
    if s.len() > 0 {
        nothing_on_its_way(s.drop_last(), received);
        assert(s =~= s.drop_last().push(s.last()));
    }
}

/// There is exactly one number of tiles that are drawn at once.
pub proof fn batches_are_unique(s: Seq<TileKey>, m: int, n: int, width: u32, height: u32)
    requires
        is_batch(s, m, width, height),
        is_batch(s, n, width, height),
    ensures
        m == n,
{
    if m < n {
        work_grows(s, m + 1, n, width, height);
    } else if n < m {
        work_grows(s, n + 1, m, width, height);
    }
}

/// More tiles are no less work.
proof fn work_grows(s: Seq<TileKey>, m: int, n: int, width: u32, height: u32)
    requires
        0 <= m <= n,
    ensures
        total_work(s, m, width, height) <= total_work(s, n, width, height),
    decreases n,
{
    if m < n {
        work_grows(s, m, n - 1, width, height);
    }
}

/// The work for a tile is the number of pixels of the canvas that are read for it: its pixels, times
/// the square of the reduction.
pub proof fn work_is_pixels_of_the_canvas(key: TileKey, width: u32, height: u32)
    requires
        measurable(key),
        ({
            let r = key.drawn(width, height);
            let step = vstd::arithmetic::power2::pow2(key.level as nat) as int;
            r.width * r.height * (step * step) <= usize::MAX
        }),
    ensures
        ({
            let r = key.drawn(width, height);
            let step = vstd::arithmetic::power2::pow2(key.level as nat) as int;
            work(key, width, height) == r.width * r.height * (step * step)
        }),
{
    let r = key.drawn(width, height);
    let level = key.level as nat;
    let step = vstd::arithmetic::power2::pow2(level) as int;
    vstd::arithmetic::power2::lemma_pow2_pos(level);
    assert(0 <= r.width * r.height <= r.width * r.height * (step * step)) by (nonlinear_arith)
        requires
            r.width >= 0,
            r.height >= 0,
            step >= 1,
    ;
    let area = (r.width * r.height) as usize;
    vstd::arithmetic::power2::lemma_pow2_adds(level, level);
    vstd::bits::lemma_usize_shl_is_mul(area, (2 * key.level) as usize);
}

/// A tile that was sent as number `index` is on its way for those who have received no more than
/// `index` tiles, and has arrived for all others. A tile that was not sent is not on its way.
pub proof fn tiles_arrive_in_turn(sent: Map<u128, u64>, key: TileKey, index: u64, received: u64)
    ensures
        on_its_way(sent.insert(key.number(), index), key, received) <==> received <= index,
        !sent.contains_key(key.number()) ==> !on_its_way(sent, key, received),
{
}

/// As many tiles are drawn at once as together take no more than two million pixels of the canvas,
/// and at least one.
pub proof fn batches_are_as_large_as_allowed(s: Seq<TileKey>, n: int, width: u32, height: u32)
    requires
        is_batch(s, n, width, height),
    ensures
        1 <= n <= s.len(),
        n == 1 || total_work(s, n, width, height) <= 2_000_000,
        n == s.len() || total_work(s, n, width, height) + work(s[n], width, height) > 2_000_000,
{
}

/// A request for the same state of the display remembers what was sent, and one for another state
/// forgets it. The numbers of the tiles go on.
pub proof fn requests_remember_what_was_sent(
    before: SchedulerView,
    generation: u64,
    s: Seq<TileKey>,
    received: u64,
)
    ensures
        ({
            let after = before.requested(generation, s, received);
            &&& generation == before.sent_generation ==> after.sent == before.sent
            &&& generation != before.sent_generation ==> after.sent == Map::<u128, u64>::empty()
            &&& after.sent_generation == generation
            &&& after.next_index == before.next_index
            &&& after.job is Some && after.job->0.generation == generation
        }),
{
}

} // verus!
