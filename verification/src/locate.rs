//! Finding the channels of a file that may have lost part of its data.
use vstd::prelude::*;

use crate::bytes;
use crate::channel;
use crate::packbits;

verus! {

/// How many later channels have to agree with a found position.
pub const CONFIRM: u32 = 4;

/// How many channels are looked for before giving up.
pub const MAX_TRIES: u32 = 64;

/// The declared place and size of a channel.
#[derive(Clone, Copy, Debug)]
pub struct Slot {
    /// The layer that the channel belongs to.
    pub record: usize,
    pub id: i16,
    pub len: u64,
    pub width: usize,
    pub height: usize,
    pub declared: u64,
}

impl Slot {
    /// The sizes are those of a rectangle.
    pub open spec fn wf(self) -> bool {
        self.width <= u32::MAX && self.height <= u32::MAX
    }

    /// Whether the channel has no pixels.
    pub open spec fn empty(self) -> bool {
        self.width == 0 || self.height == 0
    }

    /// Whether the channel has no pixels.
    pub fn is_empty(&self) -> (r: bool)
        ensures
            r == self.empty(),
    {
        self.width == 0 || self.height == 0
    }
}

/// Whether the compression field and the lengths at `pos` agree with the declared size.
///
/// Pixels stored as they are fill the channel, the row lengths of packed pixels add up to what
/// the channel holds after their table, and the two other known methods are taken on trust.
pub open spec fn header_sound(d: Seq<u8>, pos: int, slot: Slot, psb: bool) -> bool {
    &&& bytes::within(d, pos, slot.len as int)
    &&& if slot.len < 2 {
        slot.len == 0
    } else if bytes::be16(d, pos) == 0 {
        slot.len == 2 + slot.width * slot.height
    } else if bytes::be16(d, pos) == 1 {
        let table = slot.height * channel::entry_size(psb);
        &&& slot.len >= 2 + table
        &&& channel::rows_total(d, pos + 2, slot.height as int, psb) == slot.len - 2 - table
    } else {
        bytes::be16(d, pos) == 2 || bytes::be16(d, pos) == 3
    }
}

/// Where the packed bytes of row `row` of the channel at `pos` begin.
pub open spec fn packed_from(d: Seq<u8>, pos: int, slot: Slot, row: int, psb: bool) -> int {
    pos + 2 + slot.height * channel::entry_size(psb) + channel::rows_total(d, pos + 2, row, psb)
}

/// Whether the packed bytes of row `row` of the channel at `pos` exist and expand to the declared
/// width.
pub open spec fn row_sound(d: Seq<u8>, pos: int, slot: Slot, row: int, psb: bool) -> bool {
    let from = packed_from(d, pos, slot, row, psb);
    let n = channel::row_len_at(d, pos + 2 + row * channel::entry_size(psb), psb);
    bytes::within(d, from, n) && packbits::packed_len(d.subrange(from, from + n)) == Some(
        slot.width as nat,
    )
}

/// Whether every row of the channel at `pos` is sound, where the channel is packed.
pub open spec fn rows_sound(d: Seq<u8>, pos: int, slot: Slot, psb: bool) -> bool {
    slot.empty() || !bytes::within(d, pos, 2) || bytes::be16(d, pos) != 1 || forall|row: int|
        0 <= row < slot.height ==> #[trigger] row_sound(d, pos, slot, row, psb)
}

/// The first `n` positions at which a packed channel may begin: those that hold the number 1.
pub open spec fn candidates(d: Seq<u8>, n: int) -> Seq<u64>
    decreases n,
{
    if n <= 0 {
        seq![]
    } else if bytes::within(d, n - 1, 2) && bytes::be16(d, n - 1) == 1 {
        candidates(d, n - 1).push((n - 1) as u64)
    } else {
        candidates(d, n - 1)
    }
}

/// Whether the channel, moved by `shift`, has a sound header.
pub open spec fn readable(d: Seq<u8>, slot: Slot, shift: int, psb: bool) -> bool {
    0 <= slot.declared + shift <= u64::MAX && header_sound(d, slot.declared + shift, slot, psb)
}

/// Whether the next `left` channels with pixels, from `k` on, are all readable under `shift`.
pub open spec fn confirmed(
    d: Seq<u8>,
    slots: Seq<Slot>,
    k: int,
    left: int,
    shift: int,
    psb: bool,
) -> bool
    decreases slots.len() - k,
{
    if k >= slots.len() || left <= 0 {
        true
    } else if slots[k].empty() {
        confirmed(d, slots, k + 1, left, shift, psb)
    } else {
        readable(d, slots[k], shift, psb) && confirmed(d, slots, k + 1, left - 1, shift, psb)
    }
}

/// Whether channel `k` can be taken to begin at `pos`. How far that lies from its declared place
/// has to fit in 64 bits.
pub open spec fn matches_at(d: Seq<u8>, slots: Seq<Slot>, k: int, pos: int, psb: bool) -> bool {
    &&& i64::MIN <= pos - slots[k].declared
    &&& header_sound(d, pos, slots[k], psb)
    &&& confirmed(d, slots, k + 1, CONFIRM as int, pos - slots[k].declared, psb)
}

/// The first of `positions`, from its `j`-th on, at which channel `k` can be taken to begin.
pub open spec fn first_match(
    d: Seq<u8>,
    slots: Seq<Slot>,
    k: int,
    positions: Seq<u64>,
    j: int,
    psb: bool,
) -> Option<int>
    decreases positions.len() - j,
{
    if j >= positions.len() {
        None
    } else if matches_at(d, slots, k, positions[j] as int, psb) {
        Some(positions[j] as int)
    } else {
        first_match(d, slots, k, positions, j + 1, psb)
    }
}

/// The first of the next `tries` channels with pixels, from `k` on, that is found anywhere, and
/// how far it lies from its declared place.
pub open spec fn found_again(
    d: Seq<u8>,
    slots: Seq<Slot>,
    k: int,
    positions: Seq<u64>,
    tries: int,
    psb: bool,
) -> Option<(int, int)>
    decreases slots.len() - k,
{
    if k >= slots.len() || tries <= 0 {
        None
    } else if slots[k].empty() {
        found_again(d, slots, k + 1, positions, tries, psb)
    } else {
        match first_match(d, slots, k, positions, 0, psb) {
            Some(pos) => Some((k, pos - slots[k].declared)),
            None => found_again(d, slots, k + 1, positions, tries - 1, psb),
        }
    }
}

/// `starts` without the channels right before `j`, back to `segment`, whose rows are not sound.
pub open spec fn without_unsound(
    d: Seq<u8>,
    slots: Seq<Slot>,
    starts: Seq<Option<u64>>,
    segment: int,
    j: int,
    psb: bool,
) -> Seq<Option<u64>>
    decreases j - segment,
{
    if j <= segment {
        starts
    } else {
        match starts[j - 1] {
            Some(pos) => if rows_sound(d, pos as int, slots[j - 1], psb) {
                starts
            } else {
                without_unsound(d, slots, starts.update(j - 1, None), segment, j - 1, psb)
            },
            None => starts,
        }
    }
}

/// Where the channels from `k` on begin, given what was settled before.
///
/// A channel whose header is sound where `shift` puts it begins there. At the first other one,
/// the channels just before it whose rows are not sound are given up, back to `segment`, and
/// reading goes on at the next channel that is found again; where none is, the rest is lost.
pub open spec fn located_from(
    d: Seq<u8>,
    slots: Seq<Slot>,
    k: int,
    segment: int,
    starts: Seq<Option<u64>>,
    shift: int,
    psb: bool,
) -> (Seq<Option<u64>>, int)
    decreases slots.len() - k,
{
    if k >= slots.len() {
        (starts, shift)
    } else if readable(d, slots[k], shift, psb) {
        let next = starts.update(k, Some((slots[k].declared + shift) as u64));
        located_from(d, slots, k + 1, segment, next, shift, psb)
    } else {
        let kept = without_unsound(d, slots, starts, segment, k, psb);
        match found_again(d, slots, k, candidates(d, d.len() as int), MAX_TRIES as int, psb) {
            Some((next, moved)) => if k <= next < slots.len() {
                let begun = kept.update(next, Some((slots[next].declared + moved) as u64));
                located_from(d, slots, next + 1, next, begun, moved, psb)
            } else {
                (kept, shift)
            },
            None => (kept, shift),
        }
    }
}

/// Where each channel begins, where it was found, and how far the last ones lie from their
/// declared places.
pub open spec fn located(d: Seq<u8>, slots: Seq<Slot>, psb: bool) -> (Seq<Option<u64>>, int) {
    located_from(d, slots, 0, 0, Seq::new(slots.len(), |k: int| None), 0, psb)
}

/// What is found again lies at or after `k`, is readable where it was found, and so are the next
/// channels under the same shift.
pub proof fn found_again_is_readable(
    d: Seq<u8>,
    slots: Seq<Slot>,
    k: int,
    positions: Seq<u64>,
    tries: int,
    psb: bool,
)
    requires
        0 <= k,
    ensures
        found_again(d, slots, k, positions, tries, psb) matches Some((next, moved)) ==> k <= next
            < slots.len() && readable(d, slots[next], moved, psb) && confirmed(
            d,
            slots,
            next + 1,
            CONFIRM as int,
            moved,
            psb,
        ),
    decreases slots.len() - k,
{
    if k < slots.len() && tries > 0 {
        if slots[k].empty() {
            found_again_is_readable(d, slots, k + 1, positions, tries, psb);
        } else {
            first_match_is_readable(d, slots, k, positions, 0, psb);
            found_again_is_readable(d, slots, k + 1, positions, tries - 1, psb);
        }
    }
}

proof fn first_match_is_readable(
    d: Seq<u8>,
    slots: Seq<Slot>,
    k: int,
    positions: Seq<u64>,
    j: int,
    psb: bool,
)
    requires
        0 <= j,
    ensures
        first_match(d, slots, k, positions, j, psb) matches Some(pos) ==> 0 <= pos <= u64::MAX
            && matches_at(d, slots, k, pos, psb),
    decreases positions.len() - j,
{
    if j < positions.len() {
        first_match_is_readable(d, slots, k, positions, j + 1, psb);
    }
}

/// How many channels with pixels there are from `k` up to, but not including, `j`.
pub open spec fn filled(slots: Seq<Slot>, k: int, j: int) -> int
    decreases j - k,
{
    if k >= j {
        0
    } else if slots[k].empty() {
        filled(slots, k + 1, j)
    } else {
        1 + filled(slots, k + 1, j)
    }
}

/// A channel that can be taken to begin at some place with the number 1 is found again, unless
/// one before it is, or too many before it are not. It is found at the first such place.
pub proof fn displaced_channels_are_found(
    d: Seq<u8>,
    slots: Seq<Slot>,
    k: int,
    j: int,
    pos: int,
    psb: bool,
)
    requires
        0 <= k <= j < slots.len(),
        !slots[j].empty(),
        filled(slots, k, j) < MAX_TRIES,
        d.len() <= u64::MAX,
        bytes::within(d, pos, 2),
        bytes::be16(d, pos) == 1,
        matches_at(d, slots, j, pos, psb),
    ensures
        found_again(
            d,
            slots,
            k,
            candidates(d, d.len() as int),
            MAX_TRIES as int,
            psb,
        ) matches Some((next, moved)) && k <= next <= j && (next == j ==> moved <= pos
            - slots[j].declared),
{
    let positions = candidates(d, d.len() as int);
    candidates_are_all(d, d.len() as int, pos);
    let i = choose|i: int| 0 <= i < positions.len() && positions[i] == pos;
    found_at_latest(d, slots, k, j, positions, i, MAX_TRIES as int, psb);
}

proof fn found_at_latest(
    d: Seq<u8>,
    slots: Seq<Slot>,
    k: int,
    j: int,
    positions: Seq<u64>,
    i: int,
    tries: int,
    psb: bool,
)
    requires
        0 <= k <= j < slots.len(),
        !slots[j].empty(),
        filled(slots, k, j) < tries,
        0 <= i < positions.len(),
        forall|a: int, b: int|
            0 <= a < b < positions.len() ==> (#[trigger] positions[a]) < (#[trigger] positions[b]),
        matches_at(d, slots, j, positions[i] as int, psb),
    ensures
        found_again(d, slots, k, positions, tries, psb) matches Some((next, moved)) && k <= next
            <= j && (next == j ==> moved <= positions[i] - slots[j].declared),
    decreases j - k,
{
    filled_bounds(slots, k, j);
    if k == j {
        matched_at_latest(d, slots, k, positions, 0, i, psb);
    } else {
        filled_bounds(slots, k + 1, j);
        if slots[k].empty() {
            found_at_latest(d, slots, k + 1, j, positions, i, tries, psb);
        } else if first_match(d, slots, k, positions, 0, psb) is None {
            found_at_latest(d, slots, k + 1, j, positions, i, tries - 1, psb);
        }
    }
}

proof fn matched_at_latest(
    d: Seq<u8>,
    slots: Seq<Slot>,
    k: int,
    positions: Seq<u64>,
    from: int,
    i: int,
    psb: bool,
)
    requires
        0 <= from <= i < positions.len(),
        forall|a: int, b: int|
            0 <= a < b < positions.len() ==> (#[trigger] positions[a]) < (#[trigger] positions[b]),
        matches_at(d, slots, k, positions[i] as int, psb),
    ensures
        first_match(d, slots, k, positions, from, psb) matches Some(pos) && pos <= positions[i],
    decreases i - from,
{
    if from < i && !matches_at(d, slots, k, positions[from] as int, psb) {
        matched_at_latest(d, slots, k, positions, from + 1, i, psb);
    }
}

/// A count is not negative.
pub proof fn filled_bounds(slots: Seq<Slot>, k: int, j: int)
    ensures
        0 <= filled(slots, k, j),
    decreases j - k,
{
    if k < j {
        filled_bounds(slots, k + 1, j);
    }
}

/// The candidates rise, and every position with the number 1 is among them.
pub proof fn candidates_are_all(d: Seq<u8>, n: int, pos: int)
    requires
        0 <= n <= d.len() <= u64::MAX,
    ensures
        forall|a: int, b: int|
            0 <= a < b < candidates(d, n).len() ==> (#[trigger] candidates(d, n)[a]) < (
            #[trigger] candidates(d, n)[b]),
        forall|a: int| 0 <= a < candidates(d, n).len() ==> (#[trigger] candidates(d, n)[a]) < n,
        bytes::within(d, pos, 2) && bytes::be16(d, pos) == 1 && pos < n ==> exists|i: int|
            0 <= i < candidates(d, n).len() && #[trigger] candidates(d, n)[i] == pos,
    decreases n,
{
    if n > 0 {
        candidates_are_all(d, n - 1, pos);
        let before = candidates(d, n - 1);
        let all = candidates(d, n);
        if bytes::within(d, pos, 2) && bytes::be16(d, pos) == 1 && pos < n {
            if pos == n - 1 {
                assert(all[before.len() as int] == pos);
            } else {
                let i = choose|i: int| 0 <= i < before.len() && #[trigger] before[i] == pos;
                assert(all[i] == pos);
            }
        }
    }
}

/// Channels are only given up, never moved, and none before `segment` is given up.
pub proof fn without_unsound_keeps(
    d: Seq<u8>,
    slots: Seq<Slot>,
    starts: Seq<Option<u64>>,
    segment: int,
    j: int,
    psb: bool,
)
    requires
        0 <= segment,
        j <= starts.len(),
    ensures
        without_unsound(d, slots, starts, segment, j, psb).len() == starts.len(),
        forall|i: int|
            0 <= i < segment && i < starts.len() ==> #[trigger] without_unsound(
                d,
                slots,
                starts,
                segment,
                j,
                psb,
            )[i] == starts[i],
        forall|i: int|
            0 <= i < starts.len() ==> ((#[trigger] without_unsound(
                d,
                slots,
                starts,
                segment,
                j,
                psb,
            )[i]) is Some ==> without_unsound(d, slots, starts, segment, j, psb)[i] == starts[i]),
    decreases j - segment,
{
    if j > segment {
        match starts[j - 1] {
            Some(pos) => {
                without_unsound_keeps(
                    d,
                    slots,
                    starts.update(j - 1, None),
                    segment,
                    j - 1,
                    psb,
                );
            },
            None => {},
        }
    }
}

/// Every channel that was found has a sound header where it was found.
pub proof fn found_channels_are_sound(d: Seq<u8>, slots: Seq<Slot>, psb: bool)
    ensures
        located(d, slots, psb).0.len() == slots.len(),
        forall|k: int|
            0 <= k < slots.len() ==> (#[trigger] located(d, slots, psb).0[k] matches Some(pos)
                ==> header_sound(d, pos as int, slots[k], psb)),
{
    located_from_is_sound(d, slots, 0, 0, Seq::new(slots.len(), |k: int| None), 0, psb);
}

proof fn located_from_is_sound(
    d: Seq<u8>,
    slots: Seq<Slot>,
    k: int,
    segment: int,
    starts: Seq<Option<u64>>,
    shift: int,
    psb: bool,
)
    requires
        0 <= segment <= k <= slots.len(),
        starts.len() == slots.len(),
        forall|i: int|
            0 <= i < slots.len() ==> (#[trigger] starts[i] matches Some(pos) ==> header_sound(
                d,
                pos as int,
                slots[i],
                psb,
            )),
    ensures
        located_from(d, slots, k, segment, starts, shift, psb).0.len() == slots.len(),
        forall|i: int|
            0 <= i < slots.len() ==> (#[trigger] located_from(
                d,
                slots,
                k,
                segment,
                starts,
                shift,
                psb,
            ).0[i] matches Some(pos) ==> header_sound(d, pos as int, slots[i], psb)),
    decreases slots.len() - k,
{
    if k >= slots.len() {
    } else if readable(d, slots[k], shift, psb) {
        let next = starts.update(k, Some((slots[k].declared + shift) as u64));
        located_from_is_sound(d, slots, k + 1, segment, next, shift, psb);
    } else {
        let kept = without_unsound(d, slots, starts, segment, k, psb);
        without_unsound_keeps(d, slots, starts, segment, k, psb);
        let positions = candidates(d, d.len() as int);
        found_again_is_readable(d, slots, k, positions, MAX_TRIES as int, psb);
        match found_again(d, slots, k, positions, MAX_TRIES as int, psb) {
            Some((next, moved)) => {
                let begun = kept.update(next, Some((slots[next].declared + moved) as u64));
                located_from_is_sound(d, slots, next + 1, next, begun, moved, psb);
            },
            None => {},
        }
    }
}

/// Where every header is sound at its declared place, every channel begins there and nothing
/// has moved.
pub proof fn intact_channels_stay_in_place(d: Seq<u8>, slots: Seq<Slot>, psb: bool)
    requires
        forall|k: int|
            0 <= k < slots.len() ==> header_sound(
                d,
                (#[trigger] slots[k]).declared as int,
                slots[k],
                psb,
            ),
    ensures
        located(d, slots, psb).1 == 0,
        located(d, slots, psb).0 == Seq::new(slots.len(), |k: int| Some(slots[k].declared)),
{
    intact_from(d, slots, 0, Seq::new(slots.len(), |k: int| None), psb);
}

proof fn intact_from(d: Seq<u8>, slots: Seq<Slot>, k: int, starts: Seq<Option<u64>>, psb: bool)
    requires
        0 <= k <= slots.len(),
        starts.len() == slots.len(),
        forall|i: int|
            0 <= i < slots.len() ==> header_sound(
                d,
                (#[trigger] slots[i]).declared as int,
                slots[i],
                psb,
            ),
        forall|i: int| 0 <= i < k ==> #[trigger] starts[i] == Some(slots[i].declared),
    ensures
        located_from(d, slots, k, 0, starts, 0, psb).1 == 0,
        located_from(d, slots, k, 0, starts, 0, psb).0 == Seq::new(
            slots.len(),
            |i: int| Some(slots[i].declared),
        ),
    decreases slots.len() - k,
{
    if k < slots.len() {
        assert(slots[k].declared + 0 == slots[k].declared);
        assert(readable(d, slots[k], 0, psb));
        intact_from(d, slots, k + 1, starts.update(k, Some((slots[k].declared + 0) as u64)), psb);
    } else {
        assert(starts =~= Seq::new(slots.len(), |i: int| Some(slots[i].declared)));
    }
}

/// Where the last channel is found, it lies as far from its declared place as what follows it is
/// said to.
pub proof fn last_channel_lies_at_the_shift(d: Seq<u8>, slots: Seq<Slot>, psb: bool)
    requires
        slots.len() > 0,
    ensures
        located(d, slots, psb).0.len() == slots.len(),
        located(d, slots, psb).0.last() matches Some(pos) ==> pos == slots.last().declared
            + located(d, slots, psb).1,
{
    found_channels_are_sound(d, slots, psb);
    last_start_from(d, slots, 0, 0, Seq::new(slots.len(), |k: int| None), 0, psb);
}

proof fn last_start_from(
    d: Seq<u8>,
    slots: Seq<Slot>,
    k: int,
    segment: int,
    starts: Seq<Option<u64>>,
    shift: int,
    psb: bool,
)
    requires
        0 < slots.len(),
        0 <= segment <= k <= slots.len(),
        starts.len() == slots.len(),
        forall|i: int| k <= i < slots.len() ==> #[trigger] starts[i] is None,
        k == slots.len() ==> (starts.last() matches Some(pos) ==> pos == slots.last().declared
            + shift),
    ensures
        ({
            let r = located_from(d, slots, k, segment, starts, shift, psb);
            &&& r.0.len() == slots.len()
            &&& r.0.last() matches Some(pos) ==> pos == slots.last().declared + r.1
        }),
    decreases slots.len() - k,
{
    if k >= slots.len() {
    } else if readable(d, slots[k], shift, psb) {
        let next = starts.update(k, Some((slots[k].declared + shift) as u64));
        last_start_from(d, slots, k + 1, segment, next, shift, psb);
    } else {
        let kept = without_unsound(d, slots, starts, segment, k, psb);
        let positions = candidates(d, d.len() as int);
        without_unsound_keeps(d, slots, starts, segment, k, psb);
        found_again_is_readable(d, slots, k, positions, MAX_TRIES as int, psb);
        assert forall|i: int| k <= i < slots.len() implies #[trigger] kept[i] is None by {
            assert(starts[i] is None);
        }
        if let Some((next, moved)) = found_again(d, slots, k, positions, MAX_TRIES as int, psb) {
            let begun = kept.update(next, Some((slots[next].declared + moved) as u64));
            last_start_from(d, slots, next + 1, next, begun, moved, psb);
        }
    }
}

/// A channel whose header and rows are sound reads row by row as what its packed bytes stand for,
/// with nothing cut off and nothing filled up.
pub proof fn sound_rows_read_whole(d: Seq<u8>, pos: int, slot: Slot, row: int, psb: bool)
    requires
        slot.wf(),
        d.len() <= u64::MAX,
        slot.len <= u32::MAX,
        header_sound(d, pos, slot, psb),
        rows_sound(d, pos, slot, psb),
        slot.len >= 2,
        bytes::be16(d, pos) == 1,
        0 <= row < slot.height,
        slot.width > 0,
    ensures
        ({
            let read = channel::channel_at(
                d,
                pos,
                slot.len as int,
                slot.width as int,
                slot.height as int,
                psb,
            );
            let from = packed_from(d, pos, slot, row, psb);
            let n = channel::row_len_at(d, pos + 2 + row * channel::entry_size(psb), psb);
            &&& read.compression == channel::Compression::Rle
            &&& packbits::expand(d.subrange(from, from + n)).len() == slot.width
            &&& channel::row_pixels(read, d, row) == packbits::expand(d.subrange(from, from + n))
        }),
{
    let read = channel::channel_at(d, pos, slot.len as int, slot.width as int, slot.height as int, psb);
    let height = slot.height as int;
    let table = pos + 2;
    let from = packed_from(d, pos, slot, row, psb);
    let n = channel::row_len_at(d, table + row * channel::entry_size(psb), psb);
    assert(row_sound(d, pos, slot, row, psb));
    rows_total_grows(d, table, row, height, psb);
    rows_total_grows(d, table, row + 1, height, psb);
    channel::rows_total_bounds(d, table, row, psb);
    channel::rows_total_bounds(d, table, row + 1, psb);
    let first = height * channel::entry_size(psb) + channel::rows_total(d, table, row, psb);
    assert(channel::rows_total(d, table, row + 1, psb) == channel::rows_total(d, table, row, psb) + n);
    assert(read.rows[row] == first);
    assert(read.rows[row + 1] == first + n);
    packbits::packed_len_is_expanded_len(d.subrange(from, from + n));
    assert(channel::row_pixels(read, d, row) =~= packbits::expand(d.subrange(from, from + n)));
}

/// Whether the compression field and the lengths at `pos` agree with the declared size.
pub fn header_ok(data: &[u8], pos: u64, slot: &Slot, psb: bool) -> (r: bool)
    requires
        slot.wf(),
    ensures
        r == header_sound(data@, pos as int, *slot, psb),
{
    assert(data@.len() == data.len());
    if bytes::slice_at(data, pos, slot.len).is_none() {
        return false;
    }
    if slot.len < 2 {
        return slot.len == 0;
    }
    let kind: u16 = match bytes::read16(data, pos) {
        Some(v) => v,
        None => return false,
    };
    if kind == 0 {
        proof {
            assert(slot.width * slot.height <= 4294967295 * 4294967295) by (nonlinear_arith)
                requires
                    0 <= slot.width <= 4294967295,
                    0 <= slot.height <= 4294967295,
            ;
            assert(slot.width * slot.height >= 0) by (nonlinear_arith)
                requires
                    0 <= slot.width,
                    0 <= slot.height,
            ;
        }
        slot.len == 2 + slot.width as u64 * slot.height as u64
    } else if kind == 1 {
        let entry: u64 = if psb { 4 } else { 2 };
        let height: u64 = slot.height as u64;
        let table: u64 = height * entry;
        if slot.len < 2 + table {
            return false;
        }
        let expected: u64 = slot.len - 2 - table;
        let mut sum: u64 = 0;
        let mut i: u64 = 0;
        while i < height
            invariant
                i <= height == slot.height,
                height <= u32::MAX,
                entry == channel::entry_size(psb),
                sum == channel::rows_total(data@, pos + 2, i as int, psb),
                sum <= expected,
                pos + 2 + height * entry <= data@.len() == data.len(),
                expected == slot.len - 2 - slot.height * channel::entry_size(psb),
                bytes::be16(data@, pos as int) == 1,
                slot.len >= 2,
            decreases height - i,
        {
            let n: u32 = channel::read_row_len(data, pos + 2 + i * entry, psb);
            if n as u64 > expected - sum {
                proof {
                    rows_total_grows(data@, pos + 2, i + 1, height as int, psb);
                }
                return false;
            }
            sum = sum + n as u64;
            i = i + 1;
        }
        sum == expected
    } else {
        kind == 2 || kind == 3
    }
}

/// A longer table adds up to no less.
pub proof fn rows_total_grows(d: Seq<u8>, table: int, m: int, n: int, psb: bool)
    requires
        m <= n,
    ensures
        channel::rows_total(d, table, m, psb) <= channel::rows_total(d, table, n, psb),
    decreases n - m,
{
    if m < n {
        rows_total_grows(d, table, m, n - 1, psb);
        channel::rows_total_bounds(d, table, n - 1, psb);
        if n <= 0 {
            assert(channel::rows_total(d, table, m, psb) == 0);
        }
    }
}

/// Whether every row of the channel at `pos` is sound, where the channel is packed.
pub fn rows_ok(data: &[u8], pos: u64, slot: &Slot, psb: bool) -> (r: bool)
    requires
        slot.wf(),
    ensures
        r == rows_sound(data@, pos as int, *slot, psb),
{
    assert(data@.len() == data.len());
    if slot.is_empty() {
        return true;
    }
    match bytes::read16(data, pos) {
        Some(kind) => if kind != 1 {
            return true;
        },
        None => return true,
    }
    let entry: u64 = if psb { 4 } else { 2 };
    let height: u64 = slot.height as u64;
    let mut from: u64 = (pos + 2).saturating_add(height * entry);
    let mut row: u64 = 0;
    while row < height
        invariant
            slot.wf(),
            row <= height == slot.height,
            entry == channel::entry_size(psb),
            data@.len() == data.len(),
            from == channel::min2(packed_from(data@, pos as int, *slot, row as int, psb), u64::MAX as int),
            forall|k: int| 0 <= k < row ==> #[trigger] row_sound(data@, pos as int, *slot, k, psb),
            bytes::within(data@, pos as int, 2),
            bytes::be16(data@, pos as int) == 1,
            !slot.empty(),
        decreases height - row,
    {
        let n: u32 = channel::read_row_len(data, (pos + 2).saturating_add(row * entry), psb);
        assert(n == channel::row_len_at(data@, pos + 2 + row * entry, psb));
        proof {
            channel::rows_total_bounds(data@, pos + 2, row as int, psb);
            assert(packbits::packed_len(Seq::<u8>::empty()) == Some(0nat));
        }
        let src = match bytes::slice_at(data, from, n as u64) {
            Some(s) => s,
            None => {
                assert(!row_sound(data@, pos as int, *slot, row as int, psb));
                return false;
            },
        };
        if !packbits::expands_to(src, slot.width as u64) {
            assert(!row_sound(data@, pos as int, *slot, row as int, psb));
            return false;
        }
        proof {
            if n == 0 {
                assert(src@ =~= Seq::<u8>::empty());
            }
            assert(row_sound(data@, pos as int, *slot, row as int, psb));
        }
        from = from.saturating_add(n as u64);
        row = row + 1;
    }
    true
}

/// The positions at which a packed channel may begin.
fn rle_candidates(data: &[u8]) -> (r: Vec<u64>)
    ensures
        r@ == candidates(data@, data@.len() as int),
{
    let size: usize = data.len();
    let mut r: Vec<u64> = Vec::new();
    let mut i: usize = 0;
    while i < size
        invariant
            i <= size == data@.len(),
            r@ == candidates(data@, i as int),
        decreases size - i,
    {
        if size - i >= 2 && data[i] == 0 && data[i + 1] == 1 {
            r.push(i as u64);
        }
        i = i + 1;
    }
    r
}

/// The channel's place under `shift`, where its header is sound there.
fn readable_at(data: &[u8], slot: &Slot, shift: i128, psb: bool) -> (r: Option<u64>)
    requires
        slot.wf(),
        -u64::MAX <= shift <= u64::MAX,
    ensures
        r is Some <==> readable(data@, *slot, shift as int, psb),
        r matches Some(pos) ==> pos == slot.declared + shift,
{
    let place: i128 = slot.declared as i128 + shift;
    if 0 <= place && place <= u64::MAX as i128 && header_ok(data, place as u64, slot, psb) {
        Some(place as u64)
    } else {
        None
    }
}

/// Whether the next `CONFIRM` channels with pixels, from `k` on, are all readable under `shift`.
fn is_confirmed(data: &[u8], slots: &Vec<Slot>, k: usize, shift: i128, psb: bool) -> (r: bool)
    requires
        k <= slots@.len(),
        forall|i: int| 0 <= i < slots@.len() ==> (#[trigger] slots@[i]).wf(),
        -u64::MAX <= shift <= u64::MAX,
    ensures
        r == confirmed(data@, slots@, k as int, CONFIRM as int, shift as int, psb),
{
    let mut i: usize = k;
    let mut left: u32 = CONFIRM;
    while i < slots.len() && left > 0
        invariant
            i <= slots@.len(),
            forall|j: int| 0 <= j < slots@.len() ==> (#[trigger] slots@[j]).wf(),
            -u64::MAX <= shift <= u64::MAX,
            confirmed(data@, slots@, k as int, CONFIRM as int, shift as int, psb) == confirmed(
                data@,
                slots@,
                i as int,
                left as int,
                shift as int,
                psb,
            ),
        decreases slots@.len() - i,
    {
        if !slots[i].is_empty() {
            if readable_at(data, &slots[i], shift, psb).is_none() {
                return false;
            }
            left = left - 1;
        }
        i = i + 1;
    }
    true
}

/// The first position at which channel `k` can be taken to begin.
fn find_match(data: &[u8], slots: &Vec<Slot>, k: usize, positions: &Vec<u64>, psb: bool) -> (r:
    Option<u64>)
    requires
        k < slots@.len(),
        forall|i: int| 0 <= i < slots@.len() ==> (#[trigger] slots@[i]).wf(),
    ensures
        (match r {
            Some(pos) => Some(pos as int),
            None => None,
        }) == first_match(data@, slots@, k as int, positions@, 0, psb),
{
    assert(slots@.len() == slots.len());
    let mut j: usize = 0;
    while j < positions.len()
        invariant
            j <= positions@.len(),
            k < slots@.len() == slots.len(),
            forall|i: int| 0 <= i < slots@.len() ==> (#[trigger] slots@[i]).wf(),
            first_match(data@, slots@, k as int, positions@, 0, psb) == first_match(
                data@,
                slots@,
                k as int,
                positions@,
                j as int,
                psb,
            ),
        decreases positions@.len() - j,
    {
        let pos: u64 = positions[j];
        let shift: i128 = pos as i128 - slots[k].declared as i128;
        if shift >= i64::MIN as i128 && header_ok(data, pos, &slots[k], psb) {
            if is_confirmed(data, slots, k + 1, shift, psb) {
                return Some(pos);
            }
        }
        j = j + 1;
    }
    None
}

/// Looks for the next channel from `from` on whose actual place is found and agrees with those
/// after it.
fn resync(data: &[u8], slots: &Vec<Slot>, from: usize, positions: &Vec<u64>, psb: bool) -> (r:
    Option<(usize, i128)>)
    requires
        from <= slots@.len(),
        forall|i: int| 0 <= i < slots@.len() ==> (#[trigger] slots@[i]).wf(),
    ensures
        (match r {
            Some((k, shift)) => Some((k as int, shift as int)),
            None => None,
        }) == found_again(data@, slots@, from as int, positions@, MAX_TRIES as int, psb),
        r matches Some((k, shift)) ==> from <= k < slots@.len() && -u64::MAX <= shift <= u64::MAX,
{
    let mut k: usize = from;
    let mut tries: u32 = MAX_TRIES;
    while k < slots.len() && tries > 0
        invariant
            from <= k <= slots@.len(),
            forall|i: int| 0 <= i < slots@.len() ==> (#[trigger] slots@[i]).wf(),
            found_again(data@, slots@, from as int, positions@, MAX_TRIES as int, psb)
                == found_again(data@, slots@, k as int, positions@, tries as int, psb),
        decreases slots@.len() - k,
    {
        if !slots[k].is_empty() {
            match find_match(data, slots, k, positions, psb) {
                Some(pos) => return Some((k, pos as i128 - slots[k].declared as i128)),
                None => {},
            }
            tries = tries - 1;
        }
        k = k + 1;
    }
    None
}

/// Gives up the channels right before `k`, back to `segment`, whose rows are not sound.
fn drop_unsound(
    data: &[u8],
    slots: &Vec<Slot>,
    starts: &mut Vec<Option<u64>>,
    segment: usize,
    k: usize,
    psb: bool,
)
    requires
        segment <= k <= slots@.len() == old(starts)@.len(),
        forall|i: int| 0 <= i < slots@.len() ==> (#[trigger] slots@[i]).wf(),
    ensures
        final(starts)@ == without_unsound(
            data@,
            slots@,
            old(starts)@,
            segment as int,
            k as int,
            psb,
        ),
        final(starts)@.len() == old(starts)@.len(),
{
    let mut j: usize = k;
    while j > segment
        invariant
            segment <= j <= k <= slots@.len() == starts@.len(),
            old(starts)@.len() == starts@.len(),
            forall|i: int| 0 <= i < slots@.len() ==> (#[trigger] slots@[i]).wf(),
            without_unsound(data@, slots@, old(starts)@, segment as int, k as int, psb)
                == without_unsound(data@, slots@, starts@, segment as int, j as int, psb),
        decreases j,
    {
        match starts[j - 1] {
            Some(pos) => {
                if rows_ok(data, pos, &slots[j - 1], psb) {
                    return ;
                }
            },
            None => return ,
        }
        starts.set(j - 1, None);
        j = j - 1;
    }
}

/// Finds where each channel really begins.
///
/// Channels usually follow each other as declared. In a file that lost part of its data, the
/// first channel whose header is not sound starts a search for a shift under which the following
/// ones can be read again. A channel that cannot be read has no start. The second result is the
/// shift of the last channels.
pub fn locate_channels(data: &[u8], slots: &Vec<Slot>, psb: bool) -> (r: (
    Vec<Option<u64>>,
    i128,
))
    requires
        forall|i: int| 0 <= i < slots@.len() ==> (#[trigger] slots@[i]).wf(),
    ensures
        (r.0@, r.1 as int) == located(data@, slots@, psb),
        r.0@.len() == slots@.len(),
        -u64::MAX <= r.1 <= u64::MAX,
{
    let n: usize = slots.len();
    let mut starts: Vec<Option<u64>> = Vec::new();
    while starts.len() < n
        invariant
            starts@.len() <= n,
            forall|i: int| 0 <= i < starts@.len() ==> starts@[i] is None,
        decreases n - starts@.len(),
    {
        starts.push(None);
    }
    assert(starts@ =~= Seq::new(slots@.len(), |k: int| None));
    let mut shift: i128 = 0;
    // The last channel at which the places were set anew. What is lost begins no earlier.
    let mut segment: usize = 0;
    let mut positions: Option<Vec<u64>> = None;
    let mut k: usize = 0;
    while k < n
        invariant
            segment <= k <= n == slots@.len() == starts@.len(),
            forall|i: int| 0 <= i < slots@.len() ==> (#[trigger] slots@[i]).wf(),
            -u64::MAX <= shift <= u64::MAX,
            positions matches Some(p) ==> p@ == candidates(data@, data@.len() as int),
            located(data@, slots@, psb) == located_from(
                data@,
                slots@,
                k as int,
                segment as int,
                starts@,
                shift as int,
                psb,
            ),
        decreases n - k,
    {
        match readable_at(data, &slots[k], shift, psb) {
            Some(pos) => {
                starts.set(k, Some(pos));
                k = k + 1;
                continue ;
            },
            None => {},
        }
        drop_unsound(data, slots, &mut starts, segment, k, psb);
        let all: Vec<u64> = match positions {
            Some(p) => p,
            None => rle_candidates(data),
        };
        let found = resync(data, slots, k, &all, psb);
        positions = Some(all);
        match found {
            Some((next, moved)) => {
                proof {
                    found_again_is_readable(
                        data@,
                        slots@,
                        k as int,
                        candidates(data@, data@.len() as int),
                        MAX_TRIES as int,
                        psb,
                    );
                }
                starts.set(next, Some((slots[next].declared as i128 + moved) as u64));
                segment = next;
                shift = moved;
                k = next + 1;
            },
            None => return (starts, shift),
        }
    }
    (starts, shift)
}

} // verus!
