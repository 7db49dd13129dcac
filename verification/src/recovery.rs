//! What is found in a file that has lost part of its data.
use vstd::prelude::*;

use crate::bytes;
use crate::locate;
use crate::locate::Slot;
use crate::readback;
use crate::writing;

verus! {

/// Whether the next `n` channels with pixels, from `k` on, were all written as declared, as far from
/// their declared places as `shift` says.
pub open spec fn agrees(
    d: Seq<u8>,
    slots: Seq<Slot>,
    k: int,
    n: int,
    shift: int,
    psb: bool,
) -> bool {
    forall|m: int|
        k <= m < slots.len() && !(#[trigger] slots[m]).empty() && locate::filled(slots, k, m) < n
            ==> 0 <= slots[m].declared + shift <= u64::MAX && readback::written_at(
            d,
            slots[m].declared + shift,
            slots[m],
            psb,
        )
}

/// Whether a packed channel may begin at `pos`: the number 1 stands there.
pub open spec fn begins_packed(d: Seq<u8>, pos: int) -> bool {
    writing::holds(d, pos, writing::put16(1))
}

/// Whether channel `k` may be the one at `pos`: it was written there as declared, the four channels
/// with pixels after it agree, and how far it has moved can be counted in 64 bits.
pub open spec fn may_be(d: Seq<u8>, slots: Seq<Slot>, k: int, pos: int, psb: bool) -> bool {
    &&& begins_packed(d, pos)
    &&& readback::written_at(d, pos, slots[k], psb)
    &&& agrees(d, slots, k + 1, 4, pos - slots[k].declared, psb)
    &&& pos - slots[k].declared >= i64::MIN
}

/// Agreement is what is asked of the following channels.
proof fn agreement_is_confirmed(
    d: Seq<u8>,
    slots: Seq<Slot>,
    k: int,
    n: int,
    shift: int,
    psb: bool,
)
    requires
        0 <= k,
    ensures
        locate::confirmed(d, slots, k, n, shift, psb) <==> agrees(d, slots, k, n, shift, psb),
    decreases slots.len() - k,
{
    if k < slots.len() && n > 0 {
        let slot = slots[k];
        let rest = if slot.empty() {
            n
        } else {
            n - 1
        };
        agreement_is_confirmed(d, slots, k + 1, rest, shift, psb);
        readback::sound_headers_are_those_written(d, slot.declared + shift, slot, psb);
        if agrees(d, slots, k, n, shift, psb) {
            if !slot.empty() {
                assert(locate::filled(slots, k, k) == 0);
                assert(!slots[k].empty());
            }
            assert forall|m: int|
                k + 1 <= m < slots.len() && !(#[trigger] slots[m]).empty() && locate::filled(
                    slots,
                    k + 1,
                    m,
                ) < rest implies 0 <= slots[m].declared + shift <= u64::MAX && readback::written_at(
                d,
                slots[m].declared + shift,
                slots[m],
                psb,
            ) by {
                assert(locate::filled(slots, k, m) < n);
            }
        }
        if locate::confirmed(d, slots, k, n, shift, psb) {
            assert forall|m: int|
                k <= m < slots.len() && !(#[trigger] slots[m]).empty() && locate::filled(
                    slots,
                    k,
                    m,
                ) < n implies 0 <= slots[m].declared + shift <= u64::MAX && readback::written_at(
                d,
                slots[m].declared + shift,
                slots[m],
                psb,
            ) by {
                if m > k {
                    assert(locate::filled(slots, k + 1, m) < rest);
                }
            }
        }
    } else if k < slots.len() {
        assert forall|m: int| k <= m < slots.len() implies locate::filled(slots, k, m) >= n by {
            locate::filled_bounds(slots, k, m);
        }
    }
}

/// A place is taken for a channel if and only if the channel may be there.
proof fn matches_may_be(d: Seq<u8>, slots: Seq<Slot>, k: int, pos: int, psb: bool)
    requires
        0 <= k < slots.len(),
        begins_packed(d, pos),
    ensures
        locate::matches_at(d, slots, k, pos, psb) <==> may_be(d, slots, k, pos, psb),
{
    agreement_is_confirmed(d, slots, k + 1, 4, pos - slots[k].declared, psb);
    readback::sound_headers_are_those_written(d, pos, slots[k], psb);
}

/// The places that are tried are those with the number 1, from the front of the file on.
proof fn tried_places(d: Seq<u8>, pos: int)
    requires
        d.len() <= u64::MAX,
    ensures
        forall|a: int, b: int|
            0 <= a < b < locate::candidates(d, d.len() as int).len() ==> (
            #[trigger] locate::candidates(d, d.len() as int)[a]) < (#[trigger] locate::candidates(
                d,
                d.len() as int,
            )[b]),
        begins_packed(d, pos) <==> exists|i: int|
            0 <= i < locate::candidates(d, d.len() as int).len() && #[trigger] locate::candidates(
                d,
                d.len() as int,
            )[i] == pos,
{
    let all = locate::candidates(d, d.len() as int);
    locate::candidates_are_all(d, d.len() as int, pos);
    if begins_packed(d, pos) {
        writing::written16_is_read(d, pos, 1);
    }
    if exists|i: int| 0 <= i < all.len() && #[trigger] all[i] == pos {
        let i = choose|i: int| 0 <= i < all.len() && #[trigger] all[i] == pos;
        candidates_hold_one(d, d.len() as int, i);
        readback::read16_was_written(d, pos);
    }
}

proof fn candidates_hold_one(d: Seq<u8>, n: int, i: int)
    requires
        0 <= n <= d.len() <= u64::MAX,
        0 <= i < locate::candidates(d, n).len(),
    ensures
        bytes::within(d, locate::candidates(d, n)[i] as int, 2),
        bytes::be16(d, locate::candidates(d, n)[i] as int) == 1,
    decreases n,
{
    if n > 0 && i < locate::candidates(d, n - 1).len() {
        candidates_hold_one(d, n - 1, i);
    }
}

/// The first place for a channel.
proof fn first_place(d: Seq<u8>, slots: Seq<Slot>, k: int, psb: bool, from: int)
    requires
        0 <= k < slots.len(),
        d.len() <= u64::MAX,
        0 <= from <= locate::candidates(d, d.len() as int).len(),
    ensures
        ({
            let all = locate::candidates(d, d.len() as int);
            match locate::first_match(d, slots, k, all, from, psb) {
                Some(pos) => may_be(d, slots, k, pos, psb) && forall|p: int|
                    p < pos && #[trigger] may_be(d, slots, k, p, psb) ==> from > 0 && p
                        <= all[from - 1],
                None => forall|p: int| #[trigger]
                    may_be(d, slots, k, p, psb) ==> from > 0 && p <= all[from - 1],
            }
        }),
    decreases locate::candidates(d, d.len() as int).len() - from,
{
    let all = locate::candidates(d, d.len() as int);
    tried_places(d, 0);
    if from < all.len() {
        let here = all[from] as int;
        tried_places(d, here);
        assert(all[from] == here);
        assert(begins_packed(d, here));
        matches_may_be(d, slots, k, here, psb);
        first_place(d, slots, k, psb, from + 1);
        assert forall|p: int| #[trigger] may_be(d, slots, k, p, psb) && p <= all[from] implies p
            == here || (from > 0 && p <= all[from - 1]) by {
            tried_places(d, p);
            let i = choose|i: int| 0 <= i < all.len() && #[trigger] all[i] == p;
            if i > from {
                assert(all[from] < all[i]);
            } else if i < from - 1 {
                assert(all[i] < all[from - 1]);
            }
        }
    } else {
        assert forall|p: int| #[trigger] may_be(d, slots, k, p, psb) implies from > 0 && p
            <= all[from - 1] by {
            tried_places(d, p);
            let i = choose|i: int| 0 <= i < all.len() && #[trigger] all[i] == p;
            if i < from - 1 {
                assert(all[i] < all[from - 1]);
            }
        }
    }
}

/// The search for a channel finds the first one, of the next 64 with pixels, that may be somewhere,
/// at the first place where it may be; and nothing where none of them may be anywhere.
pub proof fn searches_find_the_first(d: Seq<u8>, slots: Seq<Slot>, k: int, tries: int, psb: bool)
    requires
        0 <= k <= slots.len(),
        d.len() <= u64::MAX,
    ensures
        match locate::found_again(
            d,
            slots,
            k,
            locate::candidates(d, d.len() as int),
            tries,
            psb,
        ) {
            Some((next, moved)) => {
                &&& k <= next < slots.len()
                &&& !slots[next].empty()
                &&& locate::filled(slots, k, next) < tries
                &&& may_be(d, slots, next, slots[next].declared + moved, psb)
                &&& forall|p: int|
                    p < slots[next].declared + moved ==> !#[trigger] may_be(d, slots, next, p, psb)
                &&& forall|m: int, p: int|
                    k <= m < next && !slots[m].empty() ==> !#[trigger] may_be(d, slots, m, p, psb)
            },
            None => forall|m: int, p: int|
                k <= m < slots.len() && !slots[m].empty() && locate::filled(slots, k, m) < tries
                    ==> !#[trigger] may_be(d, slots, m, p, psb),
        },
    decreases slots.len() - k,
{
    if k < slots.len() && tries > 0 {
        if slots[k].empty() {
            searches_find_the_first(d, slots, k + 1, tries, psb);
        } else {
            first_place(d, slots, k, psb, 0);
            searches_find_the_first(d, slots, k + 1, tries - 1, psb);
        }
    } else {
        assert forall|m: int| k <= m < slots.len() implies locate::filled(slots, k, m) >= tries by {
            locate::filled_bounds(slots, k, m);
        }
    }
}

/// `starts` with the channels from `a` up to `b` as far from their declared places as `shift` says.
spec fn set_from(
    slots: Seq<Slot>,
    starts: Seq<Option<u64>>,
    a: int,
    b: int,
    shift: int,
) -> Seq<Option<u64>> {
    Seq::new(
        starts.len(),
        |m: int|
            if a <= m < b {
                Some((slots[m].declared + shift) as u64)
            } else {
                starts[m]
            },
    )
}

/// Channels that were written where they are expected are taken one after another.
proof fn expected_channels_are_taken(
    d: Seq<u8>,
    slots: Seq<Slot>,
    a: int,
    b: int,
    segment: int,
    starts: Seq<Option<u64>>,
    shift: int,
    psb: bool,
)
    requires
        0 <= a <= b <= slots.len(),
        starts.len() == slots.len(),
        forall|m: int|
            a <= m < b ==> 0 <= (#[trigger] slots[m]).declared + shift <= u64::MAX
                && readback::written_at(d, slots[m].declared + shift, slots[m], psb),
    ensures
        locate::located_from(d, slots, a, segment, starts, shift, psb) == locate::located_from(
            d,
            slots,
            b,
            segment,
            set_from(slots, starts, a, b, shift),
            shift,
            psb,
        ),
    decreases b - a,
{
    if a < b {
        readback::sound_headers_are_those_written(d, slots[a].declared + shift, slots[a], psb);
        let next = starts.update(a, Some((slots[a].declared + shift) as u64));
        expected_channels_are_taken(d, slots, a + 1, b, segment, next, shift, psb);
        assert(set_from(slots, next, a + 1, b, shift) =~= set_from(slots, starts, a, b, shift));
    } else {
        assert(set_from(slots, starts, a, b, shift) =~= starts);
    }
}

/// Which channels right before a break are given up: those after the last one whose rows are sound.
proof fn given_up_before_a_break(
    d: Seq<u8>,
    slots: Seq<Slot>,
    starts: Seq<Option<u64>>,
    j: int,
    psb: bool,
    m: int,
)
    requires
        0 <= j <= slots.len() == starts.len(),
        0 <= m < slots.len(),
        forall|i: int| 0 <= i < j ==> #[trigger] starts[i] == Some(slots[i].declared),
    ensures
        ({
            let kept = locate::without_unsound(d, slots, starts, 0, j, psb);
            &&& kept.len() == starts.len()
            &&& m >= j ==> kept[m] == starts[m]
            &&& m < j ==> kept[m] == if exists|i: int|
                m <= i < j && locate::rows_sound(
                    d,
                    (#[trigger] slots[i]).declared as int,
                    slots[i],
                    psb,
                ) {
                starts[m]
            } else {
                None
            }
        }),
    decreases j,
{
    if j > 0 {
        let sound = locate::rows_sound(d, slots[j - 1].declared as int, slots[j - 1], psb);
        assert(starts[j - 1] == Some(slots[j - 1].declared));
        if sound {
            assert(locate::rows_sound(d, (slots[j - 1]).declared as int, slots[j - 1], psb));
        } else {
            let less = starts.update(j - 1, None);
            given_up_before_a_break(d, slots, less, j - 1, psb, m);
            if m < j && exists|i: int|
                m <= i < j && locate::rows_sound(
                    d,
                    (#[trigger] slots[i]).declared as int,
                    slots[i],
                    psb,
                ) {
                let i = choose|i: int|
                    m <= i < j && locate::rows_sound(
                        d,
                        (#[trigger] slots[i]).declared as int,
                        slots[i],
                        psb,
                    );
                assert(i < j - 1);
                assert(locate::rows_sound(d, (slots[i]).declared as int, slots[i], psb));
            }
        }
    }
}

/// Layers after lost data are recovered. The channels before number `k` were written at their
/// declared places, `k` was not, and from number `j` on all were written `shift` further on. Then
/// these are found there, those between are lost, and those before stay, but for the ones right
/// before the break whose rows are not sound. This holds where neither an earlier channel nor an
/// earlier place agrees as well, and no more than 64 channels with pixels are passed over.
pub proof fn layers_after_lost_data_are_recovered(
    d: Seq<u8>,
    slots: Seq<Slot>,
    k: int,
    j: int,
    shift: int,
    psb: bool,
)
    requires
        d.len() <= u64::MAX,
        0 <= k <= j < slots.len(),
        forall|m: int|
            0 <= m < k ==> readback::written_at(
                d,
                (#[trigger] slots[m]).declared as int,
                slots[m],
                psb,
            ),
        !readback::written_at(d, slots[k].declared as int, slots[k], psb),
        forall|m: int|
            j <= m < slots.len() ==> 0 <= (#[trigger] slots[m]).declared + shift <= u64::MAX
                && readback::written_at(d, slots[m].declared + shift, slots[m], psb),
        !slots[j].empty(),
        begins_packed(d, slots[j].declared + shift),
        shift >= i64::MIN,
        locate::filled(slots, k, j) < 64,
        forall|p: int|
            p < slots[j].declared + shift ==> !#[trigger] may_be(d, slots, j, p, psb),
        forall|m: int, p: int|
            k <= m < j && !slots[m].empty() ==> !#[trigger] may_be(d, slots, m, p, psb),
    ensures
        ({
            let (starts, moved) = locate::located(d, slots, psb);
            &&& moved == shift
            &&& starts.len() == slots.len()
            &&& forall|m: int|
                j <= m < slots.len() ==> #[trigger] starts[m] == Some(
                    (slots[m].declared + shift) as u64,
                )
            &&& forall|m: int| k <= m < j ==> #[trigger] starts[m] is None
            &&& forall|m: int|
                0 <= m < k ==> #[trigger] starts[m] == if exists|i: int|
                    m <= i < k && locate::rows_sound(
                        d,
                        (#[trigger] slots[i]).declared as int,
                        slots[i],
                        psb,
                    ) {
                    Some(slots[m].declared)
                } else {
                    None
                }
        }),
{
    let none: Seq<Option<u64>> = Seq::new(slots.len(), |i: int| None);
    let first = set_from(slots, none, 0, k, 0);
    expected_channels_are_taken(d, slots, 0, k, 0, none, 0, psb);
    readback::sound_headers_are_those_written(d, slots[k].declared as int, slots[k], psb);
    let kept = locate::without_unsound(d, slots, first, 0, k, psb);
    given_up_before_a_break(d, slots, first, k, psb, 0);
    assert(agrees(d, slots, j + 1, 4, shift, psb));
    assert(may_be(d, slots, j, slots[j].declared + shift, psb));
    searches_find_the_first(d, slots, k, 64, psb);
    let positions = locate::candidates(d, d.len() as int);
    let found = locate::found_again(d, slots, k, positions, 64, psb);
    assert(found == Some((j, shift)));
    let begun = kept.update(j, Some((slots[j].declared + shift) as u64));
    assert(locate::located(d, slots, psb) == locate::located_from(
        d,
        slots,
        j + 1,
        j,
        begun,
        shift,
        psb,
    ));
    let n = slots.len() as int;
    expected_channels_are_taken(d, slots, j + 1, n, j, begun, shift, psb);
    let starts = set_from(slots, begun, j + 1, n, shift);
    assert(locate::located(d, slots, psb) == (starts, shift));
    assert forall|m: int| 0 <= m < k implies #[trigger] starts[m] == if exists|i: int|
        m <= i < k && locate::rows_sound(d, (#[trigger] slots[i]).declared as int, slots[i], psb) {
        Some(slots[m].declared)
    } else {
        None
    } by {
        given_up_before_a_break(d, slots, first, k, psb, m);
    }
    assert forall|m: int| k <= m < j implies #[trigger] starts[m] is None by {
        given_up_before_a_break(d, slots, first, k, psb, m);
    }
}

/// Where nothing can be found again, all from the first channel on that was not written at its
/// declared place is lost.
pub proof fn the_rest_is_lost(d: Seq<u8>, slots: Seq<Slot>, k: int, psb: bool)
    requires
        d.len() <= u64::MAX,
        0 <= k < slots.len(),
        forall|m: int|
            0 <= m < k ==> readback::written_at(
                d,
                (#[trigger] slots[m]).declared as int,
                slots[m],
                psb,
            ),
        !readback::written_at(d, slots[k].declared as int, slots[k], psb),
        forall|m: int, p: int|
            k <= m < slots.len() && !slots[m].empty() ==> !#[trigger] may_be(d, slots, m, p, psb),
    ensures
        locate::located(d, slots, psb).1 == 0,
        forall|m: int|
            k <= m < slots.len() ==> #[trigger] locate::located(d, slots, psb).0[m] is None,
{
    let none: Seq<Option<u64>> = Seq::new(slots.len(), |i: int| None);
    let first = set_from(slots, none, 0, k, 0);
    expected_channels_are_taken(d, slots, 0, k, 0, none, 0, psb);
    readback::sound_headers_are_those_written(d, slots[k].declared as int, slots[k], psb);
    searches_find_the_first(d, slots, k, 64, psb);
    assert forall|m: int| k <= m < slots.len() implies #[trigger] locate::located(
        d,
        slots,
        psb,
    ).0[m] is None by {
        given_up_before_a_break(d, slots, first, k, psb, m);
    }
}

} // verus!
