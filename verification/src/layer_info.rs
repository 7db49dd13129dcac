//! The layers of a file, with the places of their channels.
use vstd::prelude::*;

use crate::bytes;
use crate::channel::Channel;
use crate::channel;
use crate::error::ParseError;
use crate::layers;
use crate::layers::{LayerRecord, Rect};
use crate::locate;
use crate::locate::Slot;
use crate::reader::Reader;

verus! {

/// A layer record with the list of its channels.
pub type Listed = (layers::LayerView, Seq<(i16, u64)>);

/// The first `count` records from `pos` on, and where they end.
pub open spec fn records_at(d: Seq<u8>, pos: int, count: int, psb: bool) -> Result<
    (Seq<Listed>, int),
    ParseError,
>
    decreases count,
{
    if count <= 0 {
        Ok((seq![], pos))
    } else {
        match records_at(d, pos, count - 1, psb) {
            Err(e) => Err(e),
            Ok((before, at)) => match layers::record_at(d, at, psb) {
                Err(e) => Err(e),
                Ok((record, list, next)) => Ok((before.push((record, list)), next)),
            },
        }
    }
}

/// The rectangle that a channel of the layer covers: that of a mask, or the layer's own.
pub open spec fn channel_rect(record: layers::LayerView, id: i16) -> Rect {
    let none = Rect { top: 0, left: 0, bottom: 0, right: 0 };
    if id == -2 {
        match record.user_mask {
            Some(m) => m.rect,
            None => none,
        }
    } else if id == -3 {
        match record.real_mask {
            Some(m) => m.rect,
            None => none,
        }
    } else {
        record.bounds
    }
}

/// Where the listed channels end when the first one begins at `from`.
pub open spec fn list_end(list: Seq<(i16, u64)>, from: int) -> int
    decreases list.len(),
{
    if list.len() == 0 {
        from
    } else {
        bytes::sat(list_end(list.drop_last(), from), list.last().1 as int)
    }
}

/// The declared places of the channels of layer `index`, the first of which begins at `from`.
pub open spec fn record_slots(
    record: layers::LayerView,
    index: int,
    list: Seq<(i16, u64)>,
    from: int,
) -> Seq<Slot>
    decreases list.len(),
{
    if list.len() == 0 {
        seq![]
    } else {
        let rect = channel_rect(record, list.last().0);
        record_slots(record, index, list.drop_last(), from).push(
            Slot {
                record: index as usize,
                id: list.last().0,
                len: list.last().1,
                width: rect.columns() as usize,
                height: rect.lines() as usize,
                declared: list_end(list.drop_last(), from) as u64,
            },
        )
    }
}

/// Where the channels of all the layers end when the first one begins at `from`.
pub open spec fn slots_end(records: Seq<Listed>, from: int) -> int
    decreases records.len(),
{
    if records.len() == 0 {
        from
    } else {
        list_end(records.last().1, slots_end(records.drop_last(), from))
    }
}

/// The declared places of the channels of all the layers. They follow each other from `from` on.
pub open spec fn slots_of(records: Seq<Listed>, from: int) -> Seq<Slot>
    decreases records.len(),
{
    if records.len() == 0 {
        seq![]
    } else {
        let before = records.drop_last();
        slots_of(before, from) + record_slots(
            records.last().0,
            records.len() - 1,
            records.last().1,
            slots_end(before, from),
        )
    }
}

/// `all` with the channel of `slot` at `start`, or with its layer marked as damaged.
pub open spec fn with_channel(
    d: Seq<u8>,
    all: Seq<layers::LayerView>,
    slot: Slot,
    start: Option<u64>,
    psb: bool,
) -> Seq<layers::LayerView> {
    let record = all[slot.record as int];
    match start {
        Some(at) => {
            let read = channel::channel_at(
                d,
                at as int,
                slot.len as int,
                slot.width as int,
                slot.height as int,
                psb,
            );
            all.update(
                slot.record as int,
                layers::LayerView { channels: record.channels.push((slot.id, read)), ..record },
            )
        },
        None => all.update(slot.record as int, layers::LayerView { damaged: true, ..record }),
    }
}

/// `all` with the first `n` channels.
pub open spec fn with_channels(
    d: Seq<u8>,
    all: Seq<layers::LayerView>,
    slots: Seq<Slot>,
    starts: Seq<Option<u64>>,
    n: int,
    psb: bool,
) -> Seq<layers::LayerView>
    decreases n,
{
    if n <= 0 {
        all
    } else {
        with_channel(
            d,
            with_channels(d, all, slots, starts, n - 1, psb),
            slots[n - 1],
            starts[n - 1],
            psb,
        )
    }
}

/// The records without their lists.
pub open spec fn bare(records: Seq<Listed>) -> Seq<layers::LayerView> {
    Seq::new(records.len(), |i: int| records[i].0)
}

/// The number of layers that a file names at `pos`. It may be stored as a negative number.
pub open spec fn layer_count(d: Seq<u8>, pos: int) -> int {
    let stored = bytes::be16_signed(d, pos);
    if stored < 0 {
        -stored
    } else {
        stored
    }
}

/// The layers described at `pos`, from bottom to top, how far data after them lies from its
/// declared place, and where their data really ends.
#[verifier::opaque]
pub open spec fn layer_info_at(d: Seq<u8>, pos: int, psb: bool) -> Result<
    (Seq<layers::LayerView>, int, int),
    ParseError,
> {
    if !bytes::within(d, pos, 2) {
        Err(ParseError::Eof)
    } else {
        match records_at(d, pos + 2, layer_count(d, pos), psb) {
            Err(e) => Err(e),
            Ok((records, from)) => {
                let slots = slots_of(records, from);
                let found = locate::located(d, slots, psb);
                Ok(
                    (
                        with_channels(
                            d,
                            bare(records),
                            slots,
                            found.0,
                            slots.len() as int,
                            psb,
                        ),
                        found.1,
                        bytes::clamp_position(slots_end(records, from) + found.1),
                    ),
                )
            },
        }
    }
}

/// Records with their lists.
pub open spec fn listed(records: Seq<LayerRecord>, lists: Seq<Vec<(i16, u64)>>) -> Seq<Listed> {
    Seq::new(records.len(), |i: int| (records[i]@, lists[i]@))
}

/// What a list of layers records.
pub open spec fn layer_views(s: Seq<LayerRecord>) -> Seq<layers::LayerView> {
    s.map_values(|r: LayerRecord| r@)
}

/// A failure to read one record is a failure to read more of them.
proof fn failure_stays(d: Seq<u8>, pos: int, m: int, n: int, psb: bool)
    requires
        m <= n,
        records_at(d, pos, m, psb) is Err,
    ensures
        records_at(d, pos, n, psb) == records_at(d, pos, m, psb),
    decreases n - m,
{
    if m < n {
        failure_stays(d, pos, m, n - 1, psb);
    }
}

/// Records depend on nothing before them.
proof fn same_records(d: Seq<u8>, e: Seq<u8>, from: int, count: int, psb: bool)
    requires
        bytes::same_from(d, e, from),
        0 <= from,
        d.len() <= u64::MAX,
    ensures
        records_at(d, from, count, psb) == records_at(e, from, count, psb),
        records_at(d, from, count, psb) matches Ok((records, next)) ==> from <= next,
    decreases count,
{
    if count > 0 {
        same_records(d, e, from, count - 1, psb);
        if let Ok((before, at)) = records_at(d, from, count - 1, psb) {
            layers::same_record(d, e, from, at, psb);
        }
    }
}

/// A number of layers and its negative give the same records, and an error in the same cases.
///
/// The files are the same behind the number.
pub proof fn negative_counts_count_the_same(d: Seq<u8>, e: Seq<u8>, pos: int, psb: bool)
    requires
        bytes::within(d, pos, 2),
        d.len() <= u64::MAX,
        bytes::same_from(d, e, pos + 2),
        bytes::be16_signed(e, pos) == -bytes::be16_signed(d, pos),
    ensures
        layer_count(e, pos) == layer_count(d, pos),
        records_at(e, pos + 2, layer_count(e, pos), psb) == records_at(
            d,
            pos + 2,
            layer_count(d, pos),
            psb,
        ),
        layer_info_at(e, pos, psb) is Err <==> layer_info_at(d, pos, psb) is Err,
        layer_info_at(d, pos, psb) matches Err(err) ==> layer_info_at(e, pos, psb) == Err::<
            (Seq<layers::LayerView>, int, int),
            ParseError,
        >(err),
{
    reveal(layer_info_at);
    same_records(d, e, pos + 2, layer_count(d, pos), psb);
}

/// Reads `count` records.
fn read_records(r: &mut Reader<'_>, count: u32) -> (v: Result<
    (Vec<LayerRecord>, Vec<Vec<(i16, u64)>>),
    ParseError,
>)
    ensures
        old(r).same_file(*final(r)),
        match v {
            Ok((records, lists)) => {
                &&& records@.len() == count
                &&& lists@.len() == count
                &&& records_at(old(r).data@, old(r).pos as int, count as int, old(r).psb) == Ok::<
                    (Seq<Listed>, int),
                    ParseError,
                >((listed(records@, lists@), final(r).pos as int))
            },
            Err(e) => records_at(old(r).data@, old(r).pos as int, count as int, old(r).psb)
                == Err::<(Seq<Listed>, int), ParseError>(e),
        },
{
    let mut records: Vec<LayerRecord> = Vec::new();
    let mut lists: Vec<Vec<(i16, u64)>> = Vec::new();
    let mut i: u32 = 0;
    assert(listed(records@, lists@) =~= seq![]);
    while i < count
        invariant
            i <= count,
            old(r).same_file(*r),
            records@.len() == i,
            lists@.len() == i,
            records_at(old(r).data@, old(r).pos as int, i as int, old(r).psb) == Ok::<
                (Seq<Listed>, int),
                ParseError,
            >((listed(records@, lists@), r.pos as int)),
        decreases count - i,
    {
        let ghost before = listed(records@, lists@);
        match layers::read_record(r) {
            Ok((record, list)) => {
                records.push(record);
                lists.push(list);
                assert(listed(records@, lists@) =~= before.push((record@, list@)));
            },
            Err(e) => {
                proof {
                    failure_stays(
                        old(r).data@,
                        old(r).pos as int,
                        i + 1,
                        count as int,
                        old(r).psb,
                    );
                }
                return Err(e);
            },
        }
        i = i + 1;
    }
    Ok((records, lists))
}

/// The rectangle that a channel of the layer covers.
fn rect_of_channel(record: &LayerRecord, id: i16) -> (r: Rect)
    ensures
        r == channel_rect(record@, id),
{
    let none = Rect { top: 0, left: 0, bottom: 0, right: 0 };
    if id == -2 {
        match record.user_mask {
            Some(m) => m.rect,
            None => none,
        }
    } else if id == -3 {
        match record.real_mask {
            Some(m) => m.rect,
            None => none,
        }
    } else {
        record.bounds
    }
}

/// Whether every slot has a size and belongs to one of `n` layers.
pub open spec fn slots_fit(slots: Seq<Slot>, n: int) -> bool {
    forall|i: int| 0 <= i < slots.len() ==> (#[trigger] slots[i]).wf() && slots[i].record < n
}

/// Adds the channels of layer `index` to `slots`, and gives where they end.
fn push_slots(
    slots: &mut Vec<Slot>,
    record: &LayerRecord,
    index: usize,
    list: &Vec<(i16, u64)>,
    from: u64,
) -> (end: u64)
    requires
        slots_fit(old(slots)@, index + 1),
    ensures
        final(slots)@ == old(slots)@ + record_slots(record@, index as int, list@, from as int),
        end == list_end(list@, from as int),
        slots_fit(final(slots)@, index + 1),
{
    let mut declared: u64 = from;
    let mut j: usize = 0;
    assert(list@.take(0) =~= seq![]);
    while j < list.len()
        invariant
            j <= list@.len(),
            declared == list_end(list@.take(j as int), from as int),
            slots@ =~= old(slots)@ + record_slots(
                record@,
                index as int,
                list@.take(j as int),
                from as int,
            ),
            slots_fit(slots@, index + 1),
        decreases list@.len() - j,
    {
        let id: i16 = list[j].0;
        let len: u64 = list[j].1;
        let rect = rect_of_channel(record, id);
        assert(list@.take(j + 1).drop_last() =~= list@.take(j as int));
        assert(list@.take(j + 1).last() == list@[j as int]);
        slots.push(
            Slot { record: index, id, len, width: rect.width(), height: rect.height(), declared },
        );
        declared = declared.saturating_add(len);
        j = j + 1;
    }
    assert(list@.take(list@.len() as int) =~= list@);
    declared
}

/// The declared places of the channels of all the layers.
fn declare_slots(records: &Vec<LayerRecord>, lists: &Vec<Vec<(i16, u64)>>, from: u64) -> (r: (
    Vec<Slot>,
    u64,
))
    requires
        records@.len() == lists@.len(),
    ensures
        r.0@ == slots_of(listed(records@, lists@), from as int),
        slots_fit(r.0@, records@.len() as int),
        r.1 == slots_end(listed(records@, lists@), from as int),
{
    let ghost all = listed(records@, lists@);
    let mut slots: Vec<Slot> = Vec::new();
    let mut declared: u64 = from;
    let mut i: usize = 0;
    assert(all.take(0) =~= seq![]);
    while i < records.len()
        invariant
            i <= records@.len() == lists@.len(),
            all == listed(records@, lists@),
            declared == slots_end(all.take(i as int), from as int),
            slots@ == slots_of(all.take(i as int), from as int),
            slots_fit(slots@, i as int),
        decreases records@.len() - i,
    {
        assert(all.take(i + 1).drop_last() =~= all.take(i as int));
        assert(all.take(i + 1).last() == (records@[i as int]@, lists@[i as int]@));
        declared = push_slots(&mut slots, &records[i], i, &lists[i], declared);
        i = i + 1;
    }
    assert(all.take(i as int) =~= all);
    (slots, declared)
}

/// Gives each layer the channels that were found, and marks those that lost one.
fn attach_channels(
    data: &[u8],
    records: &mut Vec<LayerRecord>,
    slots: &Vec<Slot>,
    starts: &Vec<Option<u64>>,
    psb: bool,
)
    requires
        slots_fit(slots@, old(records)@.len() as int),
        starts@.len() == slots@.len(),
    ensures
        layer_views(final(records)@) == with_channels(
            data@,
            layer_views(old(records)@),
            slots@,
            starts@,
            slots@.len() as int,
            psb,
        ),
{
    let mut k: usize = 0;
    let ghost first = layer_views(records@);
    while k < slots.len()
        invariant
            k <= slots@.len() == starts@.len(),
            first == layer_views(old(records)@),
            records@.len() == old(records)@.len(),
            slots_fit(slots@, records@.len() as int),
            layer_views(records@) == with_channels(data@, first, slots@, starts@, k as int, psb),
        decreases slots@.len() - k,
    {
        let slot = slots[k];
        let ghost before = records@;
        assert(slots@[k as int].wf());
        match starts[k] {
            Some(start) => {
                let read = Channel::new(
                    data,
                    start,
                    slot.len,
                    slot.width,
                    slot.height as u64,
                    psb,
                );
                records[slot.record].channels.push((slot.id, read));
                proof {
                    let now = records@[slot.record as int];
                    let was = before[slot.record as int];
                    assert(layers::channel_views(now.channels@) =~= layers::channel_views(
                        was.channels@,
                    ).push((slot.id, read@)));
                }
            },
            None => {
                records[slot.record].damaged = true;
            },
        }
        assert(layer_views(records@) =~= with_channel(
            data@,
            layer_views(before),
            slot,
            starts@[k as int],
            psb,
        ));
        k = k + 1;
    }
}

/// `at` moved by `shift`, held inside the range of positions.
pub fn shifted(at: u64, shift: i128) -> (r: u64)
    requires
        -u64::MAX <= shift <= u64::MAX,
    ensures
        r == bytes::clamp_position(at + shift),
{
    let moved: i128 = at as i128 + shift;
    if moved < 0 {
        0
    } else if moved > u64::MAX as i128 {
        u64::MAX
    } else {
        moved as u64
    }
}

/// Reads the layers. The second result is how far data after them lies from its declared place.
pub fn parse_layer_info(r: &mut Reader<'_>) -> (v: Result<(Vec<LayerRecord>, i128), ParseError>)
    ensures
        old(r).same_file(*final(r)),
        match v {
            Ok((records, shift)) => layer_info_at(old(r).data@, old(r).pos as int, old(r).psb)
                == Ok::<(Seq<layers::LayerView>, int, int), ParseError>(
                (layer_views(records@), shift as int, final(r).pos as int),
            ) && -u64::MAX <= shift <= u64::MAX,
            Err(e) => layer_info_at(old(r).data@, old(r).pos as int, old(r).psb) == Err::<
                (Seq<layers::LayerView>, int, int),
                ParseError,
            >(e),
        },
{
    proof {
        reveal(layer_info_at);
    }
    let stored: i16 = r.i16()?;
    let count: u32 = if stored < 0 { (-(stored as i32)) as u32 } else { stored as u32 };
    let (mut records, lists) = read_records(r, count)?;
    let (slots, end) = declare_slots(&records, &lists, r.pos);
    let (starts, shift) = locate::locate_channels(r.data, &slots, r.psb);
    assert(bare(listed(records@, lists@)) =~= layer_views(records@));
    attach_channels(r.data, &mut records, &slots, &starts, r.psb);
    r.pos = shifted(end, shift);
    Ok((records, shift))
}

/// The slots of one layer belong to it.
proof fn record_slots_fit(
    record: layers::LayerView,
    index: int,
    list: Seq<(i16, u64)>,
    from: int,
    n: int,
)
    requires
        0 <= index < n <= usize::MAX,
    ensures
        slots_fit(record_slots(record, index, list, from), n),
    decreases list.len(),
{
    if list.len() > 0 {
        record_slots_fit(record, index, list.drop_last(), from, n);
    }
}

/// The slots of the layers belong to them.
proof fn slots_of_fit(records: Seq<Listed>, from: int, n: int)
    requires
        records.len() <= n <= usize::MAX,
    ensures
        slots_fit(slots_of(records, from), n),
    decreases records.len(),
{
    if records.len() > 0 {
        let before = records.drop_last();
        slots_of_fit(before, from, n);
        record_slots_fit(
            records.last().0,
            records.len() - 1,
            records.last().1,
            slots_end(before, from),
            n,
        );
    }
}

/// Records come undamaged, as many as were asked for.
proof fn records_come_whole(d: Seq<u8>, pos: int, count: int, psb: bool)
    requires
        0 <= count,
    ensures
        records_at(d, pos, count, psb) matches Ok((records, _)) ==> records.len() == count && (
        forall|i: int| 0 <= i < count ==> !(#[trigger] records[i]).0.damaged),
    decreases count,
{
    reveal(layers::record_at);
    if count > 0 {
        records_come_whole(d, pos, count - 1, psb);
    }
}

/// A layer is damaged if and only if it was, or one of its channels is lost.
pub proof fn lost_channels_mark_their_layer(
    d: Seq<u8>,
    all: Seq<layers::LayerView>,
    slots: Seq<Slot>,
    starts: Seq<Option<u64>>,
    n: int,
    psb: bool,
    i: int,
)
    requires
        slots_fit(slots, all.len() as int),
        0 <= n <= slots.len() == starts.len(),
        0 <= i < all.len(),
    ensures
        with_channels(d, all, slots, starts, n, psb).len() == all.len(),
        with_channels(d, all, slots, starts, n, psb)[i].damaged <==> all[i].damaged || exists|k: int|
            0 <= k < n && (#[trigger] slots[k]).record == i && starts[k] is None,
    decreases n,
{
    if n > 0 {
        lost_channels_mark_their_layer(d, all, slots, starts, n - 1, psb, i);
        assert(slots[n - 1].record < all.len());
    }
}

/// The number of layers does not depend on which channels are found.
proof fn layers_stay(
    d: Seq<u8>,
    all: Seq<layers::LayerView>,
    slots: Seq<Slot>,
    starts: Seq<Option<u64>>,
    n: int,
    psb: bool,
)
    requires
        slots_fit(slots, all.len() as int),
        n <= slots.len(),
    ensures
        with_channels(d, all, slots, starts, n, psb).len() == all.len(),
    decreases n,
{
    if n > 0 {
        layers_stay(d, all, slots, starts, n - 1, psb);
        assert(slots[n - 1].record < all.len());
    }
}

/// A file gives as many layers as it names, or none at all.
pub proof fn layers_are_as_many_as_named(d: Seq<u8>, pos: int, psb: bool)
    ensures
        layer_info_at(d, pos, psb) matches Ok((found, _, _)) ==> found.len() == layer_count(d, pos),
{
    reveal(layer_info_at);
    if let Ok((records, from)) = records_at(d, pos + 2, layer_count(d, pos), psb) {
        records_come_whole(d, pos + 2, layer_count(d, pos), psb);
        let slots = slots_of(records, from);
        slots_of_fit(records, from, records.len() as int);
        layers_stay(
            d,
            bare(records),
            slots,
            locate::located(d, slots, psb).0,
            slots.len() as int,
            psb,
        );
    }
}

/// Where the header of every channel is sound at its declared place, no layer is damaged and
/// nothing has moved.
pub proof fn intact_layers_are_whole(d: Seq<u8>, pos: int, psb: bool)
    requires
        bytes::within(d, pos, 2),
        records_at(d, pos + 2, layer_count(d, pos), psb) matches Ok((records, from)) && forall|
            k: int,
        |
            0 <= k < slots_of(records, from).len() ==> {
                let slot = #[trigger] slots_of(records, from)[k];
                locate::header_sound(d, slot.declared as int, slot, psb)
            },
    ensures
        layer_info_at(d, pos, psb) matches Ok((found, shift, _)) && shift == 0 && forall|i: int|
            0 <= i < found.len() ==> !(#[trigger] found[i]).damaged,
{
    reveal(layer_info_at);
    let count = layer_count(d, pos);
    let (records, from) = records_at(d, pos + 2, count, psb)->Ok_0;
    let slots = slots_of(records, from);
    records_come_whole(d, pos + 2, count, psb);
    slots_of_fit(records, from, records.len() as int);
    locate::intact_channels_stay_in_place(d, slots, psb);
    let starts = locate::located(d, slots, psb).0;
    let found = with_channels(d, bare(records), slots, starts, slots.len() as int, psb);
    layers_stay(d, bare(records), slots, starts, slots.len() as int, psb);
    assert forall|i: int| 0 <= i < found.len() implies !(#[trigger] found[i]).damaged by {
        lost_channels_mark_their_layer(
            d,
            bare(records),
            slots,
            starts,
            slots.len() as int,
            psb,
            i,
        );
    }
}

/// Whether the channels of a layer are as wide as the rectangles that they cover.
pub open spec fn channels_fit(record: layers::LayerView) -> bool {
    forall|k: int|
        0 <= k < record.channels.len() ==> (#[trigger] record.channels[k]).1.width == channel_rect(
            record,
            record.channels[k].0,
        ).columns()
}

/// Whether the slots are as wide as the rectangles of their channels.
spec fn slot_widths_fit(records: Seq<Listed>, slots: Seq<Slot>) -> bool {
    forall|k: int|
        0 <= k < slots.len() ==> {
            &&& 0 <= (#[trigger] slots[k]).record < records.len()
            &&& slots[k].width == channel_rect(
                records[slots[k].record as int].0,
                slots[k].id,
            ).columns()
        }
}

/// The slots of one layer are as wide as the rectangles of its channels.
proof fn record_slots_are_wide(records: Seq<Listed>, index: int, list: Seq<(i16, u64)>, from: int)
    requires
        0 <= index < records.len() <= usize::MAX,
    ensures
        slot_widths_fit(records, record_slots(records[index].0, index, list, from)),
    decreases list.len(),
{
    if list.len() > 0 {
        record_slots_are_wide(records, index, list.drop_last(), from);
    }
}

/// The slots of the first `n` layers are as wide as the rectangles of their channels.
proof fn slots_of_are_wide(records: Seq<Listed>, n: int, from: int)
    requires
        0 <= n <= records.len() <= usize::MAX,
    ensures
        slot_widths_fit(records, slots_of(records.take(n), from)),
    decreases n,
{
    if n > 0 {
        slots_of_are_wide(records, n - 1, from);
        assert(records.take(n).drop_last() =~= records.take(n - 1));
        record_slots_are_wide(
            records,
            n - 1,
            records[n - 1].1,
            slots_end(records.take(n - 1), from),
        );
    }
}

/// Whether `after` are the layers `before` with other channels.
spec fn same_rects(before: Seq<layers::LayerView>, after: Seq<layers::LayerView>) -> bool {
    before.len() == after.len() && forall|i: int|
        0 <= i < before.len() ==> {
            &&& (#[trigger] after[i]).bounds == before[i].bounds
            &&& after[i].user_mask == before[i].user_mask
            &&& after[i].real_mask == before[i].real_mask
        }
}

/// Channels that are found fit.
proof fn found_channels_fit(
    d: Seq<u8>,
    records: Seq<Listed>,
    slots: Seq<Slot>,
    starts: Seq<Option<u64>>,
    n: int,
    psb: bool,
)
    requires
        0 <= n <= slots.len(),
        slot_widths_fit(records, slots),
        forall|i: int| 0 <= i < records.len() ==> (#[trigger] records[i]).0.channels.len() == 0,
    ensures
        same_rects(bare(records), with_channels(d, bare(records), slots, starts, n, psb)),
        forall|i: int|
            0 <= i < records.len() ==> channels_fit(
                #[trigger] with_channels(d, bare(records), slots, starts, n, psb)[i],
            ),
    decreases n,
{
    if n > 0 {
        found_channels_fit(d, records, slots, starts, n - 1, psb);
        let before = with_channels(d, bare(records), slots, starts, n - 1, psb);
        let after = with_channels(d, bare(records), slots, starts, n, psb);
        let slot = slots[n - 1];
        assert(slot.record < records.len());
        assert forall|i: int| 0 <= i < records.len() implies channels_fit(#[trigger] after[i]) by {
            assert(channels_fit(before[i]));
            assert(before[i].bounds == bare(records)[i].bounds);
        }
    }
}

/// Records come without channels.
proof fn records_come_bare(d: Seq<u8>, pos: int, count: int, psb: bool)
    ensures
        records_at(d, pos, count, psb) matches Ok((records, _)) ==> forall|i: int|
            0 <= i < records.len() ==> (#[trigger] records[i]).0.channels.len() == 0,
    decreases count,
{
    reveal(layers::record_at);
    if count > 0 {
        records_come_bare(d, pos, count - 1, psb);
    }
}

/// The channels of every layer of a file are as wide as the rectangles that they cover.
pub proof fn channels_are_as_wide_as_their_rectangles(d: Seq<u8>, pos: int, psb: bool)
    ensures
        layer_info_at(d, pos, psb) matches Ok((found, _, _)) ==> forall|i: int|
            0 <= i < found.len() ==> channels_fit(#[trigger] found[i]),
{
    reveal(layer_info_at);
    let count = layer_count(d, pos);
    if let Ok((records, from)) = records_at(d, pos + 2, count, psb) {
        records_come_whole(d, pos + 2, count, psb);
        records_come_bare(d, pos + 2, count, psb);
        let slots = slots_of(records, from);
        slots_of_are_wide(records, records.len() as int, from);
        assert(records.take(records.len() as int) =~= records);
        found_channels_fit(
            d,
            records,
            slots,
            locate::located(d, slots, psb).0,
            slots.len() as int,
            psb,
        );
    }
}

} // verus!
