//! What was written is read back: the laws of whole files.
use vstd::prelude::*;

use crate::channel;
use crate::error::ParseError;
use crate::layer_info;
use crate::layers;
use crate::layers::Rect;
use crate::locate;
use crate::locate::Slot;
use crate::readback;
use crate::writing;
use crate::written_layers;
use crate::written_layers::WrittenLayer;

verus! {

/// A layer with the contents of its channels.
pub struct StoredLayer {
    pub layer: WrittenLayer,
    pub contents: Seq<Seq<u8>>,
}

/// The rectangle that a channel covers: that of the mask for the id -2, that of the second mask for
/// -3, and else that of the layer. A mask that is not there covers nothing.
pub open spec fn covered(l: WrittenLayer, id: i16) -> Rect {
    let nothing = Rect { top: 0, left: 0, bottom: 0, right: 0 };
    if id == -2 {
        match l.mask {
            Some(mask) => mask.rect,
            None => nothing,
        }
    } else if id == -3 {
        match l.mask {
            Some(mask) => match mask.second {
                Some((flags, default, rect)) => rect,
                None => nothing,
            },
            None => nothing,
        }
    } else {
        l.rect
    }
}

/// From the first to the second coordinate, nothing where they are not in order.
pub open spec fn extent(from: i32, to: i32) -> int {
    if from < to {
        to - from
    } else {
        0
    }
}

/// Whether the content is that of a channel that covers `width` by `height` pixels.
pub open spec fn content_fits(content: Seq<u8>, width: int, height: int, psb: bool) -> bool {
    ||| content.len() == 0
    ||| exists|pixels: Seq<u8>|
        pixels.len() == width * height && content == #[trigger] readback::plain_content(pixels)
    ||| exists|rows: Seq<Seq<u8>>|
        rows.len() == height && writing::rows_fit_table(rows, psb) && content
            == #[trigger] readback::packed_content(rows, psb)
}

impl StoredLayer {
    /// The number of columns that channel `j` covers.
    pub open spec fn width(self, j: int) -> int {
        let r = covered(self.layer, self.layer.channels[j].0);
        extent(r.left, r.right)
    }

    /// The number of rows that channel `j` covers.
    pub open spec fn height(self, j: int) -> int {
        let r = covered(self.layer, self.layer.channels[j].0);
        extent(r.top, r.bottom)
    }

    /// Whether the layer can be written, and its channels are whole.
    pub open spec fn fits(self, psb: bool) -> bool {
        &&& self.layer.fits(psb)
        &&& self.contents.len() == self.layer.channels.len()
        &&& forall|j: int|
            0 <= j < self.contents.len() ==> self.layer.channels[j].1 == (
            #[trigger] self.contents[j]).len()
        &&& forall|j: int|
            0 <= j < self.contents.len() ==> content_fits(
                #[trigger] self.contents[j],
                self.width(j),
                self.height(j),
                psb,
            )
    }
}

/// Whether all the layers can be written.
pub open spec fn all_fit(ls: Seq<StoredLayer>, psb: bool) -> bool {
    forall|i: int| 0 <= i < ls.len() ==> (#[trigger] ls[i]).fits(psb)
}

/// The records, one after another.
pub open spec fn written_records(ls: Seq<StoredLayer>, psb: bool) -> Seq<u8>
    decreases ls.len(),
{
    if ls.len() == 0 {
        seq![]
    } else {
        written_records(ls.drop_last(), psb) + ls.last().layer.written(psb)
    }
}

/// The contents of all the channels, layer by layer.
pub open spec fn stored_data(ls: Seq<StoredLayer>) -> Seq<u8>
    decreases ls.len(),
{
    if ls.len() == 0 {
        seq![]
    } else {
        stored_data(ls.drop_last()) + writing::joined(ls.last().contents)
    }
}

/// Where channel `j` of layer `i` begins, when the first channel begins at `from`.
pub open spec fn place(ls: Seq<StoredLayer>, i: int, j: int, from: int) -> int {
    from + stored_data(ls.take(i)).len() + writing::total(ls[i].contents.take(j))
}

/// Layer `i` with its first `n` channels, as they are read.
pub open spec fn layer_read(
    d: Seq<u8>,
    ls: Seq<StoredLayer>,
    i: int,
    n: int,
    from: int,
    psb: bool,
) -> layers::LayerView {
    layers::LayerView {
        channels: Seq::new(
            n as nat,
            |j: int|
                (
                    ls[i].layer.channels[j].0,
                    channel::channel_at(
                        d,
                        place(ls, i, j, from),
                        ls[i].contents[j].len() as int,
                        ls[i].width(j),
                        ls[i].height(j),
                        psb,
                    ),
                ),
        ),
        ..ls[i].layer.read()
    }
}

/// All the layers, as they are read.
pub open spec fn layers_read(
    d: Seq<u8>,
    ls: Seq<StoredLayer>,
    from: int,
    psb: bool,
) -> Seq<layers::LayerView> {
    Seq::new(
        ls.len(),
        |i: int| layer_read(d, ls, i, ls[i].layer.channels.len() as int, from, psb),
    )
}

/// The records with their lists.
spec fn records_of(ls: Seq<StoredLayer>) -> Seq<layer_info::Listed> {
    Seq::new(ls.len(), |i: int| (ls[i].layer.read(), ls[i].layer.channels))
}

/// Records are read one after another as they were written.
proof fn records_are_read(d: Seq<u8>, pos: int, ls: Seq<StoredLayer>, psb: bool)
    requires
        writing::holds(d, pos, written_records(ls, psb)),
        all_fit(ls, psb),
        d.len() <= u64::MAX,
    ensures
        layer_info::records_at(d, pos, ls.len() as int, psb) == Ok::<
            (Seq<layer_info::Listed>, int),
            ParseError,
        >((records_of(ls), pos + written_records(ls, psb).len())),
    decreases ls.len(),
{
    if ls.len() == 0 {
        assert(records_of(ls) =~= seq![]);
    } else {
        let before = ls.drop_last();
        let last = ls.last();
        assert(ls[ls.len() - 1] == last);
        assert forall|i: int| 0 <= i < before.len() implies (#[trigger] before[i]).fits(psb) by {
            assert(before[i] == ls[i]);
        }
        writing::held_pieces(d, pos, written_records(before, psb), last.layer.written(psb));
        records_are_read(d, pos, before, psb);
        written_layers::written_records_are_read(
            d,
            pos + written_records(before, psb).len(),
            last.layer,
            psb,
        );
        assert(records_of(ls) =~= records_of(before).push((last.layer.read(), last.layer.channels)));
    }
}

/// How many channels the first `m` layers have.
spec fn count_before(ls: Seq<StoredLayer>, m: int) -> int
    decreases m,
{
    if m <= 0 {
        0
    } else {
        count_before(ls, m - 1) + ls[m - 1].layer.channels.len()
    }
}

/// The slot of channel `j` of layer `i`.
spec fn slot_of(ls: Seq<StoredLayer>, i: int, j: int, from: int) -> Slot {
    Slot {
        record: i as usize,
        id: ls[i].layer.channels[j].0,
        len: ls[i].layer.channels[j].1,
        width: ls[i].width(j) as usize,
        height: ls[i].height(j) as usize,
        declared: place(ls, i, j, from) as u64,
    }
}

/// The contents of the layers are held one after another, and those of each layer too.
proof fn held_contents(d: Seq<u8>, from: int, ls: Seq<StoredLayer>, i: int, j: int)
    requires
        writing::holds(d, from, stored_data(ls)),
        0 <= i < ls.len(),
        0 <= j <= ls[i].contents.len(),
    ensures
        0 <= from,
        from + stored_data(ls).len() <= d.len(),
        stored_data(ls.take(i)).len() <= stored_data(ls).len(),
        writing::holds(d, from + stored_data(ls.take(i)).len(), writing::joined(ls[i].contents)),
        from <= place(ls, i, j, from) <= from + stored_data(ls).len(),
        j < ls[i].contents.len() ==> writing::holds(
            d,
            place(ls, i, j, from),
            ls[i].contents[j],
        ) && place(ls, i, j + 1, from) == place(ls, i, j, from) + ls[i].contents[j].len(),
        place(ls, i, ls[i].contents.len() as int, from) == from + stored_data(ls.take(i + 1)).len(),
    decreases ls.len(),
{
    let before = ls.drop_last();
    writing::held_pieces(d, from, stored_data(before), writing::joined(ls.last().contents));
    if i < before.len() {
        held_contents(d, from, before, i, j);
        assert(before.take(i) =~= ls.take(i));
        assert(before.take(i + 1) =~= ls.take(i + 1));
        assert(before[i] == ls[i]);
    } else {
        assert(ls.take(i) =~= before);
        assert(ls.take(i + 1) =~= ls);
        let all = ls[i].contents;
        writing::held_piece(d, from + stored_data(before).len(), all, j);
        assert(all.take(all.len() as int) =~= all);
    }
}

/// Where a list of channels ends.
proof fn list_ends(list: Seq<(i16, u64)>, contents: Seq<Seq<u8>>, at: int, j: int)
    requires
        list.len() == contents.len(),
        forall|k: int| 0 <= k < contents.len() ==> list[k].1 == (#[trigger] contents[k]).len(),
        0 <= at,
        at + writing::total(contents) <= u64::MAX,
        0 <= j <= list.len(),
    ensures
        layer_info::list_end(list.take(j), at) == at + writing::total(contents.take(j)),
        0 <= writing::total(contents.take(j)) <= writing::total(contents),
    decreases list.len() - j, j,
{
    totals_are_parts(contents, j);
    if j > 0 {
        list_ends_below(list, contents, at, j);
    } else {
        assert(list.take(0) =~= seq![]);
        assert(contents.take(0) =~= seq![]);
    }
}

proof fn list_ends_below(list: Seq<(i16, u64)>, contents: Seq<Seq<u8>>, at: int, j: int)
    requires
        list.len() == contents.len(),
        forall|k: int| 0 <= k < contents.len() ==> list[k].1 == (#[trigger] contents[k]).len(),
        0 <= at,
        at + writing::total(contents) <= u64::MAX,
        0 <= j <= list.len(),
    ensures
        layer_info::list_end(list.take(j), at) == at + writing::total(contents.take(j)),
    decreases j,
{
    totals_are_parts(contents, j);
    if j > 0 {
        list_ends_below(list, contents, at, j - 1);
        assert(list.take(j).drop_last() =~= list.take(j - 1));
        assert(contents.take(j).drop_last() =~= contents.take(j - 1));
        assert(contents.take(j).last() == contents[j - 1]);
        assert(list.take(j).last() == list[j - 1]);
    } else {
        assert(list.take(0) =~= seq![]);
        assert(contents.take(0) =~= seq![]);
    }
}

/// A part of the pieces is no longer than all of them.
proof fn totals_are_parts(pieces: Seq<Seq<u8>>, j: int)
    requires
        0 <= j <= pieces.len(),
    ensures
        0 <= writing::total(pieces.take(j)) <= writing::total(pieces),
    decreases pieces.len(),
{
    if pieces.len() > 0 {
        let before = pieces.drop_last();
        if j < pieces.len() {
            totals_are_parts(before, j);
            assert(before.take(j) =~= pieces.take(j));
        } else {
            totals_are_parts(before, before.len() as int);
            assert(before.take(before.len() as int) =~= before);
            assert(pieces.take(j) =~= pieces);
        }
    } else {
        assert(pieces.take(j) =~= pieces);
    }
}

/// The slots of one layer.
proof fn record_slots_are(
    record: layers::LayerView,
    index: int,
    list: Seq<(i16, u64)>,
    at: int,
    j: int,
)
    requires
        0 <= j <= list.len(),
    ensures
        layer_info::record_slots(record, index, list, at).len() == list.len(),
        j < list.len() ==> layer_info::record_slots(record, index, list, at)[j] == (Slot {
            record: index as usize,
            id: list[j].0,
            len: list[j].1,
            width: layer_info::channel_rect(record, list[j].0).columns() as usize,
            height: layer_info::channel_rect(record, list[j].0).lines() as usize,
            declared: layer_info::list_end(list.take(j), at) as u64,
        }),
    decreases list.len(),
{
    if list.len() > 0 {
        let before = list.drop_last();
        if j < before.len() {
            record_slots_are(record, index, before, at, j);
            assert(before.take(j) =~= list.take(j));
            assert(before[j] == list[j]);
        } else {
            record_slots_are(record, index, before, at, before.len() as int);
            if j < list.len() {
                assert(list.take(j) =~= before);
            }
        }
    }
}

/// The slots of the last layer follow those of the layers before it.
proof fn last_slots_are(d: Seq<u8>, at: int, ls: Seq<StoredLayer>, psb: bool, j: int)
    requires
        ls.len() > 0,
        writing::holds(d, at, writing::joined(ls.last().contents)),
        ls.last().fits(psb),
        d.len() <= u64::MAX,
        0 <= j <= ls.last().layer.channels.len(),
    ensures
        ({
            let l = ls.last();
            let slots = layer_info::record_slots(
                l.layer.read(),
                ls.len() - 1,
                l.layer.channels,
                at,
            );
            &&& layer_info::list_end(l.layer.channels, at) == at + writing::joined(l.contents).len()
            &&& slots.len() == l.layer.channels.len()
            &&& j < slots.len() ==> slots[j] == (Slot {
                record: (ls.len() - 1) as usize,
                id: l.layer.channels[j].0,
                len: l.layer.channels[j].1,
                width: l.width(j) as usize,
                height: l.height(j) as usize,
                declared: (at + writing::total(l.contents.take(j))) as u64,
            })
        }),
{
    let l = ls.last();
    let list = l.layer.channels;
    let n = list.len() as int;
    writing::held_bytes(d, at, writing::joined(l.contents));
    writing::held_piece(d, at, l.contents, n);
    assert(l.contents.take(n) =~= l.contents);
    assert(list.take(n) =~= list);
    list_ends(list, l.contents, at, n);
    list_ends(list, l.contents, at, j);
    record_slots_are(l.layer.read(), ls.len() - 1, list, at, j);
    if j < n {
        rect_is_covered(l.layer, list[j].0);
    }
}

/// A channel covers the rectangle that it was written for.
proof fn rect_is_covered(l: WrittenLayer, id: i16)
    ensures
        layer_info::channel_rect(l.read(), id) == covered(l, id),
{
    reveal(WrittenLayer::read);
}

/// The slots of all the layers are those of the channels, in their order.
proof fn slots_are(d: Seq<u8>, from: int, ls: Seq<StoredLayer>, psb: bool, i: int, j: int)
    requires
        writing::holds(d, from, stored_data(ls)),
        all_fit(ls, psb),
        d.len() <= u64::MAX,
        ls.len() <= usize::MAX,
        0 <= i < ls.len() ==> 0 <= j < ls[i].layer.channels.len(),
    ensures
        layer_info::slots_end(records_of(ls), from) == from + stored_data(ls).len(),
        layer_info::slots_of(records_of(ls), from).len() == count_before(ls, ls.len() as int),
        0 <= i < ls.len() ==> 0 <= count_before(ls, i) && count_before(ls, i) + j < count_before(
            ls,
            ls.len() as int,
        ) && layer_info::slots_of(records_of(ls), from)[count_before(ls, i) + j] == slot_of(
            ls,
            i,
            j,
            from,
        ),
    decreases ls.len(),
{
    if ls.len() > 0 {
        let before = ls.drop_last();
        let n = before.len() as int;
        let last = ls.last();
        let recs = records_of(ls);
        assert(recs.drop_last() =~= records_of(before));
        assert(recs.last() == (last.layer.read(), last.layer.channels));
        assert(last == ls[n]);
        assert(last.fits(psb));
        assert forall|k: int| 0 <= k < before.len() implies (#[trigger] before[k]).fits(psb) by {
            assert(before[k] == ls[k]);
        }
        writing::held_pieces(d, from, stored_data(before), writing::joined(last.contents));
        if 0 <= i < n {
            assert(before[i] == ls[i]);
        }
        slots_are(d, from, before, psb, i, j);
        counts_agree(before, ls, n);
        let at = from + stored_data(before).len();
        counts_rise(ls, n);
        if 0 <= i < n {
            last_slots_are(d, at, ls, psb, 0);
            counts_agree(before, ls, i);
            assert(before.take(i) =~= ls.take(i));
        } else if i == n {
            last_slots_are(d, at, ls, psb, j);
            assert(ls.take(n) =~= before);
        } else {
            last_slots_are(d, at, ls, psb, 0);
        }
    } else {
        assert(records_of(ls) =~= seq![]);
    }
}

proof fn counts_agree(a: Seq<StoredLayer>, b: Seq<StoredLayer>, m: int)
    requires
        m <= a.len() <= b.len(),
        forall|k: int| 0 <= k < a.len() ==> a[k] == #[trigger] b[k],
    ensures
        count_before(a, m) == count_before(b, m),
    decreases m,
{
    if m > 0 {
        counts_agree(a, b, m - 1);
        assert(a[m - 1] == b[m - 1]);
    }
}

proof fn counts_rise(ls: Seq<StoredLayer>, m: int)
    ensures
        0 <= count_before(ls, m),
    decreases m,
{
    if m > 0 {
        counts_rise(ls, m - 1);
    }
}

/// Every number below the count of the channels is that of a channel.
proof fn number_is_of_a_channel(ls: Seq<StoredLayer>, m: int, k: int) -> (r: (int, int))
    requires
        0 <= m <= ls.len(),
        0 <= k < count_before(ls, m),
    ensures
        0 <= r.0 < m,
        0 <= r.1 < ls[r.0].layer.channels.len(),
        count_before(ls, r.0) + r.1 == k,
    decreases m,
{
    if k >= count_before(ls, m - 1) {
        (m - 1, k - count_before(ls, m - 1))
    } else {
        number_is_of_a_channel(ls, m - 1, k)
    }
}

/// A channel that was written whole lies at its declared place.
proof fn content_is_written(d: Seq<u8>, from: int, ls: Seq<StoredLayer>, psb: bool, i: int, j: int)
    requires
        writing::holds(d, from, stored_data(ls)),
        all_fit(ls, psb),
        d.len() <= u64::MAX,
        0 <= i < ls.len(),
        0 <= j < ls[i].layer.channels.len(),
    ensures
        readback::written_at(d, place(ls, i, j, from), slot_of(ls, i, j, from), psb),
        0 <= place(ls, i, j, from) <= u64::MAX,
{
    let l = ls[i];
    assert(l.fits(psb));
    held_contents(d, from, ls, i, j);
    let pos = place(ls, i, j, from);
    let slot = slot_of(ls, i, j, from);
    let content = l.contents[j];
    assert(content_fits(content, l.width(j), l.height(j), psb));
    assert(slot.len == content.len());
    writing::held_bytes(d, pos, content);
    if content.len() == 0 {
    } else if exists|pixels: Seq<u8>|
        pixels.len() == l.width(j) * l.height(j) && content == #[trigger] readback::plain_content(
            pixels,
        ) {
        let pixels = choose|pixels: Seq<u8>|
            pixels.len() == l.width(j) * l.height(j) && content
                == #[trigger] readback::plain_content(pixels);
        assert(readback::plain_as(d, pos, slot, pixels));
    } else {
        let rows = choose|rows: Seq<Seq<u8>>|
            rows.len() == l.height(j) && writing::rows_fit_table(rows, psb) && content
                == #[trigger] readback::packed_content(rows, psb);
        assert(readback::packed_as(d, pos, slot, rows, psb));
    }
}

/// The layers after the channels up to number `j` of layer `m` have been read.
spec fn added(
    d: Seq<u8>,
    ls: Seq<StoredLayer>,
    m: int,
    j: int,
    from: int,
    psb: bool,
) -> Seq<layers::LayerView> {
    Seq::new(
        ls.len(),
        |i: int|
            layer_read(
                d,
                ls,
                i,
                if i < m {
                    ls[i].layer.channels.len() as int
                } else if i == m {
                    j
                } else {
                    0
                },
                from,
                psb,
            ),
    )
}

/// One channel more.
proof fn one_more_is_added(
    d: Seq<u8>,
    ls: Seq<StoredLayer>,
    m: int,
    j: int,
    from: int,
    psb: bool,
)
    requires
        0 <= m < ls.len() <= usize::MAX,
        0 <= j < ls[m].layer.channels.len(),
        ls[m].layer.channels[j].1 == ls[m].contents[j].len(),
        0 <= place(ls, m, j, from) <= u64::MAX,
    ensures
        layer_info::with_channel(
            d,
            added(d, ls, m, j, from, psb),
            slot_of(ls, m, j, from),
            Some(slot_of(ls, m, j, from).declared),
            psb,
        ) == added(d, ls, m, j + 1, from, psb),
{
    let before = added(d, ls, m, j, from, psb);
    let slot = slot_of(ls, m, j, from);
    let after = layer_info::with_channel(d, before, slot, Some(slot.declared), psb);
    let wanted = added(d, ls, m, j + 1, from, psb);
    let r = covered(ls[m].layer, ls[m].layer.channels[j].0);
    assert(slot.width == ls[m].width(j) && slot.height == ls[m].height(j));
    assert(after[m].channels =~= wanted[m].channels);
    assert(after[m] == wanted[m]);
    assert(after =~= wanted);
}

/// The channels are added one by one to their layers.
proof fn channels_are_added(
    d: Seq<u8>,
    from: int,
    ls: Seq<StoredLayer>,
    psb: bool,
    starts: Seq<Option<u64>>,
    m: int,
    j: int,
)
    requires
        writing::holds(d, from, stored_data(ls)),
        all_fit(ls, psb),
        d.len() <= u64::MAX,
        ls.len() <= usize::MAX,
        0 <= m < ls.len(),
        0 <= j <= ls[m].layer.channels.len(),
        starts.len() == count_before(ls, ls.len() as int),
        forall|k: int|
            0 <= k < starts.len() ==> #[trigger] starts[k] == Some(
                layer_info::slots_of(records_of(ls), from)[k].declared,
            ),
    ensures
        layer_info::with_channels(
            d,
            layer_info::bare(records_of(ls)),
            layer_info::slots_of(records_of(ls), from),
            starts,
            count_before(ls, m) + j,
            psb,
        ) == added(d, ls, m, j, from, psb),
    decreases m, j,
{
    let slots = layer_info::slots_of(records_of(ls), from);
    let bare = layer_info::bare(records_of(ls));
    counts_rise(ls, m);
    let n = count_before(ls, m) + j;
    if j > 0 {
        channels_are_added(d, from, ls, psb, starts, m, j - 1);
        slots_are(d, from, ls, psb, m, j - 1);
        content_is_written(d, from, ls, psb, m, j - 1);
        assert(ls[m].fits(psb));
        assert(ls[m].layer.channels[j - 1].1 == ls[m].contents[j - 1].len());
        assert(slots[n - 1] == slot_of(ls, m, j - 1, from));
        assert(starts[n - 1] == Some(slots[n - 1].declared));
        one_more_is_added(d, ls, m, j - 1, from, psb);
    } else if m > 0 {
        let last = ls[m - 1].layer.channels.len() as int;
        channels_are_added(d, from, ls, psb, starts, m - 1, last);
        let a = added(d, ls, m - 1, last, from, psb);
        let b = added(d, ls, m, 0, from, psb);
        assert forall|i: int| 0 <= i < ls.len() implies a[i] == b[i] by {}
        assert(a =~= b);
    } else {
        let all = added(d, ls, 0, 0, from, psb);
        assert forall|i: int| 0 <= i < ls.len() implies #[trigger] all[i] == bare[i] by {
            bare_layers_have_no_channels(ls[i].layer);
            assert(all[i].channels =~= seq![]);
        }
        assert(all =~= bare);
    }
}

proof fn bare_layers_have_no_channels(l: WrittenLayer)
    ensures
        l.read().channels == Seq::<(i16, channel::ChannelView)>::empty(),
{
    reveal(WrittenLayer::read);
}

/// A part with layers as a writer stores it: their number, which may be given as a negative one,
/// the records, and the contents of the channels.
pub open spec fn written_info(ls: Seq<StoredLayer>, negative: bool, psb: bool) -> Seq<u8> {
    let n = ls.len() as int;
    writing::put16(
        writing::unsigned(
            if negative {
                -n
            } else {
                n
            },
            65536,
        ),
    ) + (written_records(ls, psb) + stored_data(ls))
}

/// Layers are read back: every record with all it says, and every channel at the place where its
/// content lies. None of them is damaged, and nothing has moved.
pub proof fn written_layers_are_read(
    d: Seq<u8>,
    pos: int,
    ls: Seq<StoredLayer>,
    negative: bool,
    psb: bool,
)
    requires
        writing::holds(d, pos, written_info(ls, negative, psb)),
        all_fit(ls, psb),
        ls.len() < 32768,
        d.len() <= u64::MAX,
    ensures
        ({
            let from = pos + 2 + written_records(ls, psb).len();
            layer_info::layer_info_at(d, pos, psb) == Ok::<
                (Seq<layers::LayerView>, int, int),
                ParseError,
            >((layers_read(d, ls, from, psb), 0, pos + written_info(ls, negative, psb).len()))
        }),
{
    reveal(layer_info::layer_info_at);
    let n = ls.len() as int;
    let stored = if negative {
        -n
    } else {
        n
    };
    let number = writing::put16(writing::unsigned(stored, 65536));
    writing::held_pieces(d, pos, number, written_records(ls, psb) + stored_data(ls));
    writing::written_signed_is_read(d, pos, stored);
    writing::held_pieces(d, pos + 2, written_records(ls, psb), stored_data(ls));
    records_are_read(d, pos + 2, ls, psb);
    let from = pos + 2 + written_records(ls, psb).len();
    let slots = layer_info::slots_of(records_of(ls), from);
    slots_are(d, from, ls, psb, -1, 0);
    assert forall|k: int| 0 <= k < slots.len() implies readback::written_at(
        d,
        (#[trigger] slots[k]).declared as int,
        slots[k],
        psb,
    ) by {
        let (i, j) = number_is_of_a_channel(ls, n, k);
        slots_are(d, from, ls, psb, i, j);
        content_is_written(d, from, ls, psb, i, j);
    }
    readback::intact_channels_are_found(d, slots, psb);
    let starts = locate::located(d, slots, psb).0;
    let all = layer_info::with_channels(
        d,
        layer_info::bare(records_of(ls)),
        slots,
        starts,
        slots.len() as int,
        psb,
    );
    if n > 0 {
        let last = ls[n - 1].layer.channels.len() as int;
        channels_are_added(d, from, ls, psb, starts, n - 1, last);
        assert(added(d, ls, n - 1, last, from, psb) =~= layers_read(d, ls, from, psb));
    } else {
        assert(slots.len() == 0);
        assert(all =~= layers_read(d, ls, from, psb));
    }
}

/// The content of each channel lies at its place.
pub proof fn held_data(
    d: Seq<u8>,
    pos: int,
    ls: Seq<StoredLayer>,
    negative: bool,
    psb: bool,
    i: int,
    j: int,
)
    requires
        writing::holds(d, pos, written_info(ls, negative, psb)),
        0 <= i < ls.len(),
        0 <= j < ls[i].contents.len(),
    ensures
        writing::holds(
            d,
            place(ls, i, j, pos + 2 + written_records(ls, psb).len()),
            ls[i].contents[j],
        ),
{
    let n = ls.len() as int;
    let number = writing::put16(
        writing::unsigned(
            if negative {
                -n
            } else {
                n
            },
            65536,
        ),
    );
    writing::held_pieces(d, pos, number, written_records(ls, psb) + stored_data(ls));
    writing::held_pieces(d, pos + 2, written_records(ls, psb), stored_data(ls));
    held_contents(d, pos + 2 + written_records(ls, psb).len(), ls, i, j);
}

} // verus!
