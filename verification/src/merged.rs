//! The merged image that a file holds after its layers.
use vstd::prelude::*;

use crate::bytes;
use crate::channel;
use crate::channel::{Channel, ChannelView, Compression};

verus! {

/// Where the row with index `k`, counted over all the channels, begins. The rows follow each other
/// from `first` on and are held inside the file. Their lengths stand in the table at `body`.
pub open spec fn merged_row(d: Seq<u8>, body: int, first: int, k: int, psb: bool) -> int
    decreases k,
{
    if k <= 0 {
        first
    } else {
        channel::min2(
            merged_row(d, body, first, k - 1, psb) + channel::row_len_at(
                d,
                body + (k - 1) * channel::entry_size(psb),
                psb,
            ),
            d.len() as int,
        )
    }
}

/// Channel `c` of an image whose pixels are stored as they are.
pub open spec fn plain_channel(body: int, c: int, width: int, height: int) -> ChannelView {
    ChannelView {
        width,
        compression: Compression::Raw,
        start: bytes::clamp_position(body + c * (width * height)),
        end: bytes::clamp_position(body + (c + 1) * (width * height)),
        rows: seq![],
    }
}

/// Channel `c` of an image whose rows are packed.
pub open spec fn packed_channel(
    d: Seq<u8>,
    body: int,
    first: int,
    c: int,
    width: int,
    height: int,
    psb: bool,
) -> ChannelView {
    let start = merged_row(d, body, first, c * height, psb);
    ChannelView {
        width,
        compression: Compression::Rle,
        start,
        end: merged_row(d, body, first, c * height + height, psb),
        rows: Seq::new(
            (height + 1) as nat,
            |i: int|
                {
                    let at = merged_row(d, body, first, c * height + i, psb);
                    channel::low32(
                        if at >= start {
                            at - start
                        } else {
                            0
                        },
                    )
                },
        ),
    }
}

/// The channels of the merged image at `pos`. There are none where the file ends before it, or
/// where its compression is not known.
pub open spec fn merged_at(
    d: Seq<u8>,
    pos: int,
    channels: int,
    width: int,
    height: int,
    psb: bool,
) -> Seq<ChannelView> {
    let body = pos + 2;
    if !bytes::within(d, pos, 2) {
        seq![]
    } else if bytes::be16(d, pos) == 0 {
        Seq::new(channels as nat, |c: int| plain_channel(body, c, width, height))
    } else if bytes::be16(d, pos) == 1 {
        // The table for all the channels comes before the rows.
        let first = bytes::sat(body, channels * height * channel::entry_size(psb));
        Seq::new(
            channels as nat,
            |c: int| packed_channel(d, body, first, c, width, height, psb),
        )
    } else {
        seq![]
    }
}

/// What a list of channels records.
pub open spec fn channels_view(s: Seq<Channel>) -> Seq<ChannelView> {
    s.map_values(|c: Channel| c@)
}

/// `at + count * size`, held at the largest position.
fn past(at: u64, count: u64, size: u128) -> (r: u64)
    requires
        count <= 65536,
        size <= 18446744065119617025,
    ensures
        r == bytes::clamp_position(at + count * size),
{
    assert(0 <= count * size <= 65536 * 18446744065119617025) by (nonlinear_arith)
        requires
            0 <= count <= 65536,
            0 <= size <= 18446744065119617025,
    ;
    let sum: u128 = at as u128 + count as u128 * size;
    if sum > u64::MAX as u128 {
        u64::MAX
    } else {
        sum as u64
    }
}

/// The channels of an image whose pixels are stored as they are.
fn plain_channels(body: u64, channels: u16, width: u32, height: u32) -> (r: Vec<Channel>)
    ensures
        channels_view(r@) == Seq::new(
            channels as nat,
            |c: int| plain_channel(body as int, c, width as int, height as int),
        ),
{
    assert(0 <= width * height <= 18446744065119617025) by (nonlinear_arith)
        requires
            0 <= width <= 4294967295,
            0 <= height <= 4294967295,
    ;
    let size: u128 = width as u128 * height as u128;
    let mut r: Vec<Channel> = Vec::new();
    let mut c: u16 = 0;
    while c < channels
        invariant
            c <= channels,
                size == width * height,
            size <= 18446744065119617025,
            channels_view(r@) =~= Seq::new(
                c as nat,
                |c: int| plain_channel(body as int, c, width as int, height as int),
            ),
        decreases channels - c,
    {
        let start: u64 = past(body, c as u64, size);
        let end: u64 = past(body, c as u64 + 1, size);
        let ghost before = channels_view(r@);
        let plain = Channel::from_parts(width as usize, Compression::Raw, start, end, Vec::new());
        assert(plain@ =~= plain_channel(body as int, c as int, width as int, height as int));
        r.push(plain);
        assert(channels_view(r@) =~= before.push(plain@));
        c = c + 1;
    }
    r
}

/// Reads one packed channel, the first row of which has index `k` and begins at `start`. The
/// second result is where its last row ends.
fn read_packed_channel(
    data: &[u8],
    body: u64,
    first: u64,
    c: u16,
    start: u64,
    width: u32,
    height: u32,
    psb: bool,
) -> (r: (Channel, u64))
    requires
        start == merged_row(data@, body as int, first as int, c * height, psb),
    ensures
        r.0@ == packed_channel(
            data@,
            body as int,
            first as int,
            c as int,
            width as int,
            height as int,
            psb,
        ),
        r.1 == merged_row(data@, body as int, first as int, c * height + height, psb),
{
    let size: usize = data.len();
    let entry: u64 = if psb { 4 } else { 2 };
    assert(0 <= c * height <= 65535 * 4294967295) by (nonlinear_arith)
        requires
            0 <= c <= 65535,
            0 <= height <= 4294967295,
    ;
    let k: u64 = c as u64 * height as u64;
    let mut rows: Vec<u32> = Vec::new();
    rows.push(0);
    let mut offset: u64 = start;
    let mut i: u32 = 0;
    let ghost all = packed_channel(
        data@,
        body as int,
        first as int,
        c as int,
        width as int,
        height as int,
        psb,
    );
    while i < height
        invariant
            i <= height,
            size == data@.len(),
            entry == channel::entry_size(psb),
            k == c * height,
            k <= 65535 * 4294967295,
            all == packed_channel(
                data@,
                body as int,
                first as int,
                c as int,
                width as int,
                height as int,
                psb,
            ),
            start == merged_row(data@, body as int, first as int, k as int, psb),
            offset == merged_row(data@, body as int, first as int, k + i, psb),
            rows@.len() == i + 1,
            forall|j: int| 0 <= j <= i ==> rows@[j] == all.rows[j],
        decreases height - i,
    {
        let at: u64 = body.saturating_add((k + i as u64) * entry);
        let n: u32 = channel::read_row_len(data, at, psb);
        assert(n == channel::row_len_at(data@, body + (k + i) * entry, psb));
        offset = channel::least(offset.saturating_add(n as u64), size as u64);
        i = i + 1;
        rows.push(channel::low_half(offset.saturating_sub(start)));
    }
    assert(rows@ =~= all.rows);
    (Channel::from_parts(width as usize, Compression::Rle, start, offset, rows), offset)
}

/// The channels of an image whose rows are packed.
fn packed_channels(data: &[u8], body: u64, channels: u16, width: u32, height: u32, psb: bool) -> (r:
    Vec<Channel>)
    ensures
        channels_view(r@) == Seq::new(
            channels as nat,
            |c: int|
                packed_channel(
                    data@,
                    body as int,
                    bytes::sat(body as int, channels * height * channel::entry_size(psb)),
                    c,
                    width as int,
                    height as int,
                    psb,
                ),
        ),
{
    let entry: u64 = if psb { 4 } else { 2 };
    assert(0 <= channels * height <= 65535 * 4294967295) by (nonlinear_arith)
        requires
            0 <= channels <= 65535,
            0 <= height <= 4294967295,
    ;
    let first: u64 = body.saturating_add(channels as u64 * height as u64 * entry);
    let mut offset: u64 = first;
    let mut r: Vec<Channel> = Vec::new();
    let mut c: u16 = 0;
    assert(0 * height == 0);
    while c < channels
        invariant
            c <= channels,
                offset == merged_row(data@, body as int, first as int, c * height, psb),
            channels_view(r@) =~= Seq::new(
                c as nat,
                |c: int|
                    packed_channel(
                        data@,
                        body as int,
                        first as int,
                        c,
                        width as int,
                        height as int,
                        psb,
                    ),
            ),
        decreases channels - c,
    {
        let (read, next) = read_packed_channel(
            data,
            body,
            first,
            c,
            offset,
            width,
            height,
            psb,
        );
        assert((c + 1) * height == c * height + height) by (nonlinear_arith);
        let ghost before = channels_view(r@);
        offset = next;
        r.push(read);
        assert(channels_view(r@) =~= before.push(read@));
        c = c + 1;
    }
    r
}

/// Reads the merged image at `pos`.
pub fn parse_merged(data: &[u8], pos: u64, channels: u16, width: u32, height: u32, psb: bool) -> (r:
    Vec<Channel>)
    ensures
        channels_view(r@) == merged_at(
            data@,
            pos as int,
            channels as int,
            width as int,
            height as int,
            psb,
        ),
{
    assert(data@.len() == data.len());
    match bytes::read16(data, pos) {
        Some(0) => plain_channels(pos + 2, channels, width, height),
        Some(1) => packed_channels(data, pos + 2, channels, width, height, psb),
        _ => Vec::new(),
    }
}

/// An image that is packed in another way, or that the file ends before, has no channels.
pub proof fn other_images_have_no_channels(
    d: Seq<u8>,
    pos: int,
    channels: int,
    width: int,
    height: int,
    psb: bool,
)
    ensures
        pos < 0 || pos + 2 > d.len() || d[pos] != 0 || d[pos + 1] > 1 ==> merged_at(
            d,
            pos,
            channels,
            width,
            height,
            psb,
        ).len() == 0,
{
}

/// A row of a packed image begins no later than the data ends, whatever the table says, and no
/// earlier than the row before it.
pub proof fn merged_rows_stay_inside(d: Seq<u8>, body: int, first: int, k: int, psb: bool)
    requires
        k > 0,
        first <= d.len(),
    ensures
        merged_row(d, body, first, k, psb) <= d.len(),
        merged_row(d, body, first, k - 1, psb) <= merged_row(d, body, first, k, psb),
    decreases k,
{
    if k > 1 {
        merged_rows_stay_inside(d, body, first, k - 1, psb);
    }
}

} // verus!
