//! What was written is read back: the laws of channels and of the merged image.
use vstd::prelude::*;

use crate::bytes;
use crate::channel;
use crate::locate;
use crate::locate::Slot;
use crate::merged;
use crate::packbits;
use crate::writing;

verus! {

/// A channel whose rows are packed, as a writer stores it: the number 1, the lengths of the rows,
/// and the rows.
pub open spec fn packed_content(rows: Seq<Seq<u8>>, psb: bool) -> Seq<u8> {
    writing::put16(1) + (writing::row_table(rows, psb) + writing::joined(rows))
}

/// A channel whose pixels are stored as they are, as a writer stores it: the number 0, and the
/// pixels, row by row.
pub open spec fn plain_content(pixels: Seq<u8>) -> Seq<u8> {
    writing::put16(0) + pixels
}

/// The parts of a packed channel are held one after another.
pub proof fn held_rows(d: Seq<u8>, at: int, rows: Seq<Seq<u8>>, psb: bool)
    requires
        writing::holds(d, at, packed_content(rows, psb)),
    ensures
        bytes::within(d, at, 2),
        bytes::be16(d, at) == 1,
        writing::holds(d, at + 2, writing::row_table(rows, psb)),
        writing::holds(
            d,
            at + 2 + rows.len() * writing::row_entry(psb),
            writing::joined(rows),
        ),
        packed_content(rows, psb).len() == 2 + rows.len() * writing::row_entry(psb)
            + writing::total(rows),
{
    reveal(writing::holds);
    let table = writing::row_table(rows, psb);
    writing::held_pieces(d, at, writing::put16(1), table + writing::joined(rows));
    writing::written16_is_read(d, at, 1);
    writing::held_pieces(d, at + 2, table, writing::joined(rows));
    writing::row_table_len(rows, psb);
    writing::held_piece(
        d,
        at + 2 + rows.len() * writing::row_entry(psb),
        rows,
        rows.len() as int,
    );
}

/// The lengths of a table add up to those of the rows.
proof fn table_adds_up(d: Seq<u8>, at: int, rows: Seq<Seq<u8>>, psb: bool, k: int)
    requires
        writing::holds(d, at, writing::row_table(rows, psb)),
        writing::rows_fit_table(rows, psb),
        0 <= k <= rows.len(),
    ensures
        channel::rows_total(d, at, k, psb) == writing::total(rows.take(k)),
        forall|i: int|
            0 <= i < k ==> #[trigger] channel::row_len_at(
                d,
                at + i * channel::entry_size(psb),
                psb,
            ) == rows[i].len(),
    decreases k,
{
    reveal(writing::holds);
    if k > 0 {
        table_adds_up(d, at, rows, psb, k - 1);
        writing::held_entry(d, at, rows, psb, k - 1);
        let place = at + (k - 1) * writing::row_entry(psb);
        if psb {
            writing::written32_is_read(d, place, rows[k - 1].len() as int);
        } else {
            writing::written16_is_read(d, place, rows[k - 1].len() as int);
        }
        assert(rows.take(k).drop_last() =~= rows.take(k - 1));
        assert(rows.take(k).last() == rows[k - 1]);
    } else {
        assert(rows.take(k) =~= seq![]);
    }
}

/// The pixels of a channel that stores them as they are come row by row from left to right.
pub proof fn plain_channels_are_read_back(
    d: Seq<u8>,
    start: int,
    pixels: Seq<u8>,
    width: int,
    height: int,
    psb: bool,
    row: int,
    x: int,
)
    requires
        writing::holds(d, start, plain_content(pixels)),
        pixels.len() == width * height,
        d.len() <= u64::MAX,
        0 <= row < height,
        0 <= x < width,
    ensures
        ({
            let c = channel::channel_at(d, start, 2 + width * height, width, height, psb);
            &&& channel::row_pixels(c, d, row).len() == width
            &&& channel::row_pixels(c, d, row)[x] == pixels[row * width + x]
        }),
{
    reveal(writing::holds);
    writing::held_pieces(d, start, writing::put16(0), pixels);
    writing::written16_is_read(d, start, 0);
    writing::held_bytes(d, start + 2, pixels);
    assert(0 <= row * width && row * width + width <= width * height) by (nonlinear_arith)
        requires
            0 <= row < height,
            0 < width,
    ;
    assert(d[start + 2 + (row * width + x)] == pixels[row * width + x]);
}

/// Each row of a packed channel is read as what its bytes stand for.
pub proof fn packed_channels_are_read_back(
    d: Seq<u8>,
    start: int,
    rows: Seq<Seq<u8>>,
    width: int,
    psb: bool,
    i: int,
)
    requires
        writing::holds(d, start, packed_content(rows, psb)),
        writing::rows_fit_table(rows, psb),
        packed_content(rows, psb).len() <= u32::MAX,
        d.len() <= u64::MAX,
        0 < width,
        0 <= i < rows.len(),
    ensures
        ({
            let c = channel::channel_at(
                d,
                start,
                packed_content(rows, psb).len() as int,
                width,
                rows.len() as int,
                psb,
            );
            channel::row_pixels(c, d, i) == packbits::fit(packbits::expand(rows[i]), width as nat)
        }),
{
    reveal(writing::holds);
    held_rows(d, start, rows, psb);
    let len = packed_content(rows, psb).len() as int;
    let height = rows.len() as int;
    let table = height * writing::row_entry(psb);
    let c = channel::channel_at(d, start, len, width, height, psb);
    table_adds_up(d, start + 2, rows, psb, i);
    table_adds_up(d, start + 2, rows, psb, i + 1);
    writing::held_piece(d, start + 2 + table, rows, i);
    assert(table >= 0) by (nonlinear_arith)
        requires
            table == height * writing::row_entry(psb),
            height >= 0,
            writing::row_entry(psb) >= 0,
    ;
    let from = table + writing::total(rows.take(i));
    let to = table + writing::total(rows.take(i + 1));
    assert(c.rows.len() == height + 1);
    assert(c.rows[i] == from);
    assert(c.rows[i + 1] == to);
    assert(d.subrange(c.start + c.rows[i], c.start + c.rows[i + 1]) == rows[i]);
}

/// Where the rows of a merged image begin: at the end of the table, and then each at the end of
/// the one before it.
proof fn merged_rows_follow(
    d: Seq<u8>,
    pos: int,
    rows: Seq<Seq<u8>>,
    psb: bool,
    k: int,
)
    requires
        writing::holds(d, pos, packed_content(rows, psb)),
        writing::rows_fit_table(rows, psb),
        0 <= k <= rows.len(),
    ensures
        ({
            let first = pos + 2 + rows.len() * writing::row_entry(psb);
            merged::merged_row(d, pos + 2, first, k, psb) == first + writing::total(rows.take(k))
        }),
    decreases k,
{
    reveal(writing::holds);
    held_rows(d, pos, rows, psb);
    let first = pos + 2 + rows.len() * writing::row_entry(psb);
    writing::held_piece(d, first, rows, k);
    if k > 0 {
        merged_rows_follow(d, pos, rows, psb, k - 1);
        writing::held_piece(d, first, rows, k - 1);
        table_adds_up(d, pos + 2, rows, psb, k);
        let at = pos + 2 + (k - 1) * channel::entry_size(psb);
        assert(channel::row_len_at(d, at, psb) == rows[k - 1].len());
    } else {
        assert(rows.take(0) =~= seq![]);
    }
}

/// Where the rows of a merged image whose rows are packed are looked for.
#[verifier::spinoff_prover]
proof fn merged_rows_are_noted(
    d: Seq<u8>,
    pos: int,
    rows: Seq<Seq<u8>>,
    channels: int,
    width: int,
    height: int,
    psb: bool,
    c: int,
    i: int,
)
    requires
        writing::holds(d, pos, packed_content(rows, psb)),
        writing::rows_fit_table(rows, psb),
        rows.len() == channels * height,
        writing::total(rows) <= u32::MAX,
        d.len() <= u64::MAX,
        0 <= width,
        0 <= c < channels,
        0 <= i <= height,
    ensures
        0 <= c * height <= c * height + height <= rows.len(),
        ({
            let image = merged::merged_at(d, pos, channels, width, height, psb);
            let first = pos + 2 + rows.len() * writing::row_entry(psb);
            let k = c * height;
            &&& image.len() == channels
            &&& image[c].width == width
            &&& image[c].compression is Rle
            &&& image[c].rows.len() == height + 1
            &&& image[c].start == first + writing::total(rows.take(k))
            &&& image[c].rows[i] == writing::total(rows.take(k + i)) - writing::total(rows.take(k))
        }),
{
    held_rows(d, pos, rows, psb);
    assert(0 <= c * height && c * height + height <= channels * height) by (nonlinear_arith)
        requires
            0 <= c < channels,
            0 <= height,
    ;
    let k = c * height;
    let first = pos + 2 + rows.len() * writing::row_entry(psb);
    assert(rows.len() * writing::row_entry(psb) == channels * height * writing::row_entry(psb));
    assert(writing::row_entry(psb) == channel::entry_size(psb));
    writing::held_bytes(d, first, writing::joined(rows));
    merged_rows_follow(d, pos, rows, psb, k);
    merged_rows_follow(d, pos, rows, psb, k + i);
    totals_grow(rows, 0, k);
    totals_grow(rows, k, k + i);
    totals_grow(rows, k + i, rows.len() as int);
    assert(rows.take(rows.len() as int) =~= rows);
    let v = writing::total(rows.take(k + i)) - writing::total(rows.take(k));
    assert(v % 4294967296 == v) by (nonlinear_arith)
        requires
            0 <= v < 4294967296,
    ;
    assert(bytes::sat(pos + 2, channels * height * channel::entry_size(psb)) == first);
    let read = merged::merged_at(d, pos, channels, width, height, psb)[c];
    assert(read == merged::packed_channel(d, pos + 2, first, c, width, height, psb));
    assert(read.rows[i] == channel::low32(v));
}

/// A merged image whose rows are packed is read back: its rows come channel by channel, and each
/// is read as what its bytes stand for.
pub proof fn packed_merged_images_are_read_back(
    d: Seq<u8>,
    pos: int,
    rows: Seq<Seq<u8>>,
    channels: int,
    width: int,
    height: int,
    psb: bool,
    c: int,
    i: int,
)
    requires
        writing::holds(d, pos, packed_content(rows, psb)),
        writing::rows_fit_table(rows, psb),
        rows.len() == channels * height,
        writing::total(rows) <= u32::MAX,
        d.len() <= u64::MAX,
        0 <= width,
        0 <= c < channels,
        0 <= i < height,
    ensures
        ({
            let image = merged::merged_at(d, pos, channels, width, height, psb);
            &&& image.len() == channels
            &&& channel::row_pixels(image[c], d, i) == packbits::fit(
                packbits::expand(rows[c * height + i]),
                width as nat,
            )
        }),
{
    merged_rows_are_noted(d, pos, rows, channels, width, height, psb, c, i);
    merged_rows_are_noted(d, pos, rows, channels, width, height, psb, c, i + 1);
    held_rows(d, pos, rows, psb);
    let k = c * height;
    let first = pos + 2 + rows.len() * writing::row_entry(psb);
    writing::held_piece(d, first, rows, k + i);
    totals_grow(rows, k, k + i);
    let read = merged::merged_at(d, pos, channels, width, height, psb)[c];
    let from = first + writing::total(rows.take(k + i));
    assert(rows.take(k + i + 1).drop_last() =~= rows.take(k + i));
    assert(read.start + read.rows[i] == from);
    assert(read.start + read.rows[i + 1] == from + rows[k + i].len());
    writing::held_bytes(d, from, rows[k + i]);
}

/// More pieces are no shorter.
proof fn totals_grow(pieces: Seq<Seq<u8>>, a: int, b: int)
    requires
        0 <= a <= b <= pieces.len(),
    ensures
        writing::total(pieces.take(a)) <= writing::total(pieces.take(b)),
    decreases b,
{
    reveal(writing::holds);
    if a < b {
        totals_grow(pieces, a, b - 1);
        assert(pieces.take(b).drop_last() =~= pieces.take(b - 1));
    }
}

/// A merged image that stores its pixels as they are is read back: its pixels come channel by
/// channel, and in each row by row.
pub proof fn plain_merged_images_are_read_back(
    d: Seq<u8>,
    pos: int,
    pixels: Seq<u8>,
    channels: int,
    width: int,
    height: int,
    psb: bool,
    c: int,
    i: int,
    x: int,
)
    requires
        writing::holds(d, pos, plain_content(pixels)),
        pixels.len() == channels * (width * height),
        d.len() <= u64::MAX,
        0 <= c < channels,
        0 <= i < height,
        0 <= x < width,
    ensures
        ({
            let image = merged::merged_at(d, pos, channels, width, height, psb);
            &&& image.len() == channels
            &&& channel::row_pixels(image[c], d, i).len() == width
            &&& channel::row_pixels(image[c], d, i)[x] == pixels[(c * height + i) * width + x]
        }),
{
    reveal(writing::holds);
    writing::held_pieces(d, pos, writing::put16(0), pixels);
    writing::written16_is_read(d, pos, 0);
    writing::held_bytes(d, pos + 2, pixels);
    let size = width * height;
    assert(0 <= i * width && i * width + width <= size) by (nonlinear_arith)
        requires
            0 <= i < height,
            0 < width,
            size == width * height,
    ;
    assert(0 <= c * size && c * size + size <= channels * size && (c + 1) * size == c * size + size)
        by (nonlinear_arith)
        requires
            0 <= c < channels,
            0 <= size,
    ;
    assert((c * height + i) * width == c * size + i * width) by (nonlinear_arith)
        requires
            size == width * height,
    ;
    let at = c * size + i * width + x;
    assert(d[pos + 2 + at] == pixels[at]);
}

/// Whether the channel at `pos` is packed, with these rows.
pub open spec fn packed_as(
    d: Seq<u8>,
    pos: int,
    slot: Slot,
    rows: Seq<Seq<u8>>,
    psb: bool,
) -> bool {
    &&& rows.len() == slot.height
    &&& writing::rows_fit_table(rows, psb)
    &&& slot.len == packed_content(rows, psb).len()
    &&& writing::holds(d, pos, packed_content(rows, psb))
}

/// Whether the channel at `pos` stores its pixels as they are, as many as it covers.
pub open spec fn plain_as(d: Seq<u8>, pos: int, slot: Slot, pixels: Seq<u8>) -> bool {
    &&& pixels.len() == slot.width * slot.height
    &&& slot.len == 2 + pixels.len()
    &&& writing::holds(d, pos, plain_content(pixels))
}

/// Whether the bytes from `pos` on are those of a channel as its slot declares it: none at all,
/// pixels as they are, packed rows, or one of the two methods that are taken on trust.
pub open spec fn written_at(d: Seq<u8>, pos: int, slot: Slot, psb: bool) -> bool {
    ||| slot.len == 0 && 0 <= pos <= d.len()
    ||| exists|pixels: Seq<u8>| #[trigger] plain_as(d, pos, slot, pixels)
    ||| exists|rows: Seq<Seq<u8>>| #[trigger] packed_as(d, pos, slot, rows, psb)
    ||| slot.len >= 2 && pos + slot.len <= d.len() && (writing::holds(d, pos, writing::put16(2))
        || writing::holds(d, pos, writing::put16(3)))
}

/// A channel that was written as declared has a sound header.
proof fn written_channels_are_sound(d: Seq<u8>, pos: int, slot: Slot, psb: bool)
    requires
        written_at(d, pos, slot, psb),
    ensures
        locate::header_sound(d, pos, slot, psb),
{
    reveal(writing::holds);
    if slot.len == 0 && 0 <= pos <= d.len() {
    } else if exists|pixels: Seq<u8>| #[trigger] plain_as(d, pos, slot, pixels) {
        let pixels = choose|pixels: Seq<u8>| #[trigger] plain_as(d, pos, slot, pixels);
        writing::held_pieces(d, pos, writing::put16(0), pixels);
        writing::written16_is_read(d, pos, 0);
    } else if exists|rows: Seq<Seq<u8>>| #[trigger] packed_as(d, pos, slot, rows, psb) {
        let rows = choose|rows: Seq<Seq<u8>>| #[trigger] packed_as(d, pos, slot, rows, psb);
        held_rows(d, pos, rows, psb);
        table_adds_up(d, pos + 2, rows, psb, rows.len() as int);
        assert(rows.take(rows.len() as int) =~= rows);
        writing::held_piece(
            d,
            pos + 2 + rows.len() * writing::row_entry(psb),
            rows,
            rows.len() as int,
        );
        assert(rows.take(0) =~= seq![]);
    } else {
        if writing::holds(d, pos, writing::put16(2)) {
            writing::written16_is_read(d, pos, 2);
        } else {
            writing::written16_is_read(d, pos, 3);
        }
    }
}

/// The rows of a packed channel with a sound header.
spec fn rows_found(d: Seq<u8>, pos: int, slot: Slot, psb: bool, n: int) -> Seq<Seq<u8>> {
    Seq::new(
        n as nat,
        |k: int|
            d.subrange(
                locate::packed_from(d, pos, slot, k, psb),
                locate::packed_from(d, pos, slot, k, psb) + channel::row_len_at(
                    d,
                    pos + 2 + k * channel::entry_size(psb),
                    psb,
                ),
            ),
    )
}

/// Bytes that two 8-bit halves hold are those that a writer gives for their number.
pub proof fn read16_was_written(d: Seq<u8>, at: int)
    requires
        bytes::within(d, at, 2),
    ensures
        writing::holds(d, at, writing::put16(bytes::be16(d, at))),
        0 <= bytes::be16(d, at) < 65536,
{
    reveal(writing::holds);
    let n = bytes::be16(d, at);
    assert(writing::put16(n)[0] == d[at + 0] && writing::put16(n)[1] == d[at + 1]);
    writing::bytes_held(d, at, writing::put16(n));
}

proof fn read32_was_written(d: Seq<u8>, at: int)
    requires
        bytes::within(d, at, 4),
    ensures
        writing::holds(d, at, writing::put32(bytes::be32(d, at))),
        0 <= bytes::be32(d, at) < 4294967296,
{
    reveal(writing::holds);
    read16_was_written(d, at);
    read16_was_written(d, at + 2);
    let n = bytes::be32(d, at);
    assert(n / 65536 == bytes::be16(d, at) && n % 65536 == bytes::be16(d, at + 2));
    pieces_held(d, at, writing::put16(n / 65536), writing::put16(n % 65536));
}

/// Two pieces that are held one after the other are held as one.
pub proof fn pieces_held(d: Seq<u8>, at: int, a: Seq<u8>, b: Seq<u8>)
    requires
        writing::holds(d, at, a),
        writing::holds(d, at + a.len(), b),
    ensures
        writing::holds(d, at, a + b),
{
    reveal(writing::holds);
    writing::held_bytes(d, at, a);
    writing::held_bytes(d, at + a.len(), b);
    assert forall|i: int| 0 <= i < (a + b).len() implies d[at + i] == #[trigger] (a + b)[i] by {
        if i >= a.len() {
            assert(d[at + a.len() + (i - a.len())] == b[i - a.len()]);
        }
    }
    writing::bytes_held(d, at, a + b);
}

/// The first `n` rows of a channel with a sound header, and their table, are held.
proof fn found_rows_are_held(d: Seq<u8>, pos: int, slot: Slot, psb: bool, n: int)
    requires
        locate::header_sound(d, pos, slot, psb),
        slot.len >= 2,
        bytes::be16(d, pos) == 1,
        0 <= n <= slot.height,
    ensures
        ({
            let rows = rows_found(d, pos, slot, psb, n);
            &&& writing::rows_fit_table(rows, psb)
            &&& writing::holds(d, pos + 2, writing::row_table(rows, psb))
            &&& writing::total(rows) == channel::rows_total(d, pos + 2, n, psb)
            &&& writing::joined(rows).len() == writing::total(rows)
            &&& writing::holds(
                d,
                pos + 2 + slot.height * writing::row_entry(psb),
                writing::joined(rows),
            )
        }),
    decreases n,
{
    reveal(writing::holds);
    let rows = rows_found(d, pos, slot, psb, n);
    let entry = writing::row_entry(psb);
    let base = pos + 2 + slot.height * entry;
    assert(slot.height * entry >= 0) by (nonlinear_arith)
        requires
            slot.height >= 0,
            entry >= 0,
    ;
    locate::rows_total_grows(d, pos + 2, n, slot.height as int, psb);
    if n == 0 {
        assert(rows =~= seq![]);
        writing::bytes_held(d, pos + 2, seq![]);
        writing::bytes_held(d, base, seq![]);
    } else {
        found_rows_are_held(d, pos, slot, psb, n - 1);
        let before = rows_found(d, pos, slot, psb, n - 1);
        assert(rows.drop_last() =~= before);
        assert((n - 1) * entry + entry <= slot.height * entry && (n - 1) * entry >= 0)
            by (nonlinear_arith)
            requires
                1 <= n <= slot.height,
                entry >= 0,
        ;
        let at = pos + 2 + (n - 1) * entry;
        let count = channel::row_len_at(d, at, psb);
        if psb {
            read32_was_written(d, at);
        } else {
            read16_was_written(d, at);
        }
        let from = locate::packed_from(d, pos, slot, n - 1, psb);
        assert(from == base + writing::joined(before).len());
        locate::rows_total_grows(d, pos + 2, 0, n - 1, psb);
        assert(rows.last() =~= d.subrange(from, from + count));
        assert(rows.last().len() == count);
        writing::row_table_len(before, psb);
        pieces_held(d, pos + 2, writing::row_table(before, psb), writing::put_row_len(count, psb));
        assert(writing::holds(d, from, rows.last()));
        pieces_held(d, base, writing::joined(before), rows.last());
        assert forall|i: int| 0 <= i < rows.len() implies (#[trigger] rows[i]).len() < if psb {
            4294967296int
        } else {
            65536
        } by {
            if i < n - 1 {
                assert(rows[i] == before[i]);
            }
        }
    }
}

/// The header of a channel is sound at a place if and only if the bytes there are those of a
/// channel that was written as declared.
pub proof fn sound_headers_are_those_written(d: Seq<u8>, pos: int, slot: Slot, psb: bool)
    ensures
        locate::header_sound(d, pos, slot, psb) <==> written_at(d, pos, slot, psb),
{
    reveal(writing::holds);
    if written_at(d, pos, slot, psb) {
        written_channels_are_sound(d, pos, slot, psb);
    }
    if locate::header_sound(d, pos, slot, psb) && slot.len >= 2 {
        read16_was_written(d, pos);
        if bytes::be16(d, pos) == 0 {
            let pixels = d.subrange(pos + 2, pos + slot.len);
            assert(slot.width * slot.height >= 0) by (nonlinear_arith)
                requires
                    slot.width >= 0,
                    slot.height >= 0,
            ;
            pieces_held(d, pos, writing::put16(0), pixels);
            assert(plain_as(d, pos, slot, pixels));
        } else if bytes::be16(d, pos) == 1 {
            let rows = rows_found(d, pos, slot, psb, slot.height as int);
            found_rows_are_held(d, pos, slot, psb, slot.height as int);
            writing::row_table_len(rows, psb);
            pieces_held(d, pos + 2, writing::row_table(rows, psb), writing::joined(rows));
            pieces_held(
                d,
                pos,
                writing::put16(1),
                writing::row_table(rows, psb) + writing::joined(rows),
            );
            assert(packed_as(d, pos, slot, rows, psb));
        }
    }
}

/// Intact files stay whole: where the bytes of every channel were written as declared, at its
/// declared place, every channel begins there and nothing has moved.
pub proof fn intact_channels_are_found(d: Seq<u8>, slots: Seq<Slot>, psb: bool)
    requires
        forall|k: int|
            0 <= k < slots.len() ==> written_at(
                d,
                (#[trigger] slots[k]).declared as int,
                slots[k],
                psb,
            ),
    ensures
        locate::located(d, slots, psb).1 == 0,
        locate::located(d, slots, psb).0.len() == slots.len(),
        forall|k: int|
            0 <= k < slots.len() ==> #[trigger] locate::located(d, slots, psb).0[k] == Some(
                slots[k].declared,
            ),
{
    reveal(writing::holds);
    assert forall|k: int| 0 <= k < slots.len() implies locate::header_sound(
        d,
        (#[trigger] slots[k]).declared as int,
        slots[k],
        psb,
    ) by {
        written_channels_are_sound(d, slots[k].declared as int, slots[k], psb);
    }
    locate::intact_channels_stay_in_place(d, slots, psb);
}

/// Every channel that is found was written as declared, where it was found.
pub proof fn found_channels_were_written(d: Seq<u8>, slots: Seq<Slot>, psb: bool)
    ensures
        locate::located(d, slots, psb).0.len() == slots.len(),
        forall|k: int|
            0 <= k < slots.len() ==> (#[trigger] locate::located(d, slots, psb).0[k] matches Some(
                pos,
            ) ==> written_at(d, pos as int, slots[k], psb)),
{
    reveal(writing::holds);
    locate::found_channels_are_sound(d, slots, psb);
    assert forall|k: int| 0 <= k < slots.len() implies (#[trigger] locate::located(
        d,
        slots,
        psb,
    ).0[k] matches Some(pos) ==> written_at(d, pos as int, slots[k], psb)) by {
        if let Some(pos) = locate::located(d, slots, psb).0[k] {
            sound_headers_are_those_written(d, pos as int, slots[k], psb);
        }
    }
}

/// The rows of a channel are sound if and only if each of them is what a packer writes for a row of
/// its width.
pub proof fn sound_rows_are_packed(d: Seq<u8>, pos: int, slot: Slot, rows: Seq<Seq<u8>>, psb: bool)
    requires
        packed_as(d, pos, slot, rows, psb),
        !slot.empty(),
    ensures
        locate::rows_sound(d, pos, slot, psb) <==> forall|i: int|
            0 <= i < rows.len() ==> packs(#[trigger] rows[i], slot.width as int),
{
    reveal(writing::holds);
    held_rows(d, pos, rows, psb);
    assert forall|i: int| 0 <= i < slot.height implies (#[trigger] locate::row_sound(
        d,
        pos,
        slot,
        i,
        psb,
    ) <==> packs(rows[i], slot.width as int)) by {
        table_adds_up(d, pos + 2, rows, psb, i + 1);
        table_adds_up(d, pos + 2, rows, psb, i);
        let base = pos + 2 + rows.len() * writing::row_entry(psb);
        writing::held_piece(d, base, rows, i);
        let at = pos + 2 + i * channel::entry_size(psb);
        assert(channel::row_len_at(d, at, psb) == rows[i].len());
        let from = locate::packed_from(d, pos, slot, i, psb);
        assert(d.subrange(from, from + rows[i].len()) == rows[i]);
        if packs(rows[i], slot.width as int) {
            let runs = choose|runs: Seq<packbits::Run>|
                packbits::runs_fit(runs) && #[trigger] packbits::packed_runs(runs) == rows[i]
                    && packbits::unpacked_runs(runs).len() == slot.width;
            packbits::packed_bytes_are_read_back(runs);
        }
        if packbits::packed_len(rows[i]) == Some(slot.width as nat) {
            let runs = packbits::exact_bytes_are_packed(rows[i]);
            assert(packbits::packed_runs(runs) == rows[i]);
        }
    }
    if locate::rows_sound(d, pos, slot, psb) {
        assert forall|i: int| 0 <= i < rows.len() implies packs(
            #[trigger] rows[i],
            slot.width as int,
        ) by {
            assert(locate::row_sound(d, pos, slot, i, psb));
        }
    }
    if forall|i: int| 0 <= i < rows.len() ==> packs(#[trigger] rows[i], slot.width as int) {
        assert forall|i: int| 0 <= i < slot.height implies #[trigger] locate::row_sound(
            d,
            pos,
            slot,
            i,
            psb,
        ) by {
            assert(packs(rows[i], slot.width as int));
        }
    }
}

/// Whether the bytes are what a packer writes for `width` bytes.
pub open spec fn packs(row: Seq<u8>, width: int) -> bool {
    exists|runs: Seq<packbits::Run>|
        packbits::runs_fit(runs) && #[trigger] packbits::packed_runs(runs) == row
            && packbits::unpacked_runs(runs).len() == width
}

} // verus!
