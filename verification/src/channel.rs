//! Where the rows of one channel lie in a file, and how a row is read.
use vstd::prelude::*;

use crate::bytes;
use crate::packbits;

verus! {

/// How the pixels of a channel are stored.
#[derive(Clone, Copy, Debug, PartialEq, Eq, Structural)]
pub enum Compression {
    Raw,
    Rle,
    Unsupported(u16),
}

/// One channel of a layer or of the merged image. Its pixels stay in the file.
#[derive(Debug)]
pub struct Channel {
    pub width: usize,
    pub compression: Compression,
    /// Right after the compression field.
    start: u64,
    end: u64,
    /// Where each packed row begins, relative to `start`, with the end of the last one.
    rows: Vec<u32>,
}

/// What a channel records.
#[verifier::ext_equal]
pub struct ChannelView {
    pub width: int,
    pub compression: Compression,
    pub start: int,
    pub end: int,
    pub rows: Seq<u32>,
}

impl View for Channel {
    type V = ChannelView;

    closed spec fn view(&self) -> ChannelView {
        ChannelView {
            width: self.width as int,
            compression: self.compression,
            start: self.start as int,
            end: self.end as int,
            rows: self.rows@,
        }
    }
}

/// The size of one entry of a table of row lengths.
pub open spec fn entry_size(psb: bool) -> int {
    if psb {
        4
    } else {
        2
    }
}

/// The row length stored at `at`, 0 where the file ends before it.
pub open spec fn row_len_at(d: Seq<u8>, at: int, psb: bool) -> int {
    if !bytes::within(d, at, entry_size(psb)) {
        0
    } else if psb {
        bytes::be32(d, at)
    } else {
        bytes::be16(d, at)
    }
}

/// The sum of the first `n` row lengths of the table at `table`.
pub open spec fn rows_total(d: Seq<u8>, table: int, n: int, psb: bool) -> int
    decreases n,
{
    if n <= 0 {
        0
    } else {
        rows_total(d, table, n - 1, psb) + row_len_at(d, table + (n - 1) * entry_size(psb), psb)
    }
}

/// What remains of `v` in 32 bits.
pub open spec fn low32(v: int) -> u32 {
    (v % 4294967296) as u32
}

/// The smaller of two numbers.
pub open spec fn min2(a: int, b: int) -> int {
    if a <= b {
        a
    } else {
        b
    }
}

/// Where the rows of a packed channel begin, counted from its table at `body` and held inside the
/// channel, which ends at `end`.
pub open spec fn packed_rows(d: Seq<u8>, body: int, end: int, height: int, psb: bool) -> Seq<u32> {
    let limit = if body <= end { end - body } else { 0 };
    Seq::new(
        (height + 1) as nat,
        |i: int| low32(min2(height * entry_size(psb) + rows_total(d, body, i, psb), limit)),
    )
}

/// The channel whose `len` bytes begin at `start` with a compression field.
pub open spec fn channel_at(
    d: Seq<u8>,
    start: int,
    len: int,
    width: int,
    height: int,
    psb: bool,
) -> ChannelView {
    let end = min2(bytes::sat(start, len), d.len() as int);
    let body = bytes::sat(start, 2);
    let kind = if len >= 2 && bytes::within(d, start, 2) {
        bytes::be16(d, start)
    } else {
        0
    };
    ChannelView {
        width,
        compression: if width == 0 || height == 0 || kind == 0 {
            Compression::Raw
        } else if kind == 1 {
            Compression::Rle
        } else {
            Compression::Unsupported(kind as u16)
        },
        start: body,
        end,
        rows: if kind == 1 {
            packed_rows(d, body, end, height, psb)
        } else {
            seq![]
        },
    }
}

/// The pixels of row `row`. A row that is not recorded, or that does not lie in the file, is 0.
pub open spec fn row_pixels(c: ChannelView, d: Seq<u8>, row: int) -> Seq<u8> {
    let none = packbits::fit(seq![], c.width as nat);
    match c.compression {
        Compression::Raw => {
            let from = c.start + row * c.width;
            if from + c.width <= d.len() && from + c.width <= c.end {
                d.subrange(from, from + c.width)
            } else {
                none
            }
        },
        Compression::Rle => {
            if row + 1 < c.rows.len() && c.rows[row] <= c.rows[row + 1] && c.start + c.rows[row + 1]
                <= d.len() {
                let packed = d.subrange(c.start + c.rows[row], c.start + c.rows[row + 1]);
                packbits::fit(packbits::expand(packed), c.width as nat)
            } else {
                none
            }
        },
        Compression::Unsupported(_) => none,
    }
}

/// Sets every byte of `out` to 0.
fn clear(out: &mut [u8])
    ensures
        final(out)@ == packbits::fit(seq![], old(out)@.len()),
{
    let n: usize = out.len();
    let mut i: usize = 0;
    while i < n
        invariant
            i <= n == out@.len(),
            forall|k: int| 0 <= k < i ==> out@[k] == 0,
        decreases n - i,
    {
        out[i] = 0;
        i = i + 1;
    }
    assert(out@ =~= packbits::fit(seq![], n as nat));
}

/// Copies `src` over `out`.
fn copy(src: &[u8], out: &mut [u8])
    requires
        src@.len() == old(out)@.len(),
    ensures
        final(out)@ == src@,
{
    let n: usize = out.len();
    let mut i: usize = 0;
    while i < n
        invariant
            i <= n == out@.len() == src@.len(),
            forall|k: int| 0 <= k < i ==> out@[k] == src@[k],
        decreases n - i,
    {
        out[i] = src[i];
        i = i + 1;
    }
    assert(out@ =~= src@);
}

/// The row length stored at `at`, 0 where the file ends before it.
pub fn read_row_len(data: &[u8], at: u64, psb: bool) -> (r: u32)
    ensures
        r == row_len_at(data@, at as int, psb),
{
    if psb {
        match bytes::read32(data, at) {
            Some(v) => v,
            None => 0,
        }
    } else {
        match bytes::read16(data, at) {
            Some(v) => v as u32,
            None => 0,
        }
    }
}

/// Sums of row lengths are not negative.
pub proof fn rows_total_bounds(d: Seq<u8>, table: int, n: int, psb: bool)
    ensures
        0 <= rows_total(d, table, n, psb),
        n >= 0 ==> rows_total(d, table, n, psb) <= n * 4294967295,
    decreases n,
{
    if n > 0 {
        rows_total_bounds(d, table, n - 1, psb);
    }
}

/// The smaller of two positions.
pub fn least(a: u64, b: u64) -> (r: u64)
    ensures
        r == min2(a as int, b as int),
{
    if a <= b {
        a
    } else {
        b
    }
}

/// What remains of `v` in 32 bits.
pub fn low_half(v: u64) -> (r: u32)
    ensures
        r == low32(v as int),
{
    (v % 4294967296) as u32
}

/// The size of a table of `n` row lengths, held at the largest position.
fn table_size(n: u64, psb: bool) -> (r: u64)
    ensures
        r == min2(n * entry_size(psb), u64::MAX as int),
{
    let entry: u64 = if psb { 4 } else { 2 };
    if n > u64::MAX / entry {
        u64::MAX
    } else {
        n * entry
    }
}

/// Finds where each row begins from the table of row lengths.
fn rle_rows(data: &[u8], body: u64, end: u64, height: u64, psb: bool) -> (rows: Vec<u32>)
    requires
        end <= data@.len(),
    ensures
        rows@ == packed_rows(data@, body as int, end as int, height as int, psb),
{
    let limit: u64 = end.saturating_sub(body);
    let mut rows: Vec<u32> = Vec::new();
    let mut offset: u64 = table_size(height, psb);
    rows.push(low_half(least(offset, limit)));
    let mut i: u64 = 0;
    let ghost all = packed_rows(data@, body as int, end as int, height as int, psb);
    while i < height
        invariant
            i <= height,
            end <= data@.len() == data.len(),
            limit == (if body <= end { end - body } else { 0 }),
            all == packed_rows(data@, body as int, end as int, height as int, psb),
            offset == min2(
                height * entry_size(psb) + rows_total(data@, body as int, i as int, psb),
                u64::MAX as int,
            ),
            rows@.len() == i + 1,
            forall|k: int| 0 <= k <= i ==> rows@[k] == all[k],
        decreases height - i,
    {
        let at: u64 = body.saturating_add(table_size(i, psb));
        let n: u32 = read_row_len(data, at, psb);
        proof {
            rows_total_bounds(data@, body as int, i as int, psb);
            assert(n == row_len_at(data@, body + i * entry_size(psb), psb));
        }
        offset = offset.saturating_add(n as u64);
        i = i + 1;
        rows.push(low_half(least(offset, limit)));
    }
    assert(rows@ =~= all);
    rows
}

impl Channel {
    /// The channel whose bytes begin at `start` with a compression field.
    pub fn new(data: &[u8], start: u64, len: u64, width: usize, height: u64, psb: bool) -> (c:
        Channel)
        ensures
            c@ == channel_at(data@, start as int, len as int, width as int, height as int, psb),
    {
        let size: u64 = data.len() as u64;
        let past: u64 = start.saturating_add(len);
        let end: u64 = least(past, size);
        let kind: u16 = if len >= 2 {
            match bytes::read16(data, start) {
                Some(v) => v,
                None => 0,
            }
        } else {
            0
        };
        let body: u64 = start.saturating_add(2);
        let rows: Vec<u32> = if kind == 1 {
            rle_rows(data, body, end, height, psb)
        } else {
            Vec::new()
        };
        let compression = if width == 0 || height == 0 || kind == 0 {
            Compression::Raw
        } else if kind == 1 {
            Compression::Rle
        } else {
            Compression::Unsupported(kind)
        };
        Channel { width, compression, start: body, end, rows }
    }

    /// The channel with the given record.
    pub fn from_parts(
        width: usize,
        compression: Compression,
        start: u64,
        end: u64,
        rows: Vec<u32>,
    ) -> (c: Channel)
        ensures
            c@ == (ChannelView {
                width: width as int,
                compression,
                start: start as int,
                end: end as int,
                rows: rows@,
            }),
    {
        Channel { width, compression, start, end, rows }
    }

    /// The number of pixels in a row.
    pub fn row_width(&self) -> (r: usize)
        ensures
            r == self@.width,
    {
        self.width
    }

    /// The compression, where it cannot be unpacked.
    pub fn unsupported(&self) -> (r: Option<u16>)
        ensures
            match self@.compression {
                Compression::Unsupported(c) => r == Some(c),
                _ => r is None,
            },
    {
        match self.compression {
            Compression::Unsupported(c) => Some(c),
            _ => None,
        }
    }

    /// Reads row `row` into all of `head`.
    fn fill_row(&self, data: &[u8], row: usize, head: &mut [u8])
        requires
            self@.width == old(head)@.len(),
        ensures
            final(head)@ == row_pixels(self@, data@, row as int),
    {
        let size: usize = data.len();
        match self.compression {
            Compression::Raw => {
                proof {
                    assert(row * self.width <= u64::MAX * u64::MAX) by (nonlinear_arith)
                        requires
                            0 <= row <= u64::MAX,
                            0 <= self.width <= u64::MAX,
                    ;
                }
                let from: u128 = self.start as u128 + row as u128 * self.width as u128;
                let to: u128 = from + self.width as u128;
                assert(from == self@.start + row * self@.width);
                assert(row * self@.width >= 0) by (nonlinear_arith)
                    requires
                        self@.width >= 0,
                ;
                if to <= size as u128 && to <= self.end as u128 {
                    copy(
                        vstd::slice::slice_subrange(data, from as usize, to as usize),
                        head,
                    );
                } else {
                    clear(head);
                }
            },
            Compression::Rle => {
                let packed = if row < self.rows.len() && self.rows.len() - row > 1 {
                    let a: u32 = self.rows[row];
                    let b: u32 = self.rows[row + 1];
                    if a <= b {
                        bytes::slice_at(data, self.start.saturating_add(a as u64), (b - a) as u64)
                    } else {
                        None
                    }
                } else {
                    None
                };
                match packed {
                    Some(packed) => packbits::unpack_bits(packed, head),
                    None => clear(head),
                }
                proof {
                    if row + 1 < self.rows@.len() && packed is Some {
                        let a = self.rows@[row as int];
                        let b = self.rows@[row + 1];
                        if self.start + a > u64::MAX {
                            assert(packed->0@ =~= Seq::<u8>::empty());
                        } else {
                            assert(packed->0@ =~= data@.subrange(self.start + a, self.start + b));
                        }
                    }
                }
            },
            Compression::Unsupported(_) => clear(head),
        }
    }

    /// Reads row `row` into the first `width` bytes of `out`.
    pub fn read_row(&self, data: &[u8], row: usize, out: &mut [u8])
        requires
            self@.width <= old(out)@.len(),
        ensures
            final(out)@ == row_pixels(self@, data@, row as int) + old(out)@.skip(self@.width),
            final(out)@.len() == old(out)@.len(),
    {
        let (head, tail) = out.split_at_mut(self.width);
        assert(tail@ =~= old(out)@.skip(self@.width));
        self.fill_row(data, row, head);
    }
}

/// Below 4 GiB, each packed row lies inside of its channel, and the next one does not begin before
/// it.
proof fn packed_rows_rise(d: Seq<u8>, body: int, end: int, height: int, psb: bool, row: int)
    requires
        0 <= body <= end <= u32::MAX,
        0 <= row < height,
    ensures
        ({
            let rows = packed_rows(d, body, end, height, psb);
            rows.len() == height + 1 && rows[row] <= rows[row + 1] <= end - body
        }),
{
    rows_total_bounds(d, body, row, psb);
    let table = height * entry_size(psb);
    assert(table >= 0) by (nonlinear_arith)
        requires
            table == height * entry_size(psb),
            height > 0,
            entry_size(psb) > 0,
    ;
    let here = rows_total(d, body, row, psb);
    let next = rows_total(d, body, row + 1, psb);
    assert(here <= next);
    let rows = packed_rows(d, body, end, height, psb);
    assert(rows[row] == min2(table + here, end - body));
    assert(rows[row + 1] == min2(table + next, end - body));
}

/// In a file below 4 GiB, a channel that lies in the file and has pixels reads each of its packed
/// rows as what the bytes between its beginning and the next stand for. These bytes lie in the
/// file, whatever the table says. Rows past the last, and all rows of a channel whose compression
/// is not known, read as zeros.
#[verifier::spinoff_prover]
pub proof fn channels_read_their_rows(
    d: Seq<u8>,
    start: int,
    len: int,
    width: int,
    height: int,
    psb: bool,
    row: int,
)
    requires
        0 <= start,
        2 <= len,
        start + len <= d.len() <= u32::MAX,
        0 < width,
        0 < height,
        0 <= row,
    ensures
        ({
            let c = channel_at(d, start, len, width, height, psb);
            let rows = packed_rows(d, start + 2, start + len, height, psb);
            let zeros = Seq::new(width as nat, |i: int| 0u8);
            &&& c.compression == Compression::Rle <==> bytes::be16(d, start) == 1
            &&& c.compression is Unsupported <==> bytes::be16(d, start) > 1
            &&& c.compression == Compression::Rle && row < height ==> {
                let from = start + 2 + rows[row];
                let to = start + 2 + rows[row + 1];
                &&& from <= to <= start + len
                &&& row_pixels(c, d, row) == packbits::fit(
                    packbits::expand(d.subrange(from, to)),
                    width as nat,
                )
            }
            &&& c.compression == Compression::Rle && row >= height ==> row_pixels(c, d, row)
                == zeros
            &&& c.compression is Unsupported ==> row_pixels(c, d, row) == zeros
        }),
{
    let c = channel_at(d, start, len, width, height, psb);
    assert(packbits::fit(seq![], width as nat) =~= Seq::new(width as nat, |i: int| 0u8));
    if c.compression == Compression::Rle {
        assert(c.rows == packed_rows(d, start + 2, start + len, height, psb));
        if row < height {
            packed_rows_rise(d, start + 2, start + len, height, psb, row);
        }
    }
}

/// No row of a packed channel is looked for past the end of the channel, whatever the table says.
pub proof fn rows_stay_inside(
    d: Seq<u8>,
    start: int,
    len: int,
    width: int,
    height: int,
    psb: bool,
    i: int,
)
    requires
        start >= 0,
        len >= 0,
        height >= 0,
        0 <= i < channel_at(d, start, len, width, height, psb).rows.len(),
    ensures
        ({
            let c = channel_at(d, start, len, width, height, psb);
            &&& c.start + c.rows[i] <= if c.start < c.end {
                c.end
            } else {
                c.start
            }
            &&& c.end <= d.len()
        }),
{
    let c = channel_at(d, start, len, width, height, psb);
    let body = c.start;
    let limit = if body <= c.end { c.end - body } else { 0 };
    rows_total_bounds(d, body, i, psb);
    let table = height * entry_size(psb);
    assert(table >= 0) by (nonlinear_arith)
        requires
            table == height * entry_size(psb),
            height >= 0,
            entry_size(psb) >= 0,
    ;
    let v = min2(table + rows_total(d, body, i, psb), limit);
    assert(c.rows[i] == low32(v));
    assert(0 <= v % 4294967296 <= v);
}

/// A row that is not in the data is blank: one past the end of a plain channel, one that the table of
/// a packed channel does not list, and every row of a channel that is packed in another way.
pub proof fn missing_rows_are_blank(c: ChannelView, d: Seq<u8>, row: int)
    requires
        match c.compression {
            Compression::Raw => c.start + row * c.width + c.width > d.len() || c.start + row * c.width
                + c.width > c.end,
            Compression::Rle => row + 1 >= c.rows.len() || c.rows[row] > c.rows[row + 1] || c.start
                + c.rows[row + 1] > d.len(),
            Compression::Unsupported(_) => true,
        },
    ensures
        row_pixels(c, d, row) == Seq::new(c.width as nat, |i: int| 0u8),
{
    assert(packbits::fit(seq![], c.width as nat) =~= Seq::new(c.width as nat, |i: int| 0u8));
}

/// A channel cannot be read if and only if it has pixels and is packed in a way that is not known. It
/// is taken as plain where its kind is cut off.
pub proof fn kinds_are_told(
    d: Seq<u8>,
    start: int,
    len: int,
    width: int,
    height: int,
    psb: bool,
    kind: u16,
)
    requires
        start >= 0,
    ensures
        ({
            let c = channel_at(d, start, len, width, height, psb).compression;
            let whole = len >= 2 && start + 2 <= d.len();
            let stored = d[start] * 256 + d[start + 1];
            let any = width != 0 && height != 0;
            &&& c == Compression::Unsupported(kind) <==> any && whole && stored == kind && kind >= 2
            &&& c == Compression::Rle <==> any && whole && stored == 1
        }),
{
}

} // verus!
