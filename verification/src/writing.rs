//! The format from the side of a writer: what a file looks like that holds given values.
//!
//! Nothing here runs. The laws of reading say that what was written is read back.
use vstd::prelude::*;

use crate::bytes;
use crate::reader;

verus! {

/// The two bytes of a 16-bit number, the more significant one first.
pub open spec fn put16(n: int) -> Seq<u8> {
    seq![(n / 256) as u8, (n % 256) as u8]
}

/// The four bytes of a 32-bit number.
pub open spec fn put32(n: int) -> Seq<u8> {
    put16(n / 65536) + put16(n % 65536)
}

/// The eight bytes of a 64-bit number.
pub open spec fn put64(n: int) -> Seq<u8> {
    put32(n / 4294967296) + put32(n % 4294967296)
}

/// A number of bytes, as one of the two sizes of length fields has it.
pub open spec fn put_len(n: int, wide: bool) -> Seq<u8> {
    if wide {
        put64(n)
    } else {
        put32(n)
    }
}

/// The bytes of a number in two's complement, `size` values of which there are.
pub open spec fn unsigned(n: int, size: int) -> int {
    if n < 0 {
        n + size
    } else {
        n
    }
}

/// Whether the file has the bytes `s` at `at`.
#[verifier::opaque]
pub open spec fn holds(d: Seq<u8>, at: int, s: Seq<u8>) -> bool {
    0 <= at && at + s.len() <= d.len() && d.subrange(at, at + s.len()) == s
}

/// Bytes that are held are there one by one.
pub proof fn held_bytes(d: Seq<u8>, at: int, s: Seq<u8>)
    requires
        holds(d, at, s),
    ensures
        forall|i: int| 0 <= i < s.len() ==> #[trigger] d[at + i] == s[i],
        forall|i: int| 0 <= i < s.len() ==> d[at + i] == #[trigger] s[i],
        0 <= at,
        at + s.len() <= d.len(),
        d.subrange(at, at + s.len()) == s,
{
    reveal(holds);
    let part = d.subrange(at, at + s.len());
    assert forall|i: int| 0 <= i < s.len() implies #[trigger] d[at + i] == s[i] by {
        assert(part[i] == s[i]);
    }
}

/// The same bytes one by one are held.
pub proof fn bytes_held(d: Seq<u8>, at: int, s: Seq<u8>)
    requires
        0 <= at,
        at + s.len() <= d.len(),
        forall|i: int| 0 <= i < s.len() ==> d[at + i] == #[trigger] s[i],
    ensures
        holds(d, at, s),
{
    reveal(holds);
    assert(d.subrange(at, at + s.len()) =~= s);
}

/// Where two pieces are held one after the other, each of them is.
pub proof fn held_pieces(d: Seq<u8>, at: int, a: Seq<u8>, b: Seq<u8>)
    requires
        holds(d, at, a + b),
    ensures
        holds(d, at, a),
        holds(d, at + a.len(), b),
        0 <= at,
        at + a.len() + b.len() <= d.len(),
        d.subrange(at, at + a.len()) == a,
        d.subrange(at + a.len(), at + a.len() + b.len()) == b,
{
    reveal(holds);
    held_bytes(d, at, a + b);
    assert forall|i: int| 0 <= i < a.len() implies d[at + i] == #[trigger] a[i] by {
        assert((a + b)[i] == a[i]);
    }
    bytes_held(d, at, a);
    assert forall|i: int| 0 <= i < b.len() implies d[at + a.len() + i] == #[trigger] b[i] by {
        assert((a + b)[a.len() + i] == b[i]);
        assert(d[at + (a.len() + i)] == (a + b)[a.len() + i]);
    }
    bytes_held(d, at + a.len(), b);
}

/// A piece of what is held is held.
pub proof fn held_part(d: Seq<u8>, at: int, s: Seq<u8>, from: int, to: int)
    requires
        holds(d, at, s),
        0 <= from <= to <= s.len(),
    ensures
        holds(d, at + from, s.subrange(from, to)),
{
    let part = s.subrange(from, to);
    held_bytes(d, at, s);
    assert forall|i: int| 0 <= i < part.len() implies d[at + from + i] == #[trigger] part[i] by {
        assert(d[at + (from + i)] == s[from + i]);
    }
    bytes_held(d, at + from, part);
}

/// A 16-bit number is read as it was written.
pub proof fn written16_is_read(d: Seq<u8>, at: int, n: int)
    requires
        holds(d, at, put16(n)),
        0 <= n < 65536,
    ensures
        bytes::within(d, at, 2),
        bytes::be16(d, at) == n,
{
    held_bytes(d, at, put16(n));
    assert(put16(n)[0] == d[at + 0]);
    assert(put16(n)[1] == d[at + 1]);
}

/// A 32-bit number is read as it was written.
pub proof fn written32_is_read(d: Seq<u8>, at: int, n: int)
    requires
        holds(d, at, put32(n)),
        0 <= n < 4294967296,
    ensures
        bytes::within(d, at, 4),
        bytes::be32(d, at) == n,
{
    held_pieces(d, at, put16(n / 65536), put16(n % 65536));
    written16_is_read(d, at, n / 65536);
    written16_is_read(d, at + 2, n % 65536);
}

/// A 64-bit number is read as it was written.
pub proof fn written64_is_read(d: Seq<u8>, at: int, n: int)
    requires
        holds(d, at, put64(n)),
        0 <= n <= u64::MAX,
    ensures
        bytes::within(d, at, 8),
        bytes::be64(d, at) == n,
{
    held_pieces(d, at, put32(n / 4294967296), put32(n % 4294967296));
    written32_is_read(d, at, n / 4294967296);
    written32_is_read(d, at + 4, n % 4294967296);
}

/// A length is read as it was written.
pub proof fn written_len_is_read(d: Seq<u8>, at: int, n: int, wide: bool)
    requires
        holds(d, at, put_len(n, wide)),
        0 <= n,
        n <= if wide {
            u64::MAX as int
        } else {
            u32::MAX as int
        },
    ensures
        put_len(n, wide).len() == reader::len_size(wide),
        bytes::within(d, at, reader::len_size(wide)),
        reader::len_at(d, at, wide) == n,
{
    if wide {
        written64_is_read(d, at, n);
    } else {
        written32_is_read(d, at, n);
    }
}

/// A number with a sign is read as it was written.
pub proof fn written_signed_is_read(d: Seq<u8>, at: int, n: int)
    ensures
        holds(d, at, put16(unsigned(n, 65536))) && i16::MIN <= n <= i16::MAX ==> bytes::be16_signed(
            d,
            at,
        ) == n,
        holds(d, at, put32(unsigned(n, 4294967296))) && i32::MIN <= n <= i32::MAX
            ==> bytes::be32_signed(d, at) == n,
{
    if holds(d, at, put16(unsigned(n, 65536))) && i16::MIN <= n <= i16::MAX {
        written16_is_read(d, at, unsigned(n, 65536));
    }
    if holds(d, at, put32(unsigned(n, 4294967296))) && i32::MIN <= n <= i32::MAX {
        written32_is_read(d, at, unsigned(n, 4294967296));
    }
}

/// The pieces one after another.
pub open spec fn joined(pieces: Seq<Seq<u8>>) -> Seq<u8>
    decreases pieces.len(),
{
    if pieces.len() == 0 {
        seq![]
    } else {
        joined(pieces.drop_last()) + pieces.last()
    }
}

/// How long the pieces are together.
pub open spec fn total(pieces: Seq<Seq<u8>>) -> int
    decreases pieces.len(),
{
    if pieces.len() == 0 {
        0
    } else {
        total(pieces.drop_last()) + pieces.last().len()
    }
}

/// Each of the pieces that are held is held where those before it end.
pub proof fn held_piece(d: Seq<u8>, at: int, pieces: Seq<Seq<u8>>, k: int)
    requires
        holds(d, at, joined(pieces)),
        0 <= k <= pieces.len(),
    ensures
        joined(pieces).len() == total(pieces),
        0 <= total(pieces.take(k)) <= total(pieces),
        k < pieces.len() ==> total(pieces.take(k)) + pieces[k].len() == total(pieces.take(k + 1)),
        k < pieces.len() ==> total(pieces.take(k + 1)) <= total(pieces),
        k < pieces.len() ==> holds(d, at + total(pieces.take(k)), pieces[k]),
    decreases pieces.len(),
{
    if pieces.len() == 0 {
        assert(pieces.take(k) =~= pieces);
    } else {
        let before = pieces.drop_last();
        held_pieces(d, at, joined(before), pieces.last());
        if k < pieces.len() {
            held_piece(d, at, before, k);
            assert(before.take(k) =~= pieces.take(k));
            if k == pieces.len() - 1 {
                assert(pieces.take(k) =~= before);
                assert(pieces.take(k + 1) =~= pieces);
            } else {
                assert(before.take(k + 1) =~= pieces.take(k + 1));
                assert(before[k] == pieces[k]);
            }
        } else {
            held_piece(d, at, before, before.len() as int);
            assert(before.take(before.len() as int) =~= before);
            assert(pieces.take(k) =~= pieces);
        }
    }
}

/// The length of the rows of a packed channel, as the table before them has it.
pub open spec fn put_row_len(n: int, psb: bool) -> Seq<u8> {
    if psb {
        put32(n)
    } else {
        put16(n)
    }
}

/// The table of the lengths of the rows.
pub open spec fn row_table(rows: Seq<Seq<u8>>, psb: bool) -> Seq<u8>
    decreases rows.len(),
{
    if rows.len() == 0 {
        seq![]
    } else {
        row_table(rows.drop_last(), psb) + put_row_len(rows.last().len() as int, psb)
    }
}

/// How many bytes the table takes for each row.
pub open spec fn row_entry(psb: bool) -> int {
    if psb {
        4
    } else {
        2
    }
}

/// Whether every row is short enough for the table.
pub open spec fn rows_fit_table(rows: Seq<Seq<u8>>, psb: bool) -> bool {
    forall|i: int|
        0 <= i < rows.len() ==> (#[trigger] rows[i]).len() < if psb {
            4294967296int
        } else {
            65536
        }
}

/// The table takes as many bytes for each row.
pub proof fn row_table_len(rows: Seq<Seq<u8>>, psb: bool)
    ensures
        row_table(rows, psb).len() == rows.len() * row_entry(psb),
    decreases rows.len(),
{
    if rows.len() > 0 {
        row_table_len(rows.drop_last(), psb);
        assert(rows.len() * row_entry(psb) == (rows.len() - 1) * row_entry(psb) + row_entry(psb))
            by (nonlinear_arith);
    }
}

/// Each entry of a table is held in its place.
pub proof fn held_entry(d: Seq<u8>, at: int, rows: Seq<Seq<u8>>, psb: bool, k: int)
    requires
        holds(d, at, row_table(rows, psb)),
        0 <= k < rows.len(),
    ensures
        holds(d, at + k * row_entry(psb), put_row_len(rows[k].len() as int, psb)),
    decreases rows.len(),
{
    let before = rows.drop_last();
    let last = put_row_len(rows.last().len() as int, psb);
    held_pieces(d, at, row_table(before, psb), last);
    row_table_len(before, psb);
    if k < before.len() {
        held_entry(d, at, before, psb, k);
        assert(before[k] == rows[k]);
    }
}

} // verus!
