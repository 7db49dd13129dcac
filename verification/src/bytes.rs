//! Big-endian fields and four-byte keys of a byte sequence.
use vstd::prelude::*;

verus! {

/// `a + b`, held at the largest position when it lies beyond it.
///
/// A position at the limit is past every byte that can be read.
pub open spec fn sat(a: int, b: int) -> int {
    if a + b > u64::MAX {
        u64::MAX as int
    } else {
        a + b
    }
}

/// `v` moved to the nearest position.
pub open spec fn clamp_position(v: int) -> int {
    if v < 0 {
        0
    } else if v > u64::MAX {
        u64::MAX as int
    } else {
        v
    }
}

/// Whether the `n` bytes from `at` all exist.
pub open spec fn within(d: Seq<u8>, at: int, n: int) -> bool {
    0 <= at && 0 <= n && at + n <= d.len()
}

/// The 16-bit number at `at`.
pub open spec fn be16(d: Seq<u8>, at: int) -> int {
    d[at] * 256 + d[at + 1]
}

/// The 32-bit number at `at`.
pub open spec fn be32(d: Seq<u8>, at: int) -> int {
    be16(d, at) * 65536 + be16(d, at + 2)
}

/// The 64-bit number at `at`.
pub open spec fn be64(d: Seq<u8>, at: int) -> int {
    be32(d, at) * 4294967296 + be32(d, at + 4)
}

/// The number at `at`, read as two's complement.
pub open spec fn be16_signed(d: Seq<u8>, at: int) -> int {
    if be16(d, at) < 32768 {
        be16(d, at)
    } else {
        be16(d, at) - 65536
    }
}

/// The number at `at`, read as two's complement.
pub open spec fn be32_signed(d: Seq<u8>, at: int) -> int {
    if be32(d, at) < 2147483648 {
        be32(d, at)
    } else {
        be32(d, at) - 4294967296
    }
}

/// The four bytes of a key, given as letters.
pub open spec fn key4(a: char, b: char, c: char, d: char) -> Seq<u8> {
    seq![a as u8, b as u8, c as u8, d as u8]
}

/// Whether two files have the same length and the same bytes from `from` on.
pub open spec fn same_from(d: Seq<u8>, e: Seq<u8>, from: int) -> bool {
    &&& d.len() == e.len()
    &&& forall|i: int| from <= i < d.len() ==> #[trigger] d[i] == e[i]
}

/// A part of such files is the same.
pub proof fn same_part(d: Seq<u8>, e: Seq<u8>, from: int, a: int, b: int)
    requires
        same_from(d, e, from),
        0 <= a <= b <= d.len(),
        from <= a,
    ensures
        d.subrange(a, b) == e.subrange(a, b),
{
    assert(d.subrange(a, b) =~= e.subrange(a, b));
}

/// The number that two bytes hold.
pub fn join16(a: u8, b: u8) -> (r: u16)
    ensures
        r == a * 256 + b,
{
    a as u16 * 256 + b as u16
}

/// The number that four bytes hold.
pub fn join32(a: u8, b: u8, c: u8, d: u8) -> (r: u32)
    ensures
        r == (a * 256 + b) * 65536 + (c * 256 + d),
{
    let hi: u16 = join16(a, b);
    let lo: u16 = join16(c, d);
    hi as u32 * 65536 + lo as u32
}

/// The slice of `n` bytes from `at`, where all of them exist.
pub fn slice_at(data: &[u8], at: u64, n: u64) -> (r: Option<&[u8]>)
    ensures
        r is Some <==> within(data@, at as int, n as int),
        r matches Some(s) ==> s@ == data@.subrange(at as int, at + n),
{
    let len: u64 = data.len() as u64;
    if n <= len && at <= len - n {
        Some(vstd::slice::slice_subrange(data, at as usize, (at + n) as usize))
    } else {
        None
    }
}

/// The 16-bit number at `at`.
pub fn read16(data: &[u8], at: u64) -> (r: Option<u16>)
    ensures
        r is Some <==> within(data@, at as int, 2),
        r matches Some(v) ==> v == be16(data@, at as int),
{
    let s = slice_at(data, at, 2)?;
    Some(join16(s[0], s[1]))
}

/// The 32-bit number at `at`.
pub fn read32(data: &[u8], at: u64) -> (r: Option<u32>)
    ensures
        r is Some <==> within(data@, at as int, 4),
        r matches Some(v) ==> v == be32(data@, at as int),
{
    let s = slice_at(data, at, 4)?;
    Some(join32(s[0], s[1], s[2], s[3]))
}

/// Whether `key` is the four given letters.
pub fn is_key(key: &[u8; 4], a: char, b: char, c: char, d: char) -> (r: bool)
    ensures
        r == (key@ == key4(a, b, c, d)),
{
    let wanted: [u8; 4] = [a as u8, b as u8, c as u8, d as u8];
    assert(wanted@ =~= key4(a, b, c, d));
    if key[0] == wanted[0] && key[1] == wanted[1] && key[2] == wanted[2] && key[3] == wanted[3] {
        assert(key@ =~= wanted@);
        true
    } else {
        false
    }
}

} // verus!
