//! Reading the fields of a file one after another.
use vstd::prelude::*;

use crate::bytes;
use crate::error::ParseError;

verus! {

/// A position in a file.
pub struct Reader<'a> {
    pub data: &'a [u8],
    pub pos: u64,
    /// Whether the file is of the large format, whose lengths are wider.
    pub psb: bool,
}

/// How many bytes a length takes.
pub open spec fn len_size(wide: bool) -> int {
    if wide {
        8
    } else {
        4
    }
}

/// The length at `at`.
pub open spec fn len_at(d: Seq<u8>, at: int, wide: bool) -> int {
    if wide {
        bytes::be64(d, at)
    } else {
        bytes::be32(d, at)
    }
}

/// Whether the length of an additional block with this key is wide in the large format.
pub open spec fn wide_key(key: Seq<u8>) -> bool {
    ||| key == bytes::key4('L', 'M', 's', 'k')
    ||| key == bytes::key4('L', 'r', '1', '6')
    ||| key == bytes::key4('L', 'r', '3', '2')
    ||| key == bytes::key4('L', 'a', 'y', 'r')
    ||| key == bytes::key4('M', 't', '1', '6')
    ||| key == bytes::key4('M', 't', '3', '2')
    ||| key == bytes::key4('M', 't', 'r', 'n')
    ||| key == bytes::key4('A', 'l', 'p', 'h')
    ||| key == bytes::key4('F', 'M', 's', 'k')
    ||| key == bytes::key4('l', 'n', 'k', '2')
    ||| key == bytes::key4('F', 'E', 'i', 'd')
    ||| key == bytes::key4('F', 'X', 'i', 'd')
    ||| key == bytes::key4('P', 'x', 'S', 'D')
}

/// Whether the length of an additional block with this key is wide in the large format.
pub fn is_wide_key(key: &[u8; 4]) -> (r: bool)
    ensures
        r == wide_key(key@),
{
    bytes::is_key(key, 'L', 'M', 's', 'k') || bytes::is_key(key, 'L', 'r', '1', '6')
        || bytes::is_key(key, 'L', 'r', '3', '2') || bytes::is_key(key, 'L', 'a', 'y', 'r')
        || bytes::is_key(key, 'M', 't', '1', '6') || bytes::is_key(key, 'M', 't', '3', '2')
        || bytes::is_key(key, 'M', 't', 'r', 'n') || bytes::is_key(key, 'A', 'l', 'p', 'h')
        || bytes::is_key(key, 'F', 'M', 's', 'k') || bytes::is_key(key, 'l', 'n', 'k', '2')
        || bytes::is_key(key, 'F', 'E', 'i', 'd') || bytes::is_key(key, 'F', 'X', 'i', 'd')
        || bytes::is_key(key, 'P', 'x', 'S', 'D')
}

impl<'a> Reader<'a> {
    /// Whether `other` reads the same file.
    pub open spec fn same_file(self, other: Reader<'a>) -> bool {
        self.data == other.data && self.psb == other.psb
    }

    /// Whether `after` is this reader `n` bytes further on.
    pub open spec fn moved(self, n: int, after: Reader<'a>) -> bool {
        self.same_file(after) && after.pos == self.pos + n
    }

    /// Whether `n` bytes more can be read.
    pub open spec fn can_read(self, n: int) -> bool {
        bytes::within(self.data@, self.pos as int, n)
    }

    /// What reading a field of `n` bytes does: it moves past the field and gives its value, or,
    /// where the file ends before it, leaves the reader and fails.
    pub open spec fn reads<T>(self, n: int, after: Reader<'a>, r: Result<T, ParseError>) -> bool {
        match r {
            Ok(_) => self.can_read(n) && self.moved(n, after),
            Err(e) => !self.can_read(n) && after == self && e == ParseError::Eof,
        }
    }

    /// What reading several fields of `n` bytes together does. Where the file ends before the
    /// last of them, it fails, somewhere in the same file.
    pub open spec fn takes<T>(self, n: int, after: Reader<'a>, r: Result<T, ParseError>) -> bool {
        match r {
            Ok(_) => self.can_read(n) && self.moved(n, after),
            Err(e) => !self.can_read(n) && self.same_file(after) && e == ParseError::Eof,
        }
    }

    /// The next `n` bytes.
    pub fn bytes(&mut self, n: u64) -> (r: Result<&'a [u8], ParseError>)
        ensures
            old(self).reads(n as int, *final(self), r),
            r matches Ok(s) ==> s@ == old(self).data@.subrange(
                old(self).pos as int,
                old(self).pos + n,
            ),
    {
        assert(self.data@.len() == self.data.len());
        match bytes::slice_at(self.data, self.pos, n) {
            Some(s) => {
                self.pos = self.pos + n;
                Ok(s)
            },
            None => Err(ParseError::Eof),
        }
    }

    /// The next four bytes.
    pub fn key(&mut self) -> (r: Result<[u8; 4], ParseError>)
        ensures
            old(self).reads(4, *final(self), r),
            r matches Ok(s) ==> s@ == old(self).data@.subrange(
                old(self).pos as int,
                old(self).pos + 4,
            ),
    {
        let s = self.bytes(4)?;
        let k: [u8; 4] = [s[0], s[1], s[2], s[3]];
        assert(k@ =~= s@);
        Ok(k)
    }

    /// The next byte.
    pub fn u8(&mut self) -> (r: Result<u8, ParseError>)
        ensures
            old(self).reads(1, *final(self), r),
            r matches Ok(v) ==> v == old(self).data@[old(self).pos as int],
    {
        let s = self.bytes(1)?;
        Ok(s[0])
    }

    /// The next 16-bit number.
    pub fn u16(&mut self) -> (r: Result<u16, ParseError>)
        ensures
            old(self).reads(2, *final(self), r),
            r matches Ok(v) ==> v == bytes::be16(old(self).data@, old(self).pos as int),
    {
        let s = self.bytes(2)?;
        Ok(bytes::join16(s[0], s[1]))
    }

    /// The next signed 16-bit number.
    pub fn i16(&mut self) -> (r: Result<i16, ParseError>)
        ensures
            old(self).reads(2, *final(self), r),
            r matches Ok(v) ==> v == bytes::be16_signed(old(self).data@, old(self).pos as int),
    {
        let v: u16 = self.u16()?;
        if v < 32768 {
            Ok(v as i16)
        } else {
            Ok((v as i32 - 65536) as i16)
        }
    }

    /// The next 32-bit number.
    pub fn u32(&mut self) -> (r: Result<u32, ParseError>)
        ensures
            old(self).reads(4, *final(self), r),
            r matches Ok(v) ==> v == bytes::be32(old(self).data@, old(self).pos as int),
    {
        let s = self.bytes(4)?;
        Ok(bytes::join32(s[0], s[1], s[2], s[3]))
    }

    /// The next signed 32-bit number.
    pub fn i32(&mut self) -> (r: Result<i32, ParseError>)
        ensures
            old(self).reads(4, *final(self), r),
            r matches Ok(v) ==> v == bytes::be32_signed(old(self).data@, old(self).pos as int),
    {
        let v: u32 = self.u32()?;
        if v < 2147483648 {
            Ok(v as i32)
        } else {
            Ok((v as i64 - 4294967296) as i32)
        }
    }

    /// The next 64-bit number.
    pub fn u64(&mut self) -> (r: Result<u64, ParseError>)
        ensures
            old(self).reads(8, *final(self), r),
            r matches Ok(v) ==> v == bytes::be64(old(self).data@, old(self).pos as int),
    {
        let s = self.bytes(8)?;
        let hi: u32 = bytes::join32(s[0], s[1], s[2], s[3]);
        let lo: u32 = bytes::join32(s[4], s[5], s[6], s[7]);
        Ok(hi as u64 * 4294967296 + lo as u64)
    }

    /// A length: 4 bytes, or 8 where it is wide.
    pub fn len(&mut self, wide: bool) -> (r: Result<u64, ParseError>)
        ensures
            old(self).reads(len_size(wide), *final(self), r),
            r matches Ok(v) ==> v == len_at(old(self).data@, old(self).pos as int, wide),
    {
        if wide {
            self.u64()
        } else {
            let v: u32 = self.u32()?;
            Ok(v as u64)
        }
    }

    /// The length of an additional block. In the large format it is wide for some keys only.
    pub fn block_len(&mut self, key: &[u8; 4]) -> (r: Result<u64, ParseError>)
        ensures
            old(self).reads(len_size(old(self).psb && wide_key(key@)), *final(self), r),
            r matches Ok(v) ==> v == len_at(
                old(self).data@,
                old(self).pos as int,
                old(self).psb && wide_key(key@),
            ),
    {
        let wide = self.psb && is_wide_key(key);
        self.len(wide)
    }
}

} // verus!
