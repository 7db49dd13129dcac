//! Reading a PSD or PSB file.
//!
//! Pixels are not unpacked: a layer holds only where its channels and their rows lie.
use vstd::prelude::*;

use crate::bytes;
use crate::channel;
use crate::channel::Channel;
use crate::error::ParseError;
use crate::layer_info;
use crate::layers;
use crate::layers::LayerRecord;
use crate::merged;
use crate::reader;
use crate::reader::Reader;
use crate::warning;
use crate::warning::Warning;

verus! {

/// What a file holds.
#[derive(Debug)]
pub struct Psd {
    pub width: u32,
    pub height: u32,
    /// 1 for grayscale, 3 for RGB, 4 for CMYK.
    pub color_mode: u16,
    /// From bottom to top.
    pub layers: Vec<LayerRecord>,
    /// The channels of the merged image, for a file without layers.
    pub merged: Vec<Channel>,
    pub warnings: Vec<Warning>,
}

/// What a file says.
#[verifier::ext_equal]
pub struct PsdView {
    pub width: u32,
    pub height: u32,
    pub color_mode: u16,
    pub layers: Seq<layers::LayerView>,
    pub merged: Seq<channel::ChannelView>,
    pub warnings: Seq<warning::WarningView>,
}

impl View for Psd {
    type V = PsdView;

    open spec fn view(&self) -> PsdView {
        PsdView {
            width: self.width,
            height: self.height,
            color_mode: self.color_mode,
            layers: layer_info::layer_views(self.layers@),
            merged: merged::channels_view(self.merged@),
            warnings: warning::warning_views(self.warnings@),
        }
    }
}

/// The fixed part at the beginning of a file.
#[derive(Clone, Copy, Debug)]
pub struct Header {
    pub psb: bool,
    pub channels: u16,
    pub width: u32,
    pub height: u32,
    pub color_mode: u16,
}

/// The header of a file. What is wrong first, in the order of the fields, is the error.
pub open spec fn header_at(d: Seq<u8>) -> Result<Header, ParseError> {
    if !bytes::within(d, 0, 4) {
        Err(ParseError::Eof)
    } else if d.subrange(0, 4) != bytes::key4('8', 'B', 'P', 'S') {
        Err(ParseError::NotPsd)
    } else if !bytes::within(d, 0, 6) {
        Err(ParseError::Eof)
    } else if bytes::be16(d, 4) != 1 && bytes::be16(d, 4) != 2 {
        Err(ParseError::Version(bytes::be16(d, 4) as u16))
    } else if !bytes::within(d, 0, 26) {
        Err(ParseError::Eof)
    } else if bytes::be16(d, 22) != 8 {
        Err(ParseError::Depth(bytes::be16(d, 22) as u16))
    } else if bytes::be16(d, 24) != 1 && bytes::be16(d, 24) != 3 && bytes::be16(d, 24) != 4 {
        Err(ParseError::ColorMode(bytes::be16(d, 24) as u16))
    } else {
        Ok(
            Header {
                psb: bytes::be16(d, 4) == 2,
                channels: bytes::be16(d, 12) as u16,
                height: bytes::be32(d, 14) as u32,
                width: bytes::be32(d, 18) as u32,
                color_mode: bytes::be16(d, 24) as u16,
            },
        )
    }
}

/// Where a part with a 32-bit length at `at` ends.
pub open spec fn part_end(d: Seq<u8>, at: int) -> Result<int, ParseError> {
    if !bytes::within(d, at, 4) || !bytes::within(d, at + 4, bytes::be32(d, at)) {
        Err(ParseError::Eof)
    } else {
        Ok(at + 4 + bytes::be32(d, at))
    }
}

/// Where the layer section begins, and its length. The color data and the image resources come
/// before it.
pub open spec fn section_at(d: Seq<u8>, psb: bool) -> Result<(int, int), ParseError> {
    match part_end(d, 26) {
        Err(e) => Err(e),
        Ok(resources) => match part_end(d, resources) {
            Err(e) => Err(e),
            Ok(at) => if !bytes::within(d, at, reader::len_size(psb)) {
                Err(ParseError::Eof)
            } else {
                Ok((at + reader::len_size(psb), reader::len_at(d, at, psb)))
            },
        },
    }
}

/// Whether an additional block begins at `pos`.
pub open spec fn block_begins(d: Seq<u8>, pos: int) -> bool {
    bytes::within(d, pos, 4) && layers::block_signature(d.subrange(pos, pos + 4))
}

/// `pos` moved to the next block, at most `n` bytes ahead. Writers differ in how they pad blocks.
pub open spec fn after_padding(d: Seq<u8>, pos: int, n: int) -> int
    decreases n,
{
    if n <= 0 || block_begins(d, pos) {
        pos
    } else {
        after_padding(d, pos + 1, n - 1)
    }
}

/// Padding is skipped forward.
pub proof fn padding_goes_forward(d: Seq<u8>, pos: int, n: int)
    ensures
        pos <= after_padding(d, pos, n),
        n >= 0 ==> after_padding(d, pos, n) <= pos + n,
    decreases n,
{
    if n > 0 && !block_begins(d, pos) {
        padding_goes_forward(d, pos + 1, n - 1);
    }
}

/// The fields before the content of an additional block.
pub struct BlockHead {
    pub key: Seq<u8>,
    pub len: int,
    /// Where the content begins.
    pub start: int,
}

/// The block at `pos`, or nothing where no block begins there.
pub open spec fn block_head_at(d: Seq<u8>, pos: int, psb: bool) -> Result<
    Option<BlockHead>,
    ParseError,
> {
    if !bytes::within(d, pos, 4) {
        Err(ParseError::Eof)
    } else if !layers::block_signature(d.subrange(pos, pos + 4)) {
        Ok(None)
    } else if !bytes::within(d, pos, 8) {
        Err(ParseError::Eof)
    } else {
        let key = d.subrange(pos + 4, pos + 8);
        let wide = psb && reader::wide_key(key);
        if !bytes::within(d, pos + 8, reader::len_size(wide)) {
            Err(ParseError::Eof)
        } else {
            Ok(
                Some(
                    BlockHead {
                        key,
                        len: reader::len_at(d, pos + 8, wide),
                        start: pos + 8 + reader::len_size(wide),
                    },
                ),
            )
        }
    }
}

/// The layers in a block. Only a `Layr` block has some.
pub open spec fn layers_in_block(d: Seq<u8>, head: BlockHead, psb: bool) -> Result<
    Seq<layers::LayerView>,
    ParseError,
> {
    if head.key != bytes::key4('L', 'a', 'y', 'r') {
        Ok(seq![])
    } else {
        match layer_info::layer_info_at(d, head.start, psb) {
            Err(e) => Err(e),
            Ok((found, _, _)) => Ok(found),
        }
    }
}

/// The layers of the first `Layr` block that has some, between `pos` and `end`.
pub open spec fn layers_in_blocks(d: Seq<u8>, pos: int, end: int, psb: bool) -> Result<
    Seq<layers::LayerView>,
    ParseError,
>
    decreases
            (if pos < d.len() {
                d.len() - pos
            } else {
                0
            }),
{
    if pos + 12 > end {
        Ok(seq![])
    } else {
        match block_head_at(d, pos, psb) {
            Err(e) => Err(e),
            Ok(None) => Ok(seq![]),
            Ok(Some(head)) => {
                let next = after_padding(d, head.start + head.len, 3);
                proof {
                    padding_goes_forward(d, head.start + head.len, 3);
                }
                match layers_in_block(d, head, psb) {
                    Err(e) => Err(e),
                    Ok(found) => if found.len() > 0 {
                        Ok(found)
                    } else {
                        layers_in_blocks(d, next, end, psb)
                    },
                }
            },
        }
    }
}

/// How many layers cannot be shown. The end of a folder is nothing to show.
pub open spec fn damaged_count(s: Seq<layers::LayerView>) -> int
    decreases s.len(),
{
    if s.len() == 0 {
        0
    } else {
        damaged_count(s.drop_last()) + if s.last().damaged && s.last().divider != 3 {
            1int
        } else {
            0
        }
    }
}

/// The warning about damaged layers, where there are any. The data after them has moved by `shift`.
pub open spec fn damage_warnings(s: Seq<layers::LayerView>, shift: int) -> Seq<
    warning::WarningView,
> {
    if damaged_count(s) > 0 {
        let missing = if shift < 0 {
            -shift
        } else {
            shift
        };
        seq![
            warning::WarningView::Damaged {
                layers: damaged_count(s) as u64,
                missing: missing as u64,
            },
        ]
    } else {
        seq![]
    }
}

/// The layers of a section, what is wrong with them, and where the section really ends.
pub struct SectionView {
    pub layers: Seq<layers::LayerView>,
    pub warnings: Seq<warning::WarningView>,
    pub end: int,
}

/// The layers of the section whose layer info is read, and which still lacks the additional blocks.
/// The global mask at `pos` comes before these.
pub open spec fn section_rest_at(
    d: Seq<u8>,
    pos: int,
    psb: bool,
    section: SectionView,
) -> Result<SectionView, ParseError> {
    if pos + 4 > section.end {
        Ok(section)
    } else if !bytes::within(d, pos, 4) {
        Err(ParseError::Eof)
    } else if section.layers.len() > 0 {
        Ok(section)
    } else {
        match layers_in_blocks(d, pos + 4 + bytes::be32(d, pos), section.end, psb) {
            Err(e) => Err(e),
            Ok(found) => Ok(SectionView { layers: found, ..section }),
        }
    }
}

/// What the layer section of `len` bytes at `start` holds. Where data is missing, all that follows
/// has moved by the same number of bytes.
pub open spec fn section_content(d: Seq<u8>, start: int, len: int, psb: bool) -> Result<
    SectionView,
    ParseError,
> {
    let end = bytes::sat(start, len);
    if len == 0 {
        Ok(SectionView { layers: seq![], warnings: seq![], end })
    } else if !bytes::within(d, start, reader::len_size(psb)) {
        Err(ParseError::Eof)
    } else {
        let info_len = reader::len_at(d, start, psb);
        let info = start + reader::len_size(psb);
        let read = if info_len > 0 {
            layer_info::layer_info_at(d, info, psb)
        } else {
            Ok((seq![], 0, info))
        };
        match read {
            Err(e) => Err(e),
            Ok((found, shift, _)) => section_rest_at(
                d,
                bytes::clamp_position(bytes::sat(info, info_len) + shift),
                psb,
                SectionView {
                    layers: found,
                    warnings: damage_warnings(found, shift),
                    end: bytes::clamp_position(end + shift),
                },
            ),
        }
    }
}

/// What a file says, or why it is not read.
pub open spec fn psd_at(d: Seq<u8>) -> Result<PsdView, ParseError> {
    match header_at(d) {
        Err(e) => Err(e),
        Ok(h) => match section_at(d, h.psb) {
            Err(e) => Err(e),
            Ok((start, len)) => match section_content(d, start, len, h.psb) {
                Err(e) => Err(e),
                Ok(section) => Ok(
                    PsdView {
                        width: h.width,
                        height: h.height,
                        color_mode: h.color_mode,
                        layers: section.layers,
                        merged: if section.layers.len() == 0 {
                            merged::merged_at(
                                d,
                                section.end,
                                h.channels as int,
                                h.width as int,
                                h.height as int,
                                h.psb,
                            )
                        } else {
                            seq![]
                        },
                        warnings: section.warnings,
                    },
                ),
            },
        },
    }
}

/// Reads the header.
fn read_header(r: &mut Reader<'_>) -> (v: Result<Header, ParseError>)
    requires
        old(r).pos == 0,
    ensures
        final(r).data == old(r).data,
        v == header_at(old(r).data@),
        v is Ok ==> final(r).pos == 26,
{
    assert(r.data@.len() == r.data.len());
    let sig = r.key()?;
    if !bytes::is_key(&sig, '8', 'B', 'P', 'S') {
        return Err(ParseError::NotPsd);
    }
    let version: u16 = r.u16()?;
    if version != 1 && version != 2 {
        return Err(ParseError::Version(version));
    }
    r.bytes(6)?;
    let channels: u16 = r.u16()?;
    let height: u32 = r.u32()?;
    let width: u32 = r.u32()?;
    let depth: u16 = r.u16()?;
    let color_mode: u16 = r.u16()?;
    if depth != 8 {
        return Err(ParseError::Depth(depth));
    }
    if color_mode != 1 && color_mode != 3 && color_mode != 4 {
        return Err(ParseError::ColorMode(color_mode));
    }
    Ok(Header { psb: version == 2, channels, width, height, color_mode })
}

/// Skips a part with a 32-bit length before it.
fn skip_part(r: &mut Reader<'_>) -> (v: Result<(), ParseError>)
    ensures
        old(r).same_file(*final(r)),
        match v {
            Ok(_) => part_end(old(r).data@, old(r).pos as int) == Ok::<int, ParseError>(
                final(r).pos as int,
            ),
            Err(e) => part_end(old(r).data@, old(r).pos as int) == Err::<int, ParseError>(e),
        },
{
    let len: u32 = r.u32()?;
    r.bytes(len as u64)?;
    Ok(())
}

/// Moves to the next block, at most three bytes ahead.
fn skip_padding(data: &[u8], from: u64) -> (pos: u64)
    ensures
        pos == channel::min2(after_padding(data@, from as int, 3), u64::MAX as int),
{
    assert(data@.len() == data.len());
    let mut pos: u64 = from;
    let mut left: u8 = 3;
    while left > 0
        invariant
            data@.len() == data.len(),
            left <= 3,
            channel::min2(after_padding(data@, from as int, 3), u64::MAX as int) == channel::min2(
                after_padding(data@, pos as int, left as int),
                u64::MAX as int,
            ),
        decreases left,
    {
        if let Some(s) = bytes::slice_at(data, pos, 4) {
            let sig: [u8; 4] = [s[0], s[1], s[2], s[3]];
            assert(sig@ =~= s@);
            if layers::is_block_signature(&sig) {
                return pos;
            }
        }
        proof {
            padding_goes_forward(data@, pos as int, left as int);
            padding_goes_forward(data@, pos + 1, left - 1);
            if pos == u64::MAX {
                padding_goes_forward(data@, pos as int, left - 1);
            }
        }
        pos = pos.saturating_add(1);
        left = left - 1;
    }
    pos
}

/// Reads the fields before the content of a block: its key and length.
fn read_block_head(r: &mut Reader<'_>) -> (v: Result<Option<([u8; 4], u64)>, ParseError>)
    ensures
        old(r).same_file(*final(r)),
        match (v, block_head_at(old(r).data@, old(r).pos as int, old(r).psb)) {
            (Ok(Some(h)), Ok(Some(head))) => {
                &&& h.0@ == head.key
                &&& h.1 == head.len
                &&& final(r).pos == head.start
                &&& old(r).pos < head.start <= old(r).data@.len()
            },
            (Ok(None), Ok(None)) => true,
            (Err(a), Err(b)) => a == b,
            _ => false,
        },
{
    let ghost pos = r.pos as int;
    let sig = r.key()?;
    if !layers::is_block_signature(&sig) {
        return Ok(None);
    }
    let key = r.key()?;
    let len: u64 = r.block_len(&key)?;
    assert(r.data@.subrange(pos + 4, pos + 8) =~= key@);
    Ok(Some((key, len)))
}

/// Reads the layers in the block whose content comes next.
fn read_layers_in_block(r: &mut Reader<'_>, key: &[u8; 4], Ghost(head): Ghost<BlockHead>) -> (v:
    Result<Vec<LayerRecord>, ParseError>)
    requires
        key@ == head.key,
        old(r).pos == head.start,
    ensures
        old(r).same_file(*final(r)),
        match v {
            Ok(found) => layers_in_block(old(r).data@, head, old(r).psb) == Ok::<
                Seq<layers::LayerView>,
                ParseError,
            >(layer_info::layer_views(found@)),
            Err(e) => layers_in_block(old(r).data@, head, old(r).psb) == Err::<
                Seq<layers::LayerView>,
                ParseError,
            >(e),
        },
{
    if bytes::is_key(key, 'L', 'a', 'y', 'r') {
        let (found, _) = layer_info::parse_layer_info(r)?;
        Ok(found)
    } else {
        Ok(no_layers())
    }
}

/// No layers.
fn no_layers() -> (s: Vec<LayerRecord>)
    ensures
        layer_info::layer_views(s@) == Seq::<layers::LayerView>::empty(),
{
    let none: Vec<LayerRecord> = Vec::new();
    assert(layer_info::layer_views(none@) =~= seq![]);
    none
}

/// There are no layers where no block fits before the end.
proof fn nothing_past_the_end(d: Seq<u8>, pos: int, end: int, psb: bool)
    requires
        pos + 12 > end,
    ensures
        layers_in_blocks(d, pos, end, psb) == Ok::<Seq<layers::LayerView>, ParseError>(seq![]),
{
}

/// Reads the additional blocks up to `end`, until one holds layers.
fn read_layers_in_blocks(r: &mut Reader<'_>, end: u64) -> (v: Result<Vec<LayerRecord>, ParseError>)
    ensures
        old(r).same_file(*final(r)),
        match v {
            Ok(found) => layers_in_blocks(
                old(r).data@,
                old(r).pos as int,
                end as int,
                old(r).psb,
            ) == Ok::<Seq<layers::LayerView>, ParseError>(layer_info::layer_views(found@)),
            Err(e) => layers_in_blocks(old(r).data@, old(r).pos as int, end as int, old(r).psb)
                == Err::<Seq<layers::LayerView>, ParseError>(e),
        },
{
    assert(r.data@.len() == r.data.len());
    let ghost all = layers_in_blocks(r.data@, r.pos as int, end as int, r.psb);
    while r.pos <= end && end - r.pos >= 12
        invariant
            old(r).same_file(*r),
            r.data@.len() == r.data.len(),
            all == layers_in_blocks(old(r).data@, old(r).pos as int, end as int, old(r).psb),
            all == layers_in_blocks(r.data@, r.pos as int, end as int, r.psb),
        decreases
                (if r.pos < r.data@.len() {
                    r.data@.len() - r.pos
                } else {
                    0
                }),
    {
        let ghost head = block_head_at(r.data@, r.pos as int, r.psb)->Ok_0->0;
        let (key, len) = match read_block_head(r)? {
            Some(head) => head,
            None => {
                return Ok(no_layers());
            },
        };
        let start: u64 = r.pos;
        let found = read_layers_in_block(r, &key, Ghost(head))?;
        if found.len() > 0 {
            return Ok(found);
        }
        r.pos = skip_padding(r.data, start.saturating_add(len));
        proof {
            padding_goes_forward(r.data@, start + len, 3);
            padding_goes_forward(r.data@, bytes::sat(start as int, len as int), 3);
            let next = after_padding(r.data@, start + len, 3);
            if r.pos != next {
                assert(next + 12 > end && r.pos + 12 > end);
                nothing_past_the_end(r.data@, next, end as int, r.psb);
                nothing_past_the_end(r.data@, r.pos as int, end as int, r.psb);
            }
        }
    }
    Ok(no_layers())
}

/// Counts the layers that cannot be shown.
fn count_damaged(s: &Vec<LayerRecord>) -> (n: u64)
    ensures
        n == damaged_count(layer_info::layer_views(s@)),
{
    let size: usize = s.len();
    let ghost all = layer_info::layer_views(s@);
    let mut n: u64 = 0;
    let mut i: usize = 0;
    while i < size
        invariant
            i <= size == s@.len(),
            all == layer_info::layer_views(s@),
            n <= i,
            n == damaged_count(all.take(i as int)),
        decreases size - i,
    {
        assert(all.take(i + 1).drop_last() =~= all.take(i as int));
        if s[i].damaged && s[i].divider != 3 {
            n = n + 1;
        }
        i = i + 1;
    }
    assert(all.take(size as int) =~= all);
    n
}

/// What the layer section holds.
struct Section {
    layers: Vec<LayerRecord>,
    warnings: Vec<Warning>,
    end: u64,
}

impl View for Section {
    type V = SectionView;

    closed spec fn view(&self) -> SectionView {
        SectionView {
            layers: layer_info::layer_views(self.layers@),
            warnings: warning::warning_views(self.warnings@),
            end: self.end as int,
        }
    }
}

/// The warnings about damaged layers.
fn warn_of_damage(s: &Vec<LayerRecord>, shift: i128) -> (w: Vec<Warning>)
    requires
        -u64::MAX <= shift <= u64::MAX,
    ensures
        warning::warning_views(w@) == damage_warnings(layer_info::layer_views(s@), shift as int),
{
    let mut w: Vec<Warning> = Vec::new();
    let damaged: u64 = count_damaged(s);
    if damaged > 0 {
        let missing: u64 = if shift < 0 { (-shift) as u64 } else { shift as u64 };
        w.push(Warning::Damaged { layers: damaged, missing });
    }
    assert(warning::warning_views(w@) =~= damage_warnings(
        layer_info::layer_views(s@),
        shift as int,
    ));
    w
}

/// Reads the rest of a section.
fn read_section_rest(r: &mut Reader<'_>, section: Section) -> (v: Result<Section, ParseError>)
    ensures
        old(r).same_file(*final(r)),
        match v {
            Ok(s) => section_rest_at(old(r).data@, old(r).pos as int, old(r).psb, section@) == Ok::<
                SectionView,
                ParseError,
            >(s@),
            Err(e) => section_rest_at(old(r).data@, old(r).pos as int, old(r).psb, section@)
                == Err::<SectionView, ParseError>(e),
        },
{
    assert(r.data@.len() == r.data.len());
    if r.pos > section.end || section.end - r.pos < 4 {
        return Ok(section);
    }
    let len: u32 = r.u32()?;
    if section.layers.len() > 0 {
        return Ok(section);
    }
    let ghost from = r.pos + len;
    r.pos = r.pos.saturating_add(len as u64);
    assert(from > u64::MAX ==> layers_in_blocks(r.data@, from, section.end as int, r.psb)
        == layers_in_blocks(r.data@, r.pos as int, section.end as int, r.psb));
    let found = read_layers_in_blocks(r, section.end)?;
    Ok(Section { layers: found, ..section })
}

/// Reads the layer section of `len` bytes.
fn read_section(r: &mut Reader<'_>, len: u64) -> (v: Result<Section, ParseError>)
    ensures
        old(r).same_file(*final(r)),
        match v {
            Ok(s) => section_content(old(r).data@, old(r).pos as int, len as int, old(r).psb)
                == Ok::<SectionView, ParseError>(s@),
            Err(e) => section_content(old(r).data@, old(r).pos as int, len as int, old(r).psb)
                == Err::<SectionView, ParseError>(e),
        },
{
    let end: u64 = r.pos.saturating_add(len);
    let mut found: Vec<LayerRecord> = no_layers();
    if len == 0 {
        let warnings: Vec<Warning> = Vec::new();
        assert(warning::warning_views(warnings@) =~= seq![]);
        return Ok(Section { layers: found, warnings, end });
    }
    let psb = r.psb;
    let info_len: u64 = r.len(psb)?;
    let info: u64 = r.pos;
    let mut shift: i128 = 0;
    if info_len > 0 {
        let (read, moved) = layer_info::parse_layer_info(r)?;
        found = read;
        shift = moved;
    }
    // Where data is missing, what follows has moved by the same number of bytes.
    r.pos = layer_info::shifted(info.saturating_add(info_len), shift);
    let warnings = warn_of_damage(&found, shift);
    let section_end: u64 = layer_info::shifted(end, shift);
    read_section_rest(r, Section { layers: found, warnings, end: section_end })
}

/// Reads a file.
pub fn read_psd(data: &[u8]) -> (v: Result<Psd, ParseError>)
    ensures
        match v {
            Ok(psd) => psd_at(data@) == Ok::<PsdView, ParseError>(psd@),
            Err(e) => psd_at(data@) == Err::<PsdView, ParseError>(e),
        },
{
    let mut r = Reader { data, pos: 0, psb: false };
    let h = read_header(&mut r)?;
    r.psb = h.psb;
    skip_part(&mut r)?;
    skip_part(&mut r)?;
    let len: u64 = r.len(h.psb)?;
    let section = read_section(&mut r, len)?;
    let merged: Vec<Channel> = if section.layers.len() == 0 {
        merged::parse_merged(data, section.end, h.channels, h.width, h.height, h.psb)
    } else {
        Vec::new()
    };
    assert(section.layers@.len() != 0 ==> merged::channels_view(merged@) =~= seq![]);
    Ok(
        Psd {
            width: h.width,
            height: h.height,
            color_mode: h.color_mode,
            layers: section.layers,
            merged,
            warnings: section.warnings,
        },
    )
}

/// Reads a file. The error is what the user is told.
pub fn parse(data: &[u8]) -> (v: Result<Psd, String>)
    ensures
        match v {
            Ok(psd) => psd_at(data@) == Ok::<PsdView, ParseError>(psd@),
            Err(s) => psd_at(data@) matches Err(e) && s@ == e.text(),
        },
{
    match read_psd(data) {
        Ok(psd) => Ok(psd),
        Err(e) => Err(e.message()),
    }
}

/// Only a file without layers gives a merged image.
pub proof fn merged_image_stands_for_no_layers(d: Seq<u8>)
    ensures
        psd_at(d) matches Ok(psd) ==> psd.merged.len() == 0 || psd.layers.len() == 0,
{
}

/// A list of layers is warned of, once, if and only if it holds a damaged layer that is not the end
/// of a folder.
pub proof fn damage_is_told(s: Seq<layers::LayerView>, shift: int)
    ensures
        damage_warnings(s, shift).len() == 1 <==> exists|i: int|
            0 <= i < s.len() && (#[trigger] s[i]).damaged && s[i].divider != 3,
        damage_warnings(s, shift).len() <= 1,
{
    damaged_are_counted(s);
}

/// A file warns at most once, and only where one of its layers is damaged and is not the end of a
/// folder. Layers of a later block are not warned of.
pub proof fn warnings_are_of_damaged_layers(d: Seq<u8>)
    ensures
        psd_at(d) matches Ok(psd) ==> psd.warnings.len() <= 1 && (psd.warnings.len() == 1
            ==> exists|i: int|
            0 <= i < psd.layers.len() && (#[trigger] psd.layers[i]).damaged && psd.layers[i].divider
                != 3),
{
    if let Ok(psd) = psd_at(d) {
        let h = header_at(d)->Ok_0;
        let (start, len) = section_at(d, h.psb)->Ok_0;
        section_warns_of_damage(d, start, len, h.psb);
        let section = section_content(d, start, len, h.psb)->Ok_0;
        assert(psd.layers == section.layers && psd.warnings == section.warnings);
        if psd.warnings.len() == 1 {
            let i = choose|i: int|
                0 <= i < section.layers.len() && (#[trigger] section.layers[i]).damaged
                    && section.layers[i].divider != 3;
            assert(psd.layers[i].damaged);
        }
    }
}

/// A section warns only where one of its layers is damaged.
proof fn section_warns_of_damage(d: Seq<u8>, start: int, len: int, psb: bool)
    ensures
        section_content(d, start, len, psb) matches Ok(s) ==> s.warnings.len() <= 1 && (
        s.warnings.len() == 1 ==> exists|i: int|
            0 <= i < s.layers.len() && (#[trigger] s.layers[i]).damaged && s.layers[i].divider
                != 3),
{
    if let Ok(s) = section_content(d, start, len, psb) {
        if len != 0 {
            let info = start + reader::len_size(psb);
            let (found, shift, at) = if reader::len_at(d, start, psb) > 0 {
                layer_info::layer_info_at(d, info, psb)->Ok_0
            } else {
                (seq![], 0, info)
            };
            damage_is_told(found, shift);
            assert(s.warnings == damage_warnings(found, shift));
            if s.warnings.len() == 1 {
                let i = choose|i: int|
                    0 <= i < found.len() && (#[trigger] found[i]).damaged && found[i].divider != 3;
                assert(s.layers == found);
                assert(s.layers[i].damaged);
            }
        }
    }
}

/// The count of damaged layers is positive if and only if there is one.
proof fn damaged_are_counted(s: Seq<layers::LayerView>)
    ensures
        damaged_count(s) >= 0,
        damaged_count(s) > 0 <==> exists|i: int|
            0 <= i < s.len() && (#[trigger] s[i]).damaged && s[i].divider != 3,
    decreases s.len(),
{
    if s.len() > 0 {
        let before = s.drop_last();
        damaged_are_counted(before);
        if damaged_count(before) > 0 {
            let i = choose|i: int|
                0 <= i < before.len() && (#[trigger] before[i]).damaged && before[i].divider != 3;
            assert(s[i] == before[i]);
        }
        if s.last().damaged && s.last().divider != 3 {
            assert(s[s.len() - 1] == s.last());
        } else {
            assert forall|i: int|
                0 <= i < s.len() && (#[trigger] s[i]).damaged && s[i].divider
                    != 3 implies damaged_count(before) > 0 by {
                assert(before[i] == s[i]);
            }
        }
    }
}

/// What is told of damaged layers: how many there are, folder ends left aside, and by how much the
/// data after them has moved.
pub proof fn damage_is_counted(s: Seq<layers::LayerView>, shift: int)
    requires
        -u64::MAX <= shift <= u64::MAX,
        s.len() <= u64::MAX,
    ensures
        ({
            let n = s.filter(|l: layers::LayerView| l.damaged && l.divider != 3).len();
            &&& n == 0 ==> damage_warnings(s, shift).len() == 0
            &&& n > 0 ==> damage_warnings(s, shift).len() == 1 && (damage_warnings(s, shift)[0]
                matches warning::WarningView::Damaged { layers, missing } && layers == n && (missing
                == shift || missing == -shift))
        }),
{
    damaged_are_filtered(s);
}

proof fn damaged_are_filtered(s: Seq<layers::LayerView>)
    ensures
        damaged_count(s) == s.filter(|l: layers::LayerView| l.damaged && l.divider != 3).len(),
        damaged_count(s) <= s.len(),
    decreases s.len(),
{
    let bad = |l: layers::LayerView| l.damaged && l.divider != 3;
    reveal(Seq::filter);
    if s.len() > 0 {
        damaged_are_filtered(s.drop_last());
    }
}

/// A section of layers is read even if data is missing in it, so that what follows has moved: where
/// it ends with the layers, or where the length of the next part can still be read, the result is
/// the layers that were found and what is told of the others.
pub proof fn damaged_sections_are_read(
    d: Seq<u8>,
    start: int,
    info: int,
    info_len: int,
    after: int,
    psb: bool,
    found: Seq<layers::LayerView>,
    shift: int,
    pos: int,
)
    requires
        bytes::within(d, start, info - start),
        psb ==> info == start + 8 && bytes::be64(d, start) == info_len,
        !psb ==> info == start + 4 && bytes::be32(d, start) == info_len,
        info_len > 0,
        after >= 0,
        info + info_len + after <= u64::MAX,
        0 <= info + info_len + shift,
        info + info_len + after + shift <= u64::MAX,
        layer_info::layer_info_at(d, info, psb) == Ok::<
            (Seq<layers::LayerView>, int, int),
            ParseError,
        >((found, shift, pos)),
        found.len() > 0,
        after < 4 || info + info_len + shift + 4 <= d.len(),
    ensures
        section_content(d, start, info - start + info_len + after, psb) == Ok::<
            SectionView,
            ParseError,
        >(
            SectionView {
                layers: found,
                warnings: damage_warnings(found, shift),
                end: info + info_len + after + shift,
            },
        ),
{
}

/// A section that goes on after its layers is refused where the file ends before the next length.
pub proof fn sections_cut_off_are_refused(
    d: Seq<u8>,
    start: int,
    info: int,
    info_len: int,
    after: int,
    psb: bool,
    found: Seq<layers::LayerView>,
    shift: int,
    pos: int,
)
    requires
        bytes::within(d, start, info - start),
        psb ==> info == start + 8 && bytes::be64(d, start) == info_len,
        !psb ==> info == start + 4 && bytes::be32(d, start) == info_len,
        info_len > 0,
        after >= 4,
        info + info_len + after <= u64::MAX,
        0 <= info + info_len + shift,
        info + info_len + after + shift <= u64::MAX,
        layer_info::layer_info_at(d, info, psb) == Ok::<
            (Seq<layers::LayerView>, int, int),
            ParseError,
        >((found, shift, pos)),
        info + info_len + shift + 4 > d.len(),
    ensures
        section_content(d, start, info - start + info_len + after, psb) == Err::<
            SectionView,
            ParseError,
        >(ParseError::Eof),
{
}

} // verus!
