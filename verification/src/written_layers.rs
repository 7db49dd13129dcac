//! What was written is read back: the laws of layer records.
use vstd::prelude::*;

use crate::bytes;
use crate::channel;
use crate::error::ParseError;
use crate::layers;
use crate::layers::{MaskInfo, Rect};
use crate::reader;
use crate::text;
use crate::writing;

verus! {

/// An additional block as a writer has it.
pub struct Block {
    /// Whether it begins with the letters `8B64` in place of `8BIM`.
    pub long_mark: bool,
    pub key: Seq<u8>,
    pub content: Seq<u8>,
}

/// A mask as a writer has it.
pub struct WrittenMask {
    pub rect: Rect,
    pub default: u8,
    pub flags: u8,
    /// The flags, the value outside, and the rectangle of the second mask.
    pub second: Option<(u8, u8, Rect)>,
    pub tail: Seq<u8>,
}

/// A layer as a writer has it.
pub struct WrittenLayer {
    pub rect: Rect,
    /// The id and the length of each channel.
    pub channels: Seq<(i16, u64)>,
    pub blend: Seq<u8>,
    pub opacity: u8,
    pub clipping: u8,
    pub flags: u8,
    pub filler: u8,
    pub mask: Option<WrittenMask>,
    pub ranges: Seq<u8>,
    pub name: Seq<u8>,
    pub blocks: Seq<Block>,
}

/// The letters `8BIM`.
pub open spec fn mark() -> Seq<u8> {
    seq![56u8, 66u8, 73u8, 77u8]
}

/// The letters `8B64`.
pub open spec fn long_mark() -> Seq<u8> {
    seq![56u8, 66u8, 54u8, 52u8]
}

/// The keys whose blocks have a wide length in the large format: LMsk, Lr16, Lr32, Layr, Mt16,
/// Mt32, Mtrn, Alph, FMsk, lnk2, FEid, FXid and PxSD.
#[verifier::opaque]
pub open spec fn long_keys() -> Seq<Seq<u8>> {
    seq![
        seq![76u8, 77u8, 115u8, 107u8],
        seq![76u8, 114u8, 49u8, 54u8],
        seq![76u8, 114u8, 51u8, 50u8],
        seq![76u8, 97u8, 121u8, 114u8],
        seq![77u8, 116u8, 49u8, 54u8],
        seq![77u8, 116u8, 51u8, 50u8],
        seq![77u8, 116u8, 114u8, 110u8],
        seq![65u8, 108u8, 112u8, 104u8],
        seq![70u8, 77u8, 115u8, 107u8],
        seq![108u8, 110u8, 107u8, 50u8],
        seq![70u8, 69u8, 105u8, 100u8],
        seq![70u8, 88u8, 105u8, 100u8],
        seq![80u8, 120u8, 83u8, 68u8],
    ]
}

/// A key is among these if and only if its blocks are read with a wide length.
pub proof fn long_keys_are_known(key: Seq<u8>)
    ensures
        reader::wide_key(key) <==> long_keys().contains(key),
{
    reveal(long_keys);
    let keys = long_keys();
    assert(keys[0] =~= bytes::key4('L', 'M', 's', 'k'));
    assert(keys[1] =~= bytes::key4('L', 'r', '1', '6'));
    assert(keys[2] =~= bytes::key4('L', 'r', '3', '2'));
    assert(keys[3] =~= bytes::key4('L', 'a', 'y', 'r'));
    assert(keys[4] =~= bytes::key4('M', 't', '1', '6'));
    assert(keys[5] =~= bytes::key4('M', 't', '3', '2'));
    assert(keys[6] =~= bytes::key4('M', 't', 'r', 'n'));
    assert(keys[7] =~= bytes::key4('A', 'l', 'p', 'h'));
    assert(keys[8] =~= bytes::key4('F', 'M', 's', 'k'));
    assert(keys[9] =~= bytes::key4('l', 'n', 'k', '2'));
    assert(keys[10] =~= bytes::key4('F', 'E', 'i', 'd'));
    assert(keys[11] =~= bytes::key4('F', 'X', 'i', 'd'));
    assert(keys[12] =~= bytes::key4('P', 'x', 'S', 'D'));
}

impl Block {
    /// Whether the length has eight bytes.
    pub open spec fn is_long(self, psb: bool) -> bool {
        psb && long_keys().contains(self.key)
    }

    /// Whether the block can be written.
    pub open spec fn fits(self, psb: bool) -> bool {
        self.key.len() == 4 && self.content.len() <= if self.is_long(psb) {
            u64::MAX as int
        } else {
            u32::MAX as int
        }
    }

    /// The bytes of the block.
    #[verifier::opaque]
    pub open spec fn written(self, psb: bool) -> Seq<u8> {
        (if self.long_mark {
            long_mark()
        } else {
            mark()
        }) + (self.key + (writing::put_len(self.content.len() as int, self.is_long(psb))
            + self.content))
    }
}

/// The bytes of the blocks, one after another.
pub open spec fn written_blocks(blocks: Seq<Block>, psb: bool) -> Seq<u8>
    decreases blocks.len(),
{
    if blocks.len() == 0 {
        seq![]
    } else {
        blocks[0].written(psb) + written_blocks(blocks.skip(1), psb)
    }
}

/// What the blocks say one after another, after `x`.
pub open spec fn said(x: layers::ExtraView, blocks: Seq<Block>) -> layers::ExtraView
    decreases blocks.len(),
{
    if blocks.len() == 0 {
        x
    } else {
        said(
            layers::with_block(
                x,
                blocks[0].key,
                blocks[0].content.len() as int,
                blocks[0].content,
            ),
            blocks.skip(1),
        )
    }
}

/// A block that was written is found with its key and its content, and the next one after it.
pub proof fn written_block_is_found(d: Seq<u8>, pos: int, b: Block, psb: bool)
    requires
        writing::holds(d, pos, b.written(psb)),
        b.fits(psb),
    ensures
        ({
            let wide = psb && reader::wide_key(b.key);
            let start = pos + 8 + reader::len_size(wide);
            &&& b.written(psb).len() == 8 + reader::len_size(wide) + b.content.len()
            &&& bytes::within(d, pos, 8)
            &&& layers::block_signature(d.subrange(pos, pos + 4))
            &&& d.subrange(pos + 4, pos + 8) == b.key
            &&& bytes::within(d, pos + 8, reader::len_size(wide))
            &&& reader::len_at(d, pos + 8, wide) == b.content.len()
            &&& writing::holds(d, start, b.content)
        }),
{
    let first = if b.long_mark {
        long_mark()
    } else {
        mark()
    };
    reveal(Block::written);
    let n = b.content.len() as int;
    let wide = b.is_long(psb);
    long_keys_are_known(b.key);
    writing::held_pieces(d, pos, first, b.key + (writing::put_len(n, wide) + b.content));
    writing::held_pieces(d, pos + 4, b.key, writing::put_len(n, wide) + b.content);
    writing::held_pieces(d, pos + 8, writing::put_len(n, wide), b.content);
    writing::written_len_is_read(d, pos + 8, n, wide);
    assert(mark() =~= bytes::key4('8', 'B', 'I', 'M'));
    assert(long_mark() =~= bytes::key4('8', 'B', '6', '4'));
}

/// Blocks that were written are read to their end, each with its key and its content.
pub proof fn written_blocks_are_read(
    d: Seq<u8>,
    pos: int,
    blocks: Seq<Block>,
    psb: bool,
    x: layers::ExtraView,
)
    requires
        writing::holds(d, pos, written_blocks(blocks, psb)),
        forall|i: int| 0 <= i < blocks.len() ==> (#[trigger] blocks[i]).fits(psb),
    ensures
        layers::with_blocks(d, pos, pos + written_blocks(blocks, psb).len(), psb, x) == Ok::<
            layers::ExtraView,
            ParseError,
        >(said(x, blocks)),
    decreases blocks.len(),
{
    if blocks.len() > 0 {
        let b = blocks[0];
        let rest = blocks.skip(1);
        let end = pos + written_blocks(blocks, psb).len();
        writing::held_pieces(d, pos, b.written(psb), written_blocks(rest, psb));
        written_block_is_found(d, pos, b, psb);
        assert forall|i: int| 0 <= i < rest.len() implies (#[trigger] rest[i]).fits(psb) by {
            assert(rest[i] == blocks[i + 1]);
        }
        let wide = psb && reader::wide_key(b.key);
        let start = pos + 8 + reader::len_size(wide);
        let n = b.content.len() as int;
        writing::held_bytes(d, start, b.content);
        writing::held_bytes(d, pos, written_blocks(blocks, psb));
        assert(layers::block_at(d, start, n, end) == b.content);
        written_blocks_are_read(d, start + n, rest, psb, layers::with_block(x, b.key, n, b.content));
        assert(start + n + written_blocks(rest, psb).len() == end);
    }
}

/// The bytes of a rectangle.
pub open spec fn written_rect(r: Rect) -> Seq<u8> {
    writing::put32(writing::unsigned(r.top as int, 4294967296)) + (writing::put32(
        writing::unsigned(r.left as int, 4294967296),
    ) + (writing::put32(writing::unsigned(r.bottom as int, 4294967296)) + writing::put32(
        writing::unsigned(r.right as int, 4294967296),
    )))
}

/// A rectangle is read as it was written.
pub proof fn written_rect_is_read(d: Seq<u8>, at: int, r: Rect)
    requires
        writing::holds(d, at, written_rect(r)),
    ensures
        written_rect(r).len() == 16,
        layers::rect_at(d, at) == r,
{
    let top = writing::put32(writing::unsigned(r.top as int, 4294967296));
    let left = writing::put32(writing::unsigned(r.left as int, 4294967296));
    let bottom = writing::put32(writing::unsigned(r.bottom as int, 4294967296));
    let right = writing::put32(writing::unsigned(r.right as int, 4294967296));
    writing::held_pieces(d, at, top, left + (bottom + right));
    writing::held_pieces(d, at + 4, left, bottom + right);
    writing::held_pieces(d, at + 8, bottom, right);
    writing::written_signed_is_read(d, at, r.top as int);
    writing::written_signed_is_read(d, at + 4, r.left as int);
    writing::written_signed_is_read(d, at + 8, r.bottom as int);
    writing::written_signed_is_read(d, at + 12, r.right as int);
}

/// The bytes of the list of channels: for each an id and a length.
pub open spec fn written_list(list: Seq<(i16, u64)>, psb: bool) -> Seq<u8>
    decreases list.len(),
{
    if list.len() == 0 {
        seq![]
    } else {
        written_list(list.drop_last(), psb) + (writing::put16(
            writing::unsigned(list.last().0 as int, 65536),
        ) + writing::put_len(list.last().1 as int, psb))
    }
}

/// Whether the lengths can be written.
pub open spec fn list_fits(list: Seq<(i16, u64)>, psb: bool) -> bool {
    list.len() < 65536 && forall|i: int|
        0 <= i < list.len() ==> psb || (#[trigger] list[i]).1 <= u32::MAX
}

/// The list of channels is read as it was written.
pub proof fn written_list_is_read(d: Seq<u8>, at: int, list: Seq<(i16, u64)>, psb: bool)
    requires
        writing::holds(d, at, written_list(list, psb)),
        list_fits(list, psb),
    ensures
        written_list(list, psb).len() == list.len() * (2 + reader::len_size(psb)),
        layers::channel_list_at(d, at, list.len() as int, psb) == list,
    decreases list.len(),
{
    let step = 2 + reader::len_size(psb);
    if list.len() == 0 {
        assert(layers::channel_list_at(d, at, 0, psb) =~= list);
        assert(0 * step == 0);
    } else {
        let before = list.drop_last();
        let n = before.len() as int;
        let id = writing::put16(writing::unsigned(list.last().0 as int, 65536));
        let len = writing::put_len(list.last().1 as int, psb);
        writing::held_pieces(d, at, written_list(before, psb), id + len);
        assert forall|i: int| 0 <= i < before.len() implies psb || (#[trigger] before[i]).1
            <= u32::MAX by {
            assert(before[i] == list[i]);
        }
        written_list_is_read(d, at, before, psb);
        assert(list.last() == list[n]);
        let p = at + n * step;
        writing::held_pieces(d, p, id, len);
        writing::written_signed_is_read(d, p, list.last().0 as int);
        writing::written_len_is_read(d, p + 2, list.last().1 as int, psb);
        assert(list.len() * step == n * step + step) by (nonlinear_arith)
            requires
                list.len() == n + 1,
        ;
        let read = layers::channel_list_at(d, at, n + 1, psb);
        assert forall|i: int| 0 <= i < list.len() implies read[i] == list[i] by {
            if i < n {
                assert(layers::channel_list_at(d, at, n, psb)[i] == before[i]);
            }
        }
        assert(read =~= list);
    }
}

impl WrittenMask {
    /// Whether the data is no longer than its rectangles need.
    pub open spec fn fits(self) -> bool {
        self.second is None ==> self.tail.len() < 18
    }

    /// The bytes of the mask data.
    pub open spec fn written(self) -> Seq<u8> {
        written_rect(self.rect) + (seq![self.default, self.flags] + (self.written_second()
            + self.tail))
    }

    /// The bytes of the second mask.
    pub open spec fn written_second(self) -> Seq<u8> {
        match self.second {
            Some((flags, default, rect)) => seq![flags, default] + written_rect(rect),
            None => seq![],
        }
    }
}

/// A mask with these flags: bit 1 switches it off and bit 2 inverts it.
pub open spec fn mask_with(rect: Rect, default: u8, flags: u8) -> MaskInfo {
    MaskInfo {
        rect,
        default,
        disabled: flags as int / 2 % 2 == 1,
        invert: flags as int / 4 % 2 == 1,
    }
}

/// The bits of a byte that matter here.
proof fn bits_of(flags: u8)
    ensures
        flags & 2 != 0 <==> flags as int / 2 % 2 == 1,
        flags & 4 != 0 <==> flags as int / 4 % 2 == 1,
{
    assert(flags & 2 != 0 <==> flags / 2 % 2 == 1) by (bit_vector);
    assert(flags & 4 != 0 <==> flags / 4 % 2 == 1) by (bit_vector);
}

/// Masks are read as they were written.
pub proof fn written_masks_are_read(d: Seq<u8>, at: int, mask: WrittenMask)
    requires
        writing::holds(d, at, mask.written()),
        mask.fits(),
    ensures
        bytes::within(d, at, layers::mask_size(mask.written().len() as int)),
        layers::masks_at(d, at, mask.written().len() as int).0 == Some(
            mask_with(mask.rect, mask.default, mask.flags),
        ),
        layers::masks_at(d, at, mask.written().len() as int).1 == match mask.second {
            Some((flags, default, rect)) => Some(mask_with(rect, default, flags)),
            None => None,
        },
{
    let pair = seq![mask.default, mask.flags];
    let rest = mask.written_second() + mask.tail;
    writing::held_pieces(d, at, written_rect(mask.rect), pair + rest);
    written_rect_is_read(d, at, mask.rect);
    writing::held_pieces(d, at + 16, pair, rest);
    writing::held_bytes(d, at + 16, pair);
    assert(d[at + 16 + 0] == pair[0] && d[at + 16 + 1] == pair[1]);
    bits_of(mask.flags);
    writing::held_pieces(d, at + 18, mask.written_second(), mask.tail);
    if let Some((flags, default, rect)) = mask.second {
        let two = seq![flags, default];
        writing::held_pieces(d, at + 18, two, written_rect(rect));
        writing::held_bytes(d, at + 18, two);
        assert(d[at + 18 + 0] == two[0] && d[at + 18 + 1] == two[1]);
        written_rect_is_read(d, at + 20, rect);
        bits_of(flags);
    }
}

/// `n` zeros.
pub open spec fn zeros(n: int) -> Seq<u8> {
    Seq::new(n as nat, |i: int| 0u8)
}

impl WrittenLayer {
    /// Whether the layer can be written.
    #[verifier::opaque]
    pub open spec fn fits(self, psb: bool) -> bool {
        &&& list_fits(self.channels, psb)
        &&& self.blend.len() == 4
        &&& self.mask matches Some(mask) ==> mask.fits()
        &&& self.name.len() < 256
        &&& forall|i: int| 0 <= i < self.blocks.len() ==> (#[trigger] self.blocks[i]).fits(psb)
        &&& self.written_extra(psb).len() <= u32::MAX
    }

    /// The bytes of the mask data, none where there is no mask.
    pub open spec fn written_mask(self) -> Seq<u8> {
        match self.mask {
            Some(mask) => mask.written(),
            None => seq![],
        }
    }

    /// The bytes of the name: its length, the name, and as many zeros as make it a multiple of
    /// four.
    pub open spec fn written_name(self) -> Seq<u8> {
        seq![self.name.len() as u8] + (self.name + zeros(3 - self.name.len() as int % 4))
    }

    /// The bytes of the part with masks, blend ranges, name and blocks.
    pub open spec fn written_extra(self, psb: bool) -> Seq<u8> {
        writing::put32(self.written_mask().len() as int) + (self.written_mask() + (writing::put32(
            self.ranges.len() as int,
        ) + (self.ranges + (self.written_name() + written_blocks(self.blocks, psb)))))
    }

    /// The bytes of the four numbers behind the blend key.
    pub open spec fn written_values(self) -> Seq<u8> {
        seq![self.opacity, self.clipping, self.flags, self.filler]
    }

    /// The bytes of the record.
    #[verifier::opaque]
    pub open spec fn written(self, psb: bool) -> Seq<u8> {
        written_rect(self.rect) + (writing::put16(self.channels.len() as int) + (written_list(
            self.channels,
            psb,
        ) + (mark() + (self.blend + (self.written_values() + (writing::put32(
            self.written_extra(psb).len() as int,
        ) + self.written_extra(psb)))))))
    }

    /// What is said where no block says otherwise.
    pub open spec fn plain(self) -> layers::ExtraView {
        layers::ExtraView {
            name: text::lossy_text(self.name),
            blend: self.blend,
            fill_opacity: 255,
            divider: 0,
            has_effects: false,
            adjustment: None,
        }
    }

    /// The record that is read.
    #[verifier::opaque]
    pub open spec fn read(self) -> layers::LayerView {
        self.read_with(said(self.plain(), self.blocks))
    }

    /// The record that is read where the blocks say `x`.
    pub open spec fn read_with(self, x: layers::ExtraView) -> layers::LayerView {
        layers::LayerView {
            name: x.name,
            bounds: self.rect,
            channels: seq![],
            blend: x.blend,
            opacity: self.opacity,
            fill_opacity: x.fill_opacity,
            clipped: self.clipping != 0,
            visible: self.flags as int / 2 % 2 == 0,
            divider: x.divider,
            user_mask: match self.mask {
                Some(mask) => Some(mask_with(mask.rect, mask.default, mask.flags)),
                None => None,
            },
            real_mask: match self.mask {
                Some(mask) => match mask.second {
                    Some((flags, default, rect)) => Some(mask_with(rect, default, flags)),
                    None => None,
                },
                None => None,
            },
            has_effects: x.has_effects,
            adjustment: x.adjustment,
            damaged: false,
        }
    }
}

/// The pieces of the part with masks, blend ranges, name and blocks are held one after another.
proof fn held_extra(d: Seq<u8>, at: int, l: WrittenLayer, psb: bool)
    requires
        writing::holds(d, at, l.written_extra(psb)),
    ensures
        ({
            let mask = l.written_mask();
            let ranges = at + 4 + mask.len();
            let name = ranges + 4 + l.ranges.len();
            let blocks = written_blocks(l.blocks, psb);
            &&& writing::holds(d, at, writing::put32(mask.len() as int))
            &&& writing::holds(d, at + 4, mask)
            &&& writing::holds(d, ranges, writing::put32(l.ranges.len() as int))
            &&& writing::holds(d, ranges + 4, l.ranges)
            &&& writing::holds(d, name, l.written_name())
            &&& writing::holds(d, name + l.written_name().len(), blocks)
            &&& name + l.written_name().len() + blocks.len() == at + l.written_extra(psb).len()
            &&& 0 <= at
            &&& at + l.written_extra(psb).len() <= d.len()
        }),
{
    let mask = l.written_mask();
    let blocks = written_blocks(l.blocks, psb);
    let named = l.written_name() + blocks;
    let ranged = l.ranges + named;
    let after_mask = writing::put32(l.ranges.len() as int) + ranged;
    writing::held_pieces(d, at, writing::put32(mask.len() as int), mask + after_mask);
    writing::held_pieces(d, at + 4, mask, after_mask);
    let ranges = at + 4 + mask.len();
    writing::held_pieces(d, ranges, writing::put32(l.ranges.len() as int), ranged);
    writing::held_pieces(d, ranges + 4, l.ranges, named);
    let name = ranges + 4 + l.ranges.len();
    writing::held_pieces(d, name, l.written_name(), blocks);
}

/// The name of a layer is read as it was written, and the blocks come right after it.
proof fn written_name_is_read(d: Seq<u8>, at: int, l: WrittenLayer)
    requires
        writing::holds(d, at, l.written_name()),
        l.name.len() < 256,
    ensures
        bytes::within(d, at, 1),
        d[at] == l.name.len(),
        bytes::within(d, at + 1, d[at] as int),
        d.subrange(at + 1, at + 1 + d[at]) == l.name,
        l.written_name().len() == 1 + d[at] + layers::name_padding(d[at] as int),
{
    let size = seq![l.name.len() as u8];
    let padding = zeros(3 - l.name.len() as int % 4);
    writing::held_pieces(d, at, size, l.name + padding);
    writing::held_bytes(d, at, size);
    assert(d[at + 0] == size[0]);
    writing::held_pieces(d, at + 1, l.name, padding);
}

/// The part with masks, blend ranges, name and blocks is read as it was written, where the blocks
/// say `x`.
proof fn written_extra_is_read(
    d: Seq<u8>,
    sig: int,
    l: WrittenLayer,
    psb: bool,
    x: layers::ExtraView,
)
    requires
        writing::holds(d, sig + 16, l.written_extra(psb)),
        writing::holds(d, sig + 4, l.blend),
        0 <= sig,
        l.blend.len() == 4,
        l.mask matches Some(mask) ==> mask.fits(),
        l.name.len() < 256,
        l.written_extra(psb).len() <= u32::MAX,
        ({
            let end = sig + 16 + l.written_extra(psb).len();
            layers::with_blocks(
                d,
                end - written_blocks(l.blocks, psb).len(),
                end,
                psb,
                l.plain(),
            ) == Ok::<layers::ExtraView, ParseError>(x)
        }),
    ensures
        bytes::within(d, sig + 16, 4),
        bytes::be32(d, sig + 16) == l.written_mask().len(),
        writing::holds(d, sig + 20, l.written_mask()),
        layers::record_rest_at(d, sig, sig + 16 + l.written_extra(psb).len(), psb) == Ok::<
            layers::ExtraView,
            ParseError,
        >(x),
{
    reveal(layers::record_rest_at);
    held_extra(d, sig + 16, l, psb);
    let mask = l.written_mask();
    writing::written32_is_read(d, sig + 16, mask.len() as int);
    let ranges = sig + 20 + mask.len();
    writing::written32_is_read(d, ranges, l.ranges.len() as int);
    let name = ranges + 4 + l.ranges.len();
    written_name_is_read(d, name, l);
    if let Some(m) = l.mask {
        written_masks_are_read(d, sig + 20, m);
    }
    writing::held_bytes(d, sig + 4, l.blend);
    writing::held_bytes(d, sig + 20, mask);
}

/// The pieces of a record are held one after another.
proof fn held_record(d: Seq<u8>, pos: int, l: WrittenLayer, psb: bool)
    requires
        writing::holds(d, pos, l.written(psb)),
        l.blend.len() == 4,
        list_fits(l.channels, psb),
    ensures
        ({
            let sig = pos + 18 + l.channels.len() * (2 + reader::len_size(psb));
            let extra = l.written_extra(psb);
            &&& layers::rect_at(d, pos) == l.rect
            &&& bytes::within(d, pos, 18)
            &&& bytes::be16(d, pos + 16) == l.channels.len()
            &&& layers::channel_list_at(d, pos + 18, l.channels.len() as int, psb) == l.channels
            &&& d.subrange(sig, sig + 4) == mark()
            &&& writing::holds(d, sig + 4, l.blend)
            &&& d[sig + 8] == l.opacity
            &&& d[sig + 9] == l.clipping
            &&& d[sig + 10] == l.flags
            &&& writing::holds(d, sig + 12, writing::put32(extra.len() as int))
            &&& writing::holds(d, sig + 16, extra)
            &&& sig + 16 + extra.len() == pos + l.written(psb).len()
            &&& sig + 16 + extra.len() <= d.len()
            &&& pos <= sig
            &&& 0 <= pos
        }),
{
    reveal(WrittenLayer::written);
    let n = l.channels.len() as int;
    let list = written_list(l.channels, psb);
    let extra = l.written_extra(psb);
    let values = l.written_values();
    let sized = writing::put32(extra.len() as int) + extra;
    let valued = values + sized;
    let blended = l.blend + valued;
    let marked = mark() + blended;
    let listed = list + marked;
    writing::held_pieces(d, pos, written_rect(l.rect), writing::put16(n) + listed);
    written_rect_is_read(d, pos, l.rect);
    writing::held_pieces(d, pos + 16, writing::put16(n), listed);
    writing::written16_is_read(d, pos + 16, n);
    writing::held_pieces(d, pos + 18, list, marked);
    written_list_is_read(d, pos + 18, l.channels, psb);
    let sig = pos + 18 + list.len();
    writing::held_pieces(d, sig, mark(), blended);
    writing::held_pieces(d, sig + 4, l.blend, valued);
    writing::held_pieces(d, sig + 8, values, sized);
    writing::held_bytes(d, sig + 8, values);
    assert(d[sig + 8 + 0] == values[0] && d[sig + 8 + 1] == values[1] && d[sig + 8 + 2]
        == values[2]);
    writing::held_pieces(d, sig + 12, writing::put32(extra.len() as int), extra);
}

/// A layer record is read as it was written, in every field. Its visibility depends on bit 1 of the
/// flags alone.
pub proof fn written_records_are_read(d: Seq<u8>, pos: int, l: WrittenLayer, psb: bool)
    requires
        writing::holds(d, pos, l.written(psb)),
        l.fits(psb),
        d.len() <= u64::MAX,
    ensures
        layers::record_at(d, pos, psb) == Ok::<
            (layers::LayerView, Seq<(i16, u64)>, int),
            ParseError,
        >((l.read(), l.channels, pos + l.written(psb).len())),
{
    reveal(WrittenLayer::fits);
    held_record(d, pos, l, psb);
    let sig = pos + 18 + l.channels.len() * (2 + reader::len_size(psb));
    let extra = l.written_extra(psb);
    held_extra(d, sig + 16, l, psb);
    let blocks = written_blocks(l.blocks, psb);
    let end = sig + 16 + extra.len();
    written_blocks_are_read(d, end - blocks.len(), l.blocks, psb, l.plain());
    reveal(WrittenLayer::read);
    record_with_blocks(d, pos, l, psb, said(l.plain(), l.blocks));
}

/// A layer record whose blocks say `x` is read as it was written.
proof fn record_with_blocks(
    d: Seq<u8>,
    pos: int,
    l: WrittenLayer,
    psb: bool,
    x: layers::ExtraView,
)
    requires
        writing::holds(d, pos, l.written(psb)),
        l.fits(psb),
        d.len() <= u64::MAX,
        ({
            let end = pos + l.written(psb).len();
            layers::with_blocks(
                d,
                end - written_blocks(l.blocks, psb).len(),
                end,
                psb,
                l.plain(),
            ) == Ok::<layers::ExtraView, ParseError>(x)
        }),
    ensures
        layers::record_at(d, pos, psb) == Ok::<
            (layers::LayerView, Seq<(i16, u64)>, int),
            ParseError,
        >((l.read_with(x), l.channels, pos + l.written(psb).len())),
{
    reveal(layers::record_at);
    reveal(WrittenLayer::fits);
    held_record(d, pos, l, psb);
    let sig = pos + 18 + l.channels.len() * (2 + reader::len_size(psb));
    let extra = l.written_extra(psb);
    assert(mark() =~= bytes::key4('8', 'B', 'I', 'M'));
    writing::written32_is_read(d, sig + 12, extra.len() as int);
    written_extra_is_read(d, sig, l, psb, x);
    if let Some(m) = l.mask {
        written_masks_are_read(d, sig + 20, m);
    }
    bits_of(l.flags);
}

/// A layer that is read as it was written is not damaged.
pub proof fn written_layers_are_whole(l: WrittenLayer)
    ensures
        !l.read().damaged,
{
    reveal(WrittenLayer::read);
}

/// The visibility of a layer is one bit of its flags: where only other bits of the byte differ, the
/// records that are read are the same, and the layer is visible if and only if that bit is clear.
pub proof fn visibility_is_one_bit(
    d: Seq<u8>,
    e: Seq<u8>,
    pos: int,
    l: WrittenLayer,
    flags: u8,
    psb: bool,
)
    requires
        l.fits(psb),
        writing::holds(d, pos, l.written(psb)),
        writing::holds(e, pos, (WrittenLayer { flags, ..l }).written(psb)),
        d.len() <= u64::MAX,
        e.len() <= u64::MAX,
    ensures
        layers::record_at(e, pos, psb) matches Ok((record, list, next)) && (record.visible <==> flags
            as int / 2 % 2 == 0),
        flags as int / 2 % 2 == l.flags as int / 2 % 2 ==> layers::record_at(e, pos, psb)
            == layers::record_at(d, pos, psb),
{
    let m = WrittenLayer { flags, ..l };
    reveal(WrittenLayer::read);
    reveal(WrittenLayer::fits);
    assert(m.written_extra(psb) == l.written_extra(psb));
    written_records_are_read(d, pos, l, psb);
    written_records_are_read(e, pos, m, psb);
    assert(m.plain() == l.plain());
    same_length(l, flags, psb);
}

proof fn same_length(l: WrittenLayer, flags: u8, psb: bool)
    ensures
        (WrittenLayer { flags, ..l }).written(psb).len() == l.written(psb).len(),
{
    reveal(WrittenLayer::written);
    assert((WrittenLayer { flags, ..l }).written_extra(psb) == l.written_extra(psb));
}

/// A block is read, and then what follows it.
proof fn one_block_is_read(
    d: Seq<u8>,
    pos: int,
    b: Block,
    end: int,
    psb: bool,
    x: layers::ExtraView,
)
    requires
        writing::holds(d, pos, b.written(psb)),
        b.fits(psb),
        pos + b.written(psb).len() <= end,
    ensures
        layers::with_blocks(d, pos, end, psb, x) == layers::with_blocks(
            d,
            pos + b.written(psb).len(),
            end,
            psb,
            layers::with_block(x, b.key, b.content.len() as int, b.content),
        ),
{
    written_block_is_found(d, pos, b, psb);
    let wide = psb && reader::wide_key(b.key);
    let start = pos + 8 + reader::len_size(wide);
    let n = b.content.len() as int;
    writing::held_bytes(d, start, b.content);
    assert(layers::block_at(d, start, n, end) == b.content);
}

/// Bytes after the blocks that do not begin as a block, or that are too few for one, end them.
pub proof fn other_bytes_end_the_blocks(
    d: Seq<u8>,
    pos: int,
    blocks: Seq<Block>,
    end: int,
    psb: bool,
    x: layers::ExtraView,
)
    requires
        writing::holds(d, pos, written_blocks(blocks, psb)),
        forall|i: int| 0 <= i < blocks.len() ==> (#[trigger] blocks[i]).fits(psb),
        pos + written_blocks(blocks, psb).len() <= end,
        ({
            let at = pos + written_blocks(blocks, psb).len();
            end < at + 12 || (at + 4 <= d.len() && d[at] != 56)
        }),
    ensures
        layers::with_blocks(d, pos, end, psb, x) == Ok::<layers::ExtraView, ParseError>(
            said(x, blocks),
        ),
    decreases blocks.len(),
{
    writing::held_bytes(d, pos, written_blocks(blocks, psb));
    if blocks.len() > 0 {
        let b = blocks[0];
        let rest = blocks.skip(1);
        writing::held_pieces(d, pos, b.written(psb), written_blocks(rest, psb));
        written_block_is_found(d, pos, b, psb);
        assert forall|i: int| 0 <= i < rest.len() implies (#[trigger] rest[i]).fits(psb) by {
            assert(rest[i] == blocks[i + 1]);
        }
        one_block_is_read(d, pos, b, end, psb, x);
        let n = b.content.len() as int;
        other_bytes_end_the_blocks(
            d,
            pos + b.written(psb).len(),
            rest,
            end,
            psb,
            layers::with_block(x, b.key, n, b.content),
        );
    } else if end >= pos + 12 {
        assert(d.subrange(pos, pos + 4)[0] == d[pos]);
        assert(bytes::key4('8', 'B', 'I', 'M')[0] == 56);
        assert(bytes::key4('8', 'B', '6', '4')[0] == 56);
    }
}

/// A record that does not have the letters `8BIM` behind its list of channels is broken.
pub proof fn records_need_their_mark(
    d: Seq<u8>,
    pos: int,
    r: Rect,
    list: Seq<(i16, u64)>,
    letters: Seq<u8>,
    psb: bool,
)
    requires
        writing::holds(
            d,
            pos,
            written_rect(r) + (writing::put16(list.len() as int) + (written_list(list, psb)
                + letters)),
        ),
        list_fits(list, psb),
        letters.len() == 4,
        letters != mark(),
    ensures
        layers::record_at(d, pos, psb) == Err::<
            (layers::LayerView, Seq<(i16, u64)>, int),
            ParseError,
        >(ParseError::BrokenLayers),
{
    reveal(layers::record_at);
    let n = list.len() as int;
    let end = written_list(list, psb) + letters;
    writing::held_pieces(d, pos, written_rect(r), writing::put16(n) + end);
    written_rect_is_read(d, pos, r);
    writing::held_pieces(d, pos + 16, writing::put16(n), end);
    writing::written16_is_read(d, pos + 16, n);
    writing::held_pieces(d, pos + 18, written_list(list, psb), letters);
    written_list_is_read(d, pos + 18, list, psb);
    assert(mark() =~= bytes::key4('8', 'B', 'I', 'M'));
}

/// A block that is longer than what is left of its record says what its bytes up to there say.
pub proof fn overlong_blocks_are_cut(
    d: Seq<u8>,
    pos: int,
    b: Block,
    end: int,
    psb: bool,
    x: layers::ExtraView,
)
    requires
        writing::holds(d, pos, b.written(psb)),
        b.fits(psb),
        pos + 12 <= end,
        pos + b.written(psb).len() - b.content.len() <= end <= pos + b.written(psb).len(),
    ensures
        layers::with_blocks(d, pos, end, psb, x) == Ok::<layers::ExtraView, ParseError>(
            layers::with_block(
                x,
                b.key,
                b.content.len() as int,
                b.content.take(end - (pos + b.written(psb).len() - b.content.len())),
            ),
        ),
{
    written_block_is_found(d, pos, b, psb);
    let wide = psb && reader::wide_key(b.key);
    let start = pos + 8 + reader::len_size(wide);
    let n = b.content.len() as int;
    writing::held_bytes(d, start, b.content);
    let part = b.content.take(end - start);
    assert(layers::block_at(d, start, n, end) =~= part);
    let next = layers::with_block(x, b.key, n, part);
    assert(layers::with_blocks(d, start + n, end, psb, next) == Ok::<layers::ExtraView, ParseError>(
        next,
    ));
}

/// A record is read only if the file holds it up to the end of its name.
pub proof fn read_records_are_whole(d: Seq<u8>, pos: int, psb: bool)
    requires
        pos >= 0,
    ensures
        layers::record_at(d, pos, psb) is Ok ==> {
            let entry = if psb {
                10int
            } else {
                6
            };
            let mark = pos + 18 + bytes::be16(d, pos + 16) * entry;
            let ranges = mark + 20 + bytes::be32(d, mark + 16);
            let name = ranges + 4 + bytes::be32(d, ranges);
            name + 1 + d[name] <= d.len()
        },
{
    reveal(layers::record_at);
    reveal(layers::record_rest_at);
    let entry = if psb {
        10int
    } else {
        6
    };
    assert(2 + reader::len_size(psb) == entry);
    let n = bytes::be16(d, pos + 16);
    assert(n * (2 + reader::len_size(psb)) == n * entry);
    let mark = pos + 18 + n * entry;
    if layers::record_at(d, pos, psb) is Ok {
        let end = bytes::sat(mark + 16, bytes::be32(d, mark + 12));
        assert(layers::record_rest_at(d, mark, end, psb) is Ok);
    }
}

} // verus!
