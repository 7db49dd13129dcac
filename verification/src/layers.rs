//! The record of one layer.
use vstd::prelude::*;

use crate::bytes;
use crate::channel;
use crate::channel::Channel;
use crate::effects;
use crate::error::ParseError;
use crate::reader;
use crate::reader::Reader;
use crate::text;

verus! {

/// A rectangle of the canvas. The bottom and the right edge are outside of it.
#[derive(Clone, Copy, Debug)]
pub struct Rect {
    pub top: i32,
    pub left: i32,
    pub bottom: i32,
    pub right: i32,
}

impl Rect {
    /// The number of columns.
    pub open spec fn columns(self) -> int {
        if self.left < self.right {
            self.right - self.left
        } else {
            0
        }
    }

    /// The number of rows.
    pub open spec fn lines(self) -> int {
        if self.top < self.bottom {
            self.bottom - self.top
        } else {
            0
        }
    }

    /// The number of columns.
    pub fn width(&self) -> (r: usize)
        ensures
            r == self.columns(),
    {
        if self.left < self.right {
            (self.right as i64 - self.left as i64) as usize
        } else {
            0
        }
    }

    /// The number of rows.
    pub fn height(&self) -> (r: usize)
        ensures
            r == self.lines(),
    {
        if self.top < self.bottom {
            (self.bottom as i64 - self.top as i64) as usize
        } else {
            0
        }
    }
}

/// A mask of a layer.
#[derive(Clone, Copy, Debug)]
pub struct MaskInfo {
    pub rect: Rect,
    /// The value outside of the rectangle.
    pub default: u8,
    pub disabled: bool,
    pub invert: bool,
}

/// One layer, or one end of a group, as the file records it.
#[derive(Debug)]
pub struct LayerRecord {
    pub name: String,
    pub bounds: Rect,
    pub channels: Vec<(i16, Channel)>,
    pub blend: [u8; 4],
    pub opacity: u8,
    pub fill_opacity: u8,
    pub clipped: bool,
    pub visible: bool,
    /// 0 for a layer, 1 for an open folder, 2 for a closed one, 3 for the end of a folder.
    pub divider: u32,
    pub user_mask: Option<MaskInfo>,
    pub real_mask: Option<MaskInfo>,
    pub has_effects: bool,
    /// The kind of adjustment or fill layer.
    pub adjustment: Option<&'static str>,
    /// Whether channel data is lost.
    pub damaged: bool,
}

/// What a layer record says.
#[verifier::ext_equal]
pub struct LayerView {
    pub name: Seq<char>,
    pub bounds: Rect,
    pub channels: Seq<(i16, channel::ChannelView)>,
    pub blend: Seq<u8>,
    pub opacity: u8,
    pub fill_opacity: u8,
    pub clipped: bool,
    pub visible: bool,
    pub divider: u32,
    pub user_mask: Option<MaskInfo>,
    pub real_mask: Option<MaskInfo>,
    pub has_effects: bool,
    pub adjustment: Option<Seq<char>>,
    pub damaged: bool,
}

/// What a list of identified channels records.
pub open spec fn channel_views(s: Seq<(i16, Channel)>) -> Seq<(i16, channel::ChannelView)> {
    s.map_values(|c: (i16, Channel)| (c.0, c.1@))
}

/// The text of an optional name.
pub open spec fn text_of(s: Option<&'static str>) -> Option<Seq<char>> {
    match s {
        Some(t) => Some(t@),
        None => None,
    }
}

impl View for LayerRecord {
    type V = LayerView;

    open spec fn view(&self) -> LayerView {
        LayerView {
            name: self.name@,
            bounds: self.bounds,
            channels: channel_views(self.channels@),
            blend: self.blend@,
            opacity: self.opacity,
            fill_opacity: self.fill_opacity,
            clipped: self.clipped,
            visible: self.visible,
            divider: self.divider,
            user_mask: self.user_mask,
            real_mask: self.real_mask,
            has_effects: self.has_effects,
            adjustment: text_of(self.adjustment),
            damaged: self.damaged,
        }
    }
}

/// The rectangle at `at`.
pub open spec fn rect_at(d: Seq<u8>, at: int) -> Rect {
    Rect {
        top: bytes::be32_signed(d, at) as i32,
        left: bytes::be32_signed(d, at + 4) as i32,
        bottom: bytes::be32_signed(d, at + 8) as i32,
        right: bytes::be32_signed(d, at + 12) as i32,
    }
}

/// The mask with its rectangle, value and flags at the given places.
pub open spec fn mask_at(d: Seq<u8>, rect: int, value: int, flags: int) -> MaskInfo {
    MaskInfo {
        rect: rect_at(d, rect),
        default: d[value],
        disabled: d[flags] & 2 != 0,
        invert: d[flags] & 4 != 0,
    }
}

/// The identifiers and lengths of `n` channels at `at`.
pub open spec fn channel_list_at(d: Seq<u8>, at: int, n: int, psb: bool) -> Seq<(i16, u64)> {
    Seq::new(
        n as nat,
        |i: int|
            {
                let p = at + i * (2 + reader::len_size(psb));
                (bytes::be16_signed(d, p) as i16, reader::len_at(d, p + 2, psb) as u64)
            },
    )
}

/// What the additional blocks of a layer say.
#[verifier::ext_equal]
pub struct ExtraView {
    pub name: Seq<char>,
    pub blend: Seq<u8>,
    pub fill_opacity: u8,
    pub divider: u32,
    pub has_effects: bool,
    pub adjustment: Option<Seq<char>>,
}

/// The content of a block of `len` bytes at `start`, inside the blocks that end at `end`.
pub open spec fn block_at(d: Seq<u8>, start: int, len: int, end: int) -> Seq<u8> {
    let stop = channel::min2(start + len, end);
    if start <= stop && stop <= d.len() {
        d.subrange(start, stop)
    } else {
        seq![]
    }
}

/// The UTF-16 units of a name block: as many as it announces and holds.
pub open spec fn name_units(b: Seq<u8>) -> Seq<u16> {
    Seq::new(
        channel::min2(bytes::be32(b, 0), (b.len() - 4) / 2) as nat,
        |i: int| bytes::be16(b, 4 + 2 * i) as u16,
    )
}

/// `x` with what the block `b` of declared length `len` says.
pub open spec fn with_block(x: ExtraView, key: Seq<u8>, len: int, b: Seq<u8>) -> ExtraView {
    if key == bytes::key4('l', 'u', 'n', 'i') {
        if bytes::within(b, 0, 4) {
            ExtraView { name: text::without_nul(text::utf16_text(name_units(b))), ..x }
        } else {
            x
        }
    } else if key == bytes::key4('l', 's', 'c', 't') || key == bytes::key4('l', 's', 'd', 'k') {
        ExtraView {
            divider: if bytes::within(b, 0, 4) {
                bytes::be32(b, 0) as u32
            } else {
                0
            },
            blend: if len >= 12 && bytes::within(b, 8, 4) {
                b.subrange(8, 12)
            } else {
                x.blend
            },
            ..x
        }
    } else if key == bytes::key4('i', 'O', 'p', 'a') {
        ExtraView {
            fill_opacity: if b.len() > 0 {
                b[0]
            } else {
                255
            },
            ..x
        }
    } else if key == bytes::key4('l', 'r', 'F', 'X') {
        ExtraView { has_effects: x.has_effects || effects::legacy_effect_on(b), ..x }
    } else if key == bytes::key4('l', 'f', 'x', '2') || key == bytes::key4('l', 'm', 'f', 'x') {
        ExtraView { has_effects: x.has_effects || effects::descriptor_effect_on(b), ..x }
    } else {
        match effects::adjustment_text(key) {
            Some(name) => ExtraView { adjustment: Some(name), ..x },
            None => x,
        }
    }
}

/// Whether an additional block begins with these four bytes.
pub open spec fn block_signature(s: Seq<u8>) -> bool {
    s == bytes::key4('8', 'B', 'I', 'M') || s == bytes::key4('8', 'B', '6', '4')
}

/// `x` with what the blocks between `pos` and `end` say. What does not begin as a block ends them.
pub open spec fn with_blocks(d: Seq<u8>, pos: int, end: int, psb: bool, x: ExtraView) -> Result<
    ExtraView,
    ParseError,
>
    decreases
            (if pos < d.len() {
                d.len() - pos
            } else {
                0
            }),
{
    if pos + 12 > end {
        Ok(x)
    } else if !bytes::within(d, pos, 4) {
        Err(ParseError::Eof)
    } else if !block_signature(d.subrange(pos, pos + 4)) {
        Ok(x)
    } else if !bytes::within(d, pos, 8) {
        Err(ParseError::Eof)
    } else {
        let key = d.subrange(pos + 4, pos + 8);
        let wide = psb && reader::wide_key(key);
        if !bytes::within(d, pos + 8, reader::len_size(wide)) {
            Err(ParseError::Eof)
        } else {
            let len = reader::len_at(d, pos + 8, wide);
            let start = pos + 8 + reader::len_size(wide);
            let next = with_block(x, key, len, block_at(d, start, len, end));
            with_blocks(d, start + len, end, psb, next)
        }
    }
}

/// The masks of a layer whose mask data of `len` bytes begins at `at`.
pub open spec fn masks_at(d: Seq<u8>, at: int, len: int) -> (Option<MaskInfo>, Option<MaskInfo>) {
    (
        if len >= 18 {
            Some(mask_at(d, at, at + 16, at + 17))
        } else {
            None
        },
        if len >= 36 {
            Some(mask_at(d, at + 20, at + 19, at + 18))
        } else {
            None
        },
    )
}

/// How many bytes of mask data are read of `len` that are announced.
pub open spec fn mask_size(len: int) -> int {
    if len >= 36 {
        36
    } else if len >= 18 {
        18
    } else {
        0
    }
}

/// How many bytes fill up a name of `n` bytes and its length to a multiple of four.
pub open spec fn name_padding(n: int) -> int {
    (4 - (n + 1) % 4) % 4
}

/// The record of a layer at `pos`, the list of its channels, and where the record ends.
#[verifier::opaque]
pub open spec fn record_at(d: Seq<u8>, pos: int, psb: bool) -> Result<
    (LayerView, Seq<(i16, u64)>, int),
    ParseError,
> {
    let n = bytes::be16(d, pos + 16);
    let sig = pos + 18 + n * (2 + reader::len_size(psb));
    if !bytes::within(d, pos, 18) || !bytes::within(d, sig, 4) {
        Err(ParseError::Eof)
    } else if d.subrange(sig, sig + 4) != bytes::key4('8', 'B', 'I', 'M') {
        Err(ParseError::BrokenLayers)
    } else if !bytes::within(d, sig, 20) {
        Err(ParseError::Eof)
    } else {
        let end = bytes::sat(sig + 16, bytes::be32(d, sig + 12));
        match record_rest_at(d, sig, end, psb) {
            Err(e) => Err(e),
            Ok(x) => Ok(
                (
                    LayerView {
                        name: x.name,
                        bounds: rect_at(d, pos),
                        channels: seq![],
                        blend: x.blend,
                        opacity: d[sig + 8],
                        fill_opacity: x.fill_opacity,
                        clipped: d[sig + 9] != 0,
                        visible: d[sig + 10] & 2 == 0,
                        divider: x.divider,
                        user_mask: masks_at(d, sig + 20, bytes::be32(d, sig + 16)).0,
                        real_mask: masks_at(d, sig + 20, bytes::be32(d, sig + 16)).1,
                        has_effects: x.has_effects,
                        adjustment: x.adjustment,
                        damaged: false,
                    },
                    channel_list_at(d, pos + 18, n, psb),
                    end,
                ),
            ),
        }
    }
}

/// The name, and what the additional blocks up to `end` say, of the record whose signature lies
/// at `sig`.
#[verifier::opaque]
pub open spec fn record_rest_at(d: Seq<u8>, sig: int, end: int, psb: bool) -> Result<
    ExtraView,
    ParseError,
> {
    let mask = sig + 20;
    let mask_len = bytes::be32(d, sig + 16);
    let ranges = mask + mask_len;
    let name = ranges + 4 + bytes::be32(d, ranges);
    if !bytes::within(d, mask, mask_size(mask_len)) || !bytes::within(d, ranges, 4)
        || !bytes::within(d, name, 1) || !bytes::within(d, name + 1, d[name] as int) {
        Err(ParseError::Eof)
    } else {
        with_blocks(
            d,
            name + 1 + d[name] + name_padding(d[name] as int),
            end,
            psb,
            ExtraView {
                name: text::lossy_text(d.subrange(name + 1, name + 1 + d[name])),
                blend: d.subrange(sig + 4, sig + 8),
                fill_opacity: 255,
                divider: 0,
                has_effects: false,
                adjustment: None,
            },
        )
    }
}

/// The blocks of files that are the same from `from` on say the same.
proof fn same_blocks(
    d: Seq<u8>,
    e: Seq<u8>,
    from: int,
    pos: int,
    end: int,
    psb: bool,
    x: ExtraView,
)
    requires
        bytes::same_from(d, e, from),
        0 <= from <= pos,
    ensures
        with_blocks(d, pos, end, psb, x) == with_blocks(e, pos, end, psb, x),
    decreases
            (if pos < d.len() {
                d.len() - pos
            } else {
                0
            }),
{
    if pos + 12 <= end && bytes::within(d, pos, 4) {
        bytes::same_part(d, e, from, pos, pos + 4);
        if block_signature(d.subrange(pos, pos + 4)) && bytes::within(d, pos, 8) {
            bytes::same_part(d, e, from, pos + 4, pos + 8);
            let key = d.subrange(pos + 4, pos + 8);
            let wide = psb && reader::wide_key(key);
            if bytes::within(d, pos + 8, reader::len_size(wide)) {
                let len = reader::len_at(d, pos + 8, wide);
                assert(len == reader::len_at(e, pos + 8, wide));
                let start = pos + 8 + reader::len_size(wide);
                let stop = channel::min2(start + len, end);
                if start <= stop && stop <= d.len() {
                    bytes::same_part(d, e, from, start, stop);
                }
                let next = with_block(x, key, len, block_at(d, start, len, end));
                same_blocks(d, e, from, start + len, end, psb, next);
            }
        }
    }
}

/// The rest of a record is the same in files that are the same from `from` on.
proof fn same_rest(d: Seq<u8>, e: Seq<u8>, from: int, sig: int, end: int, psb: bool)
    requires
        bytes::same_from(d, e, from),
        0 <= from <= sig,
        bytes::within(d, sig, 20),
    ensures
        record_rest_at(d, sig, end, psb) == record_rest_at(e, sig, end, psb),
        record_rest_at(d, sig, end, psb) is Ok ==> bytes::within(
            d,
            sig + 20,
            mask_size(bytes::be32(d, sig + 16)),
        ),
{
    reveal(record_rest_at);
    let mask_len = bytes::be32(d, sig + 16);
    assert(mask_len == bytes::be32(e, sig + 16));
    let ranges = sig + 20 + mask_len;
    if bytes::within(d, ranges, 4) {
        assert(bytes::be32(d, ranges) == bytes::be32(e, ranges));
        let name = ranges + 4 + bytes::be32(d, ranges);
        if bytes::within(d, name, 1) {
            assert(d[name] == e[name]);
            if bytes::within(d, name + 1, d[name] as int) {
                bytes::same_part(d, e, from, name + 1, name + 1 + d[name]);
                bytes::same_part(d, e, from, sig + 4, sig + 8);
                same_blocks(
                    d,
                    e,
                    from,
                    name + 1 + d[name] + name_padding(d[name] as int),
                    end,
                    psb,
                    ExtraView {
                        name: text::lossy_text(d.subrange(name + 1, name + 1 + d[name])),
                        blend: d.subrange(sig + 4, sig + 8),
                        fill_opacity: 255,
                        divider: 0,
                        has_effects: false,
                        adjustment: None,
                    },
                );
            }
        }
    }
}

/// A record depends on nothing before it: it is the same in files that are the same from `from`
/// on. The next one does not begin before it.
pub proof fn same_record(d: Seq<u8>, e: Seq<u8>, from: int, pos: int, psb: bool)
    requires
        bytes::same_from(d, e, from),
        0 <= from <= pos,
        d.len() <= u64::MAX,
    ensures
        record_at(d, pos, psb) == record_at(e, pos, psb),
        record_at(d, pos, psb) matches Ok((record, list, next)) ==> from <= next,
{
    reveal(record_at);
    if bytes::within(d, pos, 18) {
        let n = bytes::be16(d, pos + 16);
        assert(n == bytes::be16(e, pos + 16));
        let step = 2 + reader::len_size(psb);
        let sig = pos + 18 + n * step;
        assert(n * step >= 0) by (nonlinear_arith)
            requires
                n >= 0,
                step >= 0,
        ;
        if bytes::within(d, sig, 4) {
            bytes::same_part(d, e, from, sig, sig + 4);
            assert forall|i: int| 0 <= i < n implies #[trigger] channel_list_at(
                d,
                pos + 18,
                n,
                psb,
            )[i] == channel_list_at(e, pos + 18, n, psb)[i] by {
                assert(0 <= i * step && i * step + step <= n * step) by (nonlinear_arith)
                    requires
                        0 <= i < n,
                        step >= 0,
                ;
                let p = pos + 18 + i * step;
                assert(bytes::be16(d, p) == bytes::be16(e, p));
                assert(reader::len_at(d, p + 2, psb) == reader::len_at(e, p + 2, psb));
            }
            assert(channel_list_at(d, pos + 18, n, psb) =~= channel_list_at(
                e,
                pos + 18,
                n,
                psb,
            ));
            if bytes::within(d, sig, 20) {
                assert(bytes::be32(d, sig + 12) == bytes::be32(e, sig + 12));
                let end = bytes::sat(sig + 16, bytes::be32(d, sig + 12));
                same_rest(d, e, from, sig, end, psb);
                let mask_len = bytes::be32(d, sig + 16);
                if bytes::within(d, sig + 20, mask_size(mask_len)) {
                    assert(masks_at(d, sig + 20, mask_len) == masks_at(e, sig + 20, mask_len));
                }
            }
        }
    }
}

/// Reads a rectangle.
pub fn read_rect(r: &mut Reader<'_>) -> (v: Result<Rect, ParseError>)
    ensures
        old(r).takes(16, *final(r), v),
        v matches Ok(rect) ==> rect == rect_at(old(r).data@, old(r).pos as int),
{
    let top: i32 = r.i32()?;
    let left: i32 = r.i32()?;
    let bottom: i32 = r.i32()?;
    let right: i32 = r.i32()?;
    Ok(Rect { top, left, bottom, right })
}

/// Reads the identifiers and lengths of `n` channels.
fn read_channel_list(r: &mut Reader<'_>, n: u16) -> (v: Result<Vec<(i16, u64)>, ParseError>)
    requires
        old(r).pos <= old(r).data@.len(),
    ensures
        old(r).takes(n * (2 + reader::len_size(old(r).psb)), *final(r), v),
        v matches Ok(list) ==> list@ == channel_list_at(
            old(r).data@,
            old(r).pos as int,
            n as int,
            old(r).psb,
        ),
{
    let ghost d = r.data@;
    let ghost at = r.pos as int;
    let ghost psb = r.psb;
    let ghost step = 2 + reader::len_size(psb);
    let mut list: Vec<(i16, u64)> = Vec::new();
    let mut i: u16 = 0;
    while i < n
        invariant
            i <= n,
            d == old(r).data@,
            at == old(r).pos,
            psb == old(r).psb,
            step == 2 + reader::len_size(psb),
            r.data == old(r).data,
            r.psb == psb,
            r.pos == at + i * step,
            r.pos <= d.len(),
            list@.len() == i,
            list@ =~= channel_list_at(d, at, i as int, psb),
        decreases n - i,
    {
        proof {
            assert((i + 1) * step <= n * step) by (nonlinear_arith)
                requires
                    i + 1 <= n,
                    step > 0,
            ;
            assert((i + 1) * step == i * step + step) by (nonlinear_arith);
        }
        let id: i16 = r.i16()?;
        let len: u64 = r.len(r.psb)?;
        list.push((id, len));
        i = i + 1;
    }
    Ok(list)
}

/// What the additional blocks of a layer say.
struct Extra {
    name: String,
    blend: [u8; 4],
    fill_opacity: u8,
    divider: u32,
    has_effects: bool,
    adjustment: Option<&'static str>,
}

impl View for Extra {
    type V = ExtraView;

    closed spec fn view(&self) -> ExtraView {
        ExtraView {
            name: self.name@,
            blend: self.blend@,
            fill_opacity: self.fill_opacity,
            divider: self.divider,
            has_effects: self.has_effects,
            adjustment: text_of(self.adjustment),
        }
    }
}

/// The UTF-16 units of a name block.
fn read_units(block: &[u8], n: u32) -> (v: Vec<u16>)
    requires
        bytes::within(block@, 0, 4),
        n == bytes::be32(block@, 0),
    ensures
        v@ == name_units(block@),
{
    assert(block@.len() == block.len());
    let mut v: Vec<u16> = Vec::new();
    let mut b = Reader { data: block, pos: 4, psb: false };
    let mut i: u32 = 0;
    while i < n
        invariant
            i <= n,
            b.data@ == block@,
            block@.len() == block.len(),
            b.pos == 4 + 2 * i,
            b.pos <= block@.len(),
            v@.len() == i,
            forall|k: int| 0 <= k < i ==> v@[k] == bytes::be16(block@, 4 + 2 * k),
            n == bytes::be32(block@, 0),
        decreases n - i,
    {
        match b.u16() {
            Ok(u) => v.push(u),
            Err(_) => {
                assert(v@ =~= name_units(block@));
                return v;
            },
        }
        i = i + 1;
    }
    assert(v@ =~= name_units(block@));
    v
}

impl Extra {
    /// Takes in what the block `b` of declared length `len` says.
    fn apply(&mut self, key: &[u8; 4], len: u64, b: &[u8])
        ensures
            final(self)@ == with_block(old(self)@, key@, len as int, b@),
    {
        let size: usize = b.len();
        if bytes::is_key(key, 'l', 'u', 'n', 'i') {
            match bytes::read32(b, 0) {
                Some(n) => {
                    let units = read_units(b, n);
                    self.name =
                    text::trim_nul(text::decode_utf16_lossy(units.as_slice()).as_str());
                },
                None => {},
            }
        } else if bytes::is_key(key, 'l', 's', 'c', 't') || bytes::is_key(key, 'l', 's', 'd', 'k') {
            self.divider = match bytes::read32(b, 0) {
                Some(v) => v,
                None => 0,
            };
            if len >= 12 {
                let mut tail = Reader { data: b, pos: 8, psb: false };
                match tail.key() {
                    Ok(k) => {
                        self.blend = k;
                    },
                    Err(_) => {},
                }
            }
        } else if bytes::is_key(key, 'i', 'O', 'p', 'a') {
            self.fill_opacity = if size > 0 { b[0] } else { 255 };
        } else if bytes::is_key(key, 'l', 'r', 'F', 'X') {
            let on = effects::legacy_effects_enabled(b);
            self.has_effects = self.has_effects || on;
        } else if bytes::is_key(key, 'l', 'f', 'x', '2') || bytes::is_key(key, 'l', 'm', 'f', 'x') {
            let on = effects::descriptor_effects_enabled(b);
            self.has_effects = self.has_effects || on;
        } else {
            match effects::adjustment_name(key) {
                Some(name) => {
                    self.adjustment = Some(name);
                },
                None => {},
            }
        }
    }
}

/// Whether an additional block begins with these four bytes.
pub fn is_block_signature(s: &[u8; 4]) -> (r: bool)
    ensures
        r == block_signature(s@),
{
    bytes::is_key(s, '8', 'B', 'I', 'M') || bytes::is_key(s, '8', 'B', '6', '4')
}

/// The content of a block of `len` bytes at `start`, inside the blocks that end at `end`.
fn block_content(data: &[u8], start: u64, len: u64, end: u64) -> (b: &[u8])
    requires
        start <= data@.len(),
    ensures
        b@ == block_at(data@, start as int, len as int, end as int),
{
    let size: usize = data.len();
    let stop: u64 = channel::least(start.saturating_add(len), end);
    let b = if start <= stop && stop <= size as u64 {
        vstd::slice::slice_subrange(data, start as usize, stop as usize)
    } else {
        vstd::slice::slice_subrange(data, 0, 0)
    };
    assert(b@ =~= block_at(data@, start as int, len as int, end as int));
    b
}

/// Reads the blocks up to `end`.
fn read_blocks(r: &mut Reader<'_>, end: u64, extra: Extra) -> (v: Result<Extra, ParseError>)
    ensures
        old(r).same_file(*final(r)),
        (match v {
            Ok(x) => Ok(x@),
            Err(e) => Err(e),
        }) == with_blocks(
            old(r).data@,
            old(r).pos as int,
            end as int,
            old(r).psb,
            extra@,
        ),
{
    let mut x = extra;
    assert(r.data@.len() == r.data.len());
    while end >= 12 && r.pos <= end - 12
        invariant
            old(r).same_file(*r),
            r.data@.len() == r.data.len(),
            with_blocks(old(r).data@, old(r).pos as int, end as int, old(r).psb, extra@)
                == with_blocks(r.data@, r.pos as int, end as int, r.psb, x@),
        decreases u64::MAX - r.pos,
    {
        let ghost pos = r.pos as int;
        let sig = r.key()?;
        if !is_block_signature(&sig) {
            return Ok(x);
        }
        let key = r.key()?;
        let len: u64 = r.block_len(&key)?;
        let start: u64 = r.pos;
        x.apply(&key, len, block_content(r.data, start, len, end));
        r.pos = start.saturating_add(len);
        proof {
            let wide = r.psb && reader::wide_key(key@);
            assert(r.data@.subrange(pos + 4, pos + 8) =~= key@);
            if start + len > u64::MAX {
                assert(with_blocks(r.data@, start + len, end as int, r.psb, x@) == Ok::<
                    ExtraView,
                    ParseError,
                >(x@));
            }
        }
    }
    Ok(x)
}

/// Reads the masks of a layer out of mask data of `len` bytes.
fn read_masks(r: &mut Reader<'_>, len: u32) -> (v: Result<
    (Option<MaskInfo>, Option<MaskInfo>),
    ParseError,
>)
    requires
        old(r).pos <= old(r).data@.len(),
    ensures
        old(r).takes(mask_size(len as int), *final(r), v),
        v matches Ok(m) ==> m == masks_at(old(r).data@, old(r).pos as int, len as int),
{
    let mut user: Option<MaskInfo> = None;
    let mut second: Option<MaskInfo> = None;
    if len >= 18 {
        let rect = read_rect(r)?;
        let default: u8 = r.u8()?;
        let flags: u8 = r.u8()?;
        user = Some(
            MaskInfo { rect, default, disabled: flags & 2 != 0, invert: flags & 4 != 0 },
        );
        if len >= 36 {
            let flags: u8 = r.u8()?;
            let default: u8 = r.u8()?;
            let rect = read_rect(r)?;
            second = Some(
                MaskInfo { rect, default, disabled: flags & 2 != 0, invert: flags & 4 != 0 },
            );
        }
    }
    Ok((user, second))
}

/// Reads the rest of a record, from the length of its mask data on.
fn read_record_rest(r: &mut Reader<'_>, blend: [u8; 4], end: u64) -> (v: Result<
    (Extra, (Option<MaskInfo>, Option<MaskInfo>)),
    ParseError,
>)
    requires
        16 <= old(r).pos <= old(r).data@.len(),
        blend@ == old(r).data@.subrange(old(r).pos - 12, old(r).pos - 8),
    ensures
        old(r).same_file(*final(r)),
        ({
            let d = old(r).data@;
            let sig = old(r).pos - 16;
            if !bytes::within(d, sig, 20) {
                v == Err::<(Extra, (Option<MaskInfo>, Option<MaskInfo>)), ParseError>(
                    ParseError::Eof,
                )
            } else {
                match v {
                    Ok((x, masks)) => record_rest_at(d, sig, end as int, old(r).psb) == Ok::<
                        ExtraView,
                        ParseError,
                    >(x@) && masks == masks_at(d, sig + 20, bytes::be32(d, sig + 16)),
                    Err(e) => record_rest_at(d, sig, end as int, old(r).psb) == Err::<
                        ExtraView,
                        ParseError,
                    >(e),
                }
            }
        }),
{
    proof {
        reveal(record_rest_at);
    }
    let ghost d = r.data@;
    let ghost sig = r.pos - 16;
    assert(r.data@.len() == r.data.len());
    let mask_len: u32 = r.u32()?;
    let mask_end: u64 = r.pos.saturating_add(mask_len as u64);
    let masks = read_masks(r, mask_len)?;
    r.pos = mask_end;
    let ranges_len: u32 = r.u32()?;
    let _ranges = r.bytes(ranges_len as u64)?;
    let ghost name_at = r.pos as int;
    let name_len: u8 = r.u8()?;
    let name = text::decode_utf8_lossy(r.bytes(name_len as u64)?);
    let padding: u64 = (4 - (name_len as u64 + 1) % 4) % 4;
    r.pos = r.pos.saturating_add(padding);
    let extra = Extra {
        name,
        blend,
        fill_opacity: 255,
        divider: 0,
        has_effects: false,
        adjustment: None,
    };
    proof {
        let blocks = name_at + 1 + name_len + padding;
        assert(name_at == sig + 20 + mask_len + 4 + ranges_len);
        assert(padding == name_padding(name_len as int));
        if blocks > u64::MAX {
            let done = Ok::<ExtraView, ParseError>(extra@);
            assert(with_blocks(d, blocks, end as int, r.psb, extra@) == done);
            assert(with_blocks(d, r.pos as int, end as int, r.psb, extra@) == done);
        }
    }
    let x = read_blocks(r, end, extra)?;
    Ok((x, masks))
}

/// Reads one layer record and the list of its channels.
#[verifier::rlimit(30)]
pub fn read_record(r: &mut Reader<'_>) -> (v: Result<(LayerRecord, Vec<(i16, u64)>), ParseError>)
    ensures
        old(r).same_file(*final(r)),
        (match v {
            Ok((record, list)) => Ok((record@, list@, final(r).pos as int)),
            Err(e) => Err(e),
        }) == record_at(old(r).data@, old(r).pos as int, old(r).psb),
{
    let ghost pos = r.pos as int;
    assert(r.data@.len() == r.data.len());
    proof {
        reveal(record_at);
    }
    let bounds = read_rect(r)?;
    let n: u16 = r.u16()?;
    let list = read_channel_list(r, n)?;
    let ghost sig = r.pos as int;
    let mark = r.key()?;
    if !bytes::is_key(&mark, '8', 'B', 'I', 'M') {
        return Err(ParseError::BrokenLayers);
    }
    let blend = r.key()?;
    let opacity: u8 = r.u8()?;
    let clipping: u8 = r.u8()?;
    let flags: u8 = r.u8()?;
    let _filler: u8 = r.u8()?;
    let extra_len: u32 = r.u32()?;
    let end: u64 = r.pos.saturating_add(extra_len as u64);
    let (x, masks) = read_record_rest(r, blend, end)?;
    r.pos = end;
    let channels: Vec<(i16, Channel)> = Vec::new();
    assert(channel_views(channels@) =~= seq![]);
    let record = LayerRecord {
        name: x.name,
        bounds,
        channels,
        blend: x.blend,
        opacity,
        fill_opacity: x.fill_opacity,
        clipped: clipping != 0,
        visible: flags & 2 == 0,
        divider: x.divider,
        user_mask: masks.0,
        real_mask: masks.1,
        has_effects: x.has_effects,
        adjustment: x.adjustment,
        damaged: false,
    };
    Ok((record, list))
}

} // verus!
