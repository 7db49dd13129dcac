//! What was written is read back: the laws of the parts of a file and of the file itself.
use vstd::prelude::*;

use crate::bytes;
use crate::channel;
use crate::error::ParseError;
use crate::layer_info;
use crate::layers;
use crate::merged;
use crate::packbits;
use crate::psd;
use crate::readback;
use crate::reader;
use crate::warning;
use crate::writing;
use crate::written_files;
use crate::written_files::StoredLayer;
use crate::written_layers;
use crate::written_layers::Block;

verus! {

/// The fixed part at the beginning of a file, as a writer has it.
pub struct WrittenHeader {
    /// 1 for the format itself, 2 for the large one.
    pub version: int,
    pub reserved: Seq<u8>,
    pub channels: int,
    pub height: int,
    pub width: int,
    pub depth: int,
    pub mode: int,
}

impl WrittenHeader {
    /// Whether every field fits into its bytes.
    pub open spec fn fits(self) -> bool {
        &&& 0 <= self.version < 65536
        &&& self.reserved.len() == 6
        &&& 0 <= self.channels < 65536
        &&& 0 <= self.height < 4294967296
        &&& 0 <= self.width < 4294967296
        &&& 0 <= self.depth < 65536
        &&& 0 <= self.mode < 65536
    }

    /// The bytes: the letters `8BPS` and the fields.
    #[verifier::opaque]
    pub open spec fn written(self) -> Seq<u8> {
        seq![56u8, 66u8, 80u8, 83u8] + (writing::put16(self.version) + (self.reserved
            + (writing::put16(self.channels) + (writing::put32(self.height) + (writing::put32(
            self.width,
        ) + (writing::put16(self.depth) + writing::put16(self.mode)))))))
    }
}

/// A header is read as it was written. A version, a depth or a color mode that is not supported is
/// the error, in this order.
pub proof fn written_headers_are_read(d: Seq<u8>, h: WrittenHeader)
    requires
        writing::holds(d, 0, h.written()),
        h.fits(),
    ensures
        h.written().len() == 26,
        psd::header_at(d) == if h.version != 1 && h.version != 2 {
            Err(ParseError::Version(h.version as u16))
        } else if h.depth != 8 {
            Err(ParseError::Depth(h.depth as u16))
        } else if h.mode != 1 && h.mode != 3 && h.mode != 4 {
            Err(ParseError::ColorMode(h.mode as u16))
        } else {
            Ok(
                psd::Header {
                    psb: h.version == 2,
                    channels: h.channels as u16,
                    width: h.width as u32,
                    height: h.height as u32,
                    color_mode: h.mode as u16,
                },
            )
        },
{
    reveal(WrittenHeader::written);
    let letters = seq![56u8, 66u8, 80u8, 83u8];
    let ends = writing::put16(h.depth) + writing::put16(h.mode);
    let wide = writing::put32(h.width) + ends;
    let sized = writing::put32(h.height) + wide;
    let counted = writing::put16(h.channels) + sized;
    let after = h.reserved + counted;
    writing::held_pieces(d, 0, letters, writing::put16(h.version) + after);
    writing::held_pieces(d, 4, writing::put16(h.version), after);
    writing::held_pieces(d, 6, h.reserved, counted);
    writing::held_pieces(d, 12, writing::put16(h.channels), sized);
    writing::held_pieces(d, 14, writing::put32(h.height), wide);
    writing::held_pieces(d, 18, writing::put32(h.width), ends);
    writing::held_pieces(d, 22, writing::put16(h.depth), writing::put16(h.mode));
    writing::written16_is_read(d, 4, h.version);
    writing::written16_is_read(d, 12, h.channels);
    writing::written32_is_read(d, 14, h.height);
    writing::written32_is_read(d, 18, h.width);
    writing::written16_is_read(d, 22, h.depth);
    writing::written16_is_read(d, 24, h.mode);
    assert(letters =~= bytes::key4('8', 'B', 'P', 'S'));
}

/// A file that does not begin with the letters `8BPS` is refused, and so is one that ends before
/// them.
pub proof fn other_files_are_refused(d: Seq<u8>)
    ensures
        d.len() < 4 ==> psd::psd_at(d) == Err::<psd::PsdView, ParseError>(ParseError::Eof),
        d.len() >= 4 && (d[0] != 56 || d[1] != 66 || d[2] != 80 || d[3] != 83) ==> psd::psd_at(d)
            == Err::<psd::PsdView, ParseError>(ParseError::NotPsd),
        4 <= d.len() < 26 && psd::psd_at(d) is Ok ==> false,
{
    if d.len() >= 4 && d.subrange(0, 4) == bytes::key4('8', 'B', 'P', 'S') {
        assert(d.subrange(0, 4)[0] == d[0] && d.subrange(0, 4)[1] == d[1] && d.subrange(0, 4)[2]
            == d[2] && d.subrange(0, 4)[3] == d[3]);
        assert(bytes::key4('8', 'B', 'P', 'S') =~= seq![56u8, 66u8, 80u8, 83u8]);
    }
}

/// A file as a writer has it. The layer section may be empty.
pub struct WrittenFile {
    pub header: WrittenHeader,
    pub colors: Seq<u8>,
    pub resources: Seq<u8>,
    pub section: Seq<u8>,
    /// All that follows the layer section.
    pub image: Seq<u8>,
}

impl WrittenFile {
    /// Whether the file is of the large format.
    pub open spec fn psb(self) -> bool {
        self.header.version == 2
    }

    /// Whether the file can be written, and is one that is supported.
    pub open spec fn fits(self) -> bool {
        &&& self.header.fits()
        &&& self.header.version == 1 || self.header.version == 2
        &&& self.header.depth == 8
        &&& self.header.mode == 1 || self.header.mode == 3 || self.header.mode == 4
        &&& self.colors.len() <= u32::MAX
        &&& self.resources.len() <= u32::MAX
        &&& self.psb() || self.section.len() <= u32::MAX
        &&& self.written().len() <= u64::MAX
    }

    /// The bytes of the file.
    #[verifier::opaque]
    pub open spec fn written(self) -> Seq<u8> {
        self.header.written() + (writing::put32(self.colors.len() as int) + (self.colors
            + (writing::put32(self.resources.len() as int) + (self.resources + (writing::put_len(
            self.section.len() as int,
            self.psb(),
        ) + (self.section + self.image))))))
    }

    /// Where the layer section begins.
    pub open spec fn section_start(self) -> int {
        26 + 4 + self.colors.len() + 4 + self.resources.len() + if self.psb() {
            8int
        } else {
            4
        }
    }

    /// What is read of the file, with these layers and channels of the merged image.
    pub open spec fn read(
        self,
        found: Seq<layers::LayerView>,
        image: Seq<channel::ChannelView>,
    ) -> psd::PsdView {
        psd::PsdView {
            width: self.header.width as u32,
            height: self.header.height as u32,
            color_mode: self.header.mode as u16,
            layers: found,
            merged: image,
            warnings: seq![],
        }
    }
}

/// The layer section of a file is found where it was written, and the image after it.
proof fn sections_are_found(f: WrittenFile)
    requires
        f.fits(),
    ensures
        ({
            let d = f.written();
            let h = psd::Header {
                psb: f.psb(),
                channels: f.header.channels as u16,
                width: f.header.width as u32,
                height: f.header.height as u32,
                color_mode: f.header.mode as u16,
            };
            &&& psd::header_at(d) == Ok::<psd::Header, ParseError>(h)
            &&& psd::section_at(d, f.psb()) == Ok::<(int, int), ParseError>(
                (f.section_start(), f.section.len() as int),
            )
            &&& writing::holds(d, f.section_start(), f.section)
            &&& writing::holds(d, f.section_start() + f.section.len(), f.image)
            &&& f.section_start() + f.section.len() + f.image.len() == d.len()
        }),
{
    let d = f.written();
    let n = f.section.len() as int;
    held_file(f);
    written_headers_are_read(d, f.header);
    writing::written32_is_read(d, 26, f.colors.len() as int);
    let at = 30int + f.colors.len();
    writing::written32_is_read(d, at, f.resources.len() as int);
    writing::written_len_is_read(d, at + 4 + f.resources.len(), n, f.psb());
}

/// The parts of a file are held one after another.
proof fn held_file(f: WrittenFile)
    requires
        f.fits(),
    ensures
        ({
            let d = f.written();
            let at = 30int + f.colors.len();
            let size_at = at + 4 + f.resources.len();
            &&& writing::holds(d, 0, f.header.written())
            &&& writing::holds(d, 26, writing::put32(f.colors.len() as int))
            &&& writing::holds(d, at, writing::put32(f.resources.len() as int))
            &&& writing::holds(d, size_at, writing::put_len(f.section.len() as int, f.psb()))
            &&& writing::holds(d, f.section_start(), f.section)
            &&& writing::holds(d, f.section_start() + f.section.len(), f.image)
            &&& f.section_start() + f.section.len() + f.image.len() == d.len()
        }),
{
    reveal(WrittenFile::written);
    let d = f.written();
    let n = f.section.len() as int;
    let end = f.section + f.image;
    let sized = writing::put_len(n, f.psb()) + end;
    let resources = f.resources + sized;
    let counted = writing::put32(f.resources.len() as int) + resources;
    let colors = f.colors + counted;
    let first = writing::put32(f.colors.len() as int) + colors;
    assert(d == f.header.written() + first);
    writing::bytes_held(d, 0, d);
    writing::held_pieces(d, 0, f.header.written(), first);
    header_size(f.header);
    writing::held_pieces(d, 26, writing::put32(f.colors.len() as int), colors);
    writing::held_pieces(d, 30, f.colors, counted);
    let at = 30int + f.colors.len();
    writing::held_pieces(d, at, writing::put32(f.resources.len() as int), resources);
    writing::held_pieces(d, at + 4, f.resources, sized);
    let size_at = at + 4 + f.resources.len();
    writing::held_pieces(d, size_at, writing::put_len(n, f.psb()), end);
    writing::held_pieces(d, f.section_start(), f.section, f.image);
}

proof fn header_size(h: WrittenHeader)
    requires
        h.fits(),
    ensures
        h.written().len() == 26,
{
    reveal(WrittenHeader::written);
}

/// A layer section as a writer has it: the layers, perhaps with some bytes after them, and the rest.
pub open spec fn layer_section(
    ls: Seq<StoredLayer>,
    negative: bool,
    gap: Seq<u8>,
    rest: Seq<u8>,
    psb: bool,
) -> Seq<u8> {
    let info = written_files::written_info(ls, negative, psb) + gap;
    writing::put_len(info.len() as int, psb) + (info + rest)
}

/// Files with layers are read back: the size and the color mode, every layer with all that was
/// written of it and its channels where they lie, no merged image, and no warning.
pub proof fn written_files_are_read(
    f: WrittenFile,
    ls: Seq<StoredLayer>,
    negative: bool,
    gap: Seq<u8>,
    rest: Seq<u8>,
)
    requires
        f.fits(),
        f.section == layer_section(ls, negative, gap, rest, f.psb()),
        0 < ls.len() < 32768,
        written_files::all_fit(ls, f.psb()),
    ensures
        ({
            let from = f.section_start() + (if f.psb() {
                8int
            } else {
                4
            }) + 2 + written_files::written_records(ls, f.psb()).len();
            psd::psd_at(f.written()) == Ok::<psd::PsdView, ParseError>(
                f.read(written_files::layers_read(f.written(), ls, from, f.psb()), seq![]),
            )
        }),
{
    sections_are_found(f);
    let d = f.written();
    let psb = f.psb();
    let start = f.section_start();
    let base = written_files::written_info(ls, negative, psb);
    let info = base + gap;
    writing::held_bytes(d, start, f.section);
    writing::held_pieces(d, start, writing::put_len(info.len() as int, psb), info + rest);
    writing::written_len_is_read(d, start, info.len() as int, psb);
    let at = start + reader::len_size(psb);
    writing::held_pieces(d, at, info, rest);
    writing::held_pieces(d, at, base, gap);
    written_files::written_layers_are_read(d, at, ls, negative, psb);
    let from = at + 2 + written_files::written_records(ls, psb).len();
    let found = written_files::layers_read(d, ls, from, psb);
    assert(base.len() >= 2);
    no_damage_is_told(d, ls, from, psb, ls.len() as int);
    assert(found.take(ls.len() as int) =~= found);
    assert(psd::damage_warnings(found, 0) =~= seq![]);
    let section = psd::SectionView {
        layers: found,
        warnings: seq![],
        end: start + f.section.len(),
    };
    assert(psd::section_content(d, start, f.section.len() as int, psb) == Ok::<
        psd::SectionView,
        ParseError,
    >(section));
}

/// Layers that were read as they were written are not damaged.
proof fn no_damage_is_told(d: Seq<u8>, ls: Seq<StoredLayer>, from: int, psb: bool, n: int)
    requires
        0 <= n <= ls.len(),
    ensures
        psd::damaged_count(written_files::layers_read(d, ls, from, psb).take(n)) == 0,
    decreases n,
{
    let found = written_files::layers_read(d, ls, from, psb);
    if n > 0 {
        no_damage_is_told(d, ls, from, psb, n - 1);
        assert(found.take(n).drop_last() =~= found.take(n - 1));
        assert(found.take(n).last() == found[n - 1]);
        written_layers::written_layers_are_whole(ls[n - 1].layer);
    }
}

/// A file whose layer section is empty gives the merged image that follows, and nothing else.
pub proof fn files_without_layers_are_read(f: WrittenFile)
    requires
        f.fits(),
        f.section.len() == 0,
    ensures
        psd::psd_at(f.written()) == Ok::<psd::PsdView, ParseError>(
            f.read(
                seq![],
                merged::merged_at(
                    f.written(),
                    f.section_start(),
                    f.header.channels,
                    f.header.width,
                    f.header.height,
                    f.psb(),
                ),
            ),
        ),
{
    sections_are_found(f);
    writing::held_bytes(f.written(), f.section_start(), f.section);
}

/// Flat images are read back: row `i` of channel `c` of a file without layers whose image is packed
/// is read as what its bytes stand for.
pub proof fn flat_images_are_read_back(
    f: WrittenFile,
    rows: Seq<Seq<u8>>,
    tail: Seq<u8>,
    c: int,
    i: int,
)
    requires
        f.fits(),
        f.section.len() == 0,
        f.image == readback::packed_content(rows, f.psb()) + tail,
        writing::rows_fit_table(rows, f.psb()),
        rows.len() == f.header.channels * f.header.height,
        writing::total(rows) <= u32::MAX,
        0 <= c < f.header.channels,
        0 <= i < f.header.height,
    ensures
        psd::psd_at(f.written()) matches Ok(file) && file.merged.len() == f.header.channels
            && channel::row_pixels(file.merged[c], f.written(), i) == packbits::fit(
            packbits::expand(rows[c * f.header.height + i]),
            f.header.width as nat,
        ),
{
    files_without_layers_are_read(f);
    sections_are_found(f);
    writing::held_pieces(
        f.written(),
        f.section_start(),
        readback::packed_content(rows, f.psb()),
        tail,
    );
    readback::packed_merged_images_are_read_back(
        f.written(),
        f.section_start(),
        rows,
        f.header.channels,
        f.header.width,
        f.header.height,
        f.psb(),
        c,
        i,
    );
}

/// The same of an image that stores its pixels as they are.
pub proof fn flat_plain_images_are_read_back(
    f: WrittenFile,
    pixels: Seq<u8>,
    tail: Seq<u8>,
    c: int,
    i: int,
    x: int,
)
    requires
        f.fits(),
        f.section.len() == 0,
        f.image == readback::plain_content(pixels) + tail,
        pixels.len() == f.header.channels * (f.header.width * f.header.height),
        0 <= c < f.header.channels,
        0 <= i < f.header.height,
        0 <= x < f.header.width,
    ensures
        psd::psd_at(f.written()) matches Ok(file) && file.merged.len() == f.header.channels
            && channel::row_pixels(file.merged[c], f.written(), i).len() == f.header.width
            && channel::row_pixels(file.merged[c], f.written(), i)[x] == pixels[(c * f.header.height
            + i) * f.header.width + x],
{
    files_without_layers_are_read(f);
    sections_are_found(f);
    writing::held_pieces(f.written(), f.section_start(), readback::plain_content(pixels), tail);
    readback::plain_merged_images_are_read_back(
        f.written(),
        f.section_start(),
        pixels,
        f.header.channels,
        f.header.width,
        f.header.height,
        f.psb(),
        c,
        i,
        x,
    );
}

/// Pixels are read back from a file with layers: row `row` of a packed channel of a layer is read
/// as what its bytes stand for.
pub proof fn layer_rows_are_read_back(
    f: WrittenFile,
    ls: Seq<StoredLayer>,
    negative: bool,
    gap: Seq<u8>,
    rest: Seq<u8>,
    i: int,
    j: int,
    rows: Seq<Seq<u8>>,
    row: int,
)
    requires
        f.fits(),
        f.section == layer_section(ls, negative, gap, rest, f.psb()),
        0 < ls.len() < 32768,
        written_files::all_fit(ls, f.psb()),
        0 <= i < ls.len(),
        0 <= j < ls[i].contents.len(),
        ls[i].contents[j] == readback::packed_content(rows, f.psb()),
        ls[i].contents[j].len() <= u32::MAX,
        rows.len() == ls[i].height(j),
        writing::rows_fit_table(rows, f.psb()),
        0 < ls[i].width(j),
        0 <= row < rows.len(),
    ensures
        psd::psd_at(f.written()) matches Ok(file) && {
            let c = file.layers[i].channels[j];
            &&& c.0 == ls[i].layer.channels[j].0
            &&& channel::row_pixels(c.1, f.written(), row) == packbits::fit(
                packbits::expand(rows[row]),
                ls[i].width(j) as nat,
            )
        },
{
    written_files_are_read(f, ls, negative, gap, rest);
    sections_are_found(f);
    let d = f.written();
    let psb = f.psb();
    let start = f.section_start();
    let base = written_files::written_info(ls, negative, psb);
    let info = base + gap;
    let at = start + reader::len_size(psb);
    writing::held_bytes(d, start, f.section);
    writing::held_pieces(d, start, writing::put_len(info.len() as int, psb), info + rest);
    writing::written_len_is_read(d, start, info.len() as int, psb);
    writing::held_pieces(d, at, info, rest);
    writing::held_pieces(d, at, base, gap);
    written_files::held_data(d, at, ls, negative, psb, i, j);
    let from = at + 2 + written_files::written_records(ls, psb).len();
    assert(ls[i].fits(psb));
    readback::packed_channels_are_read_back(
        d,
        written_files::place(ls, i, j, from),
        rows,
        ls[i].width(j),
        psb,
        row,
    );
}

/// An additional block with the zeros that some writers put after it.
pub struct Spaced {
    pub block: Block,
    pub zeros: int,
}

/// The bytes of the blocks with their zeros.
pub open spec fn written_spaced(s: Seq<Spaced>, psb: bool) -> Seq<u8>
    decreases s.len(),
{
    if s.len() == 0 {
        seq![]
    } else {
        s[0].block.written(psb) + (written_layers::zeros(s[0].zeros) + written_spaced(
            s.skip(1),
            psb,
        ))
    }
}

/// Up to three zeros before a block are skipped.
proof fn zeros_are_skipped(d: Seq<u8>, pos: int, n: int, tries: int)
    requires
        writing::holds(d, pos, written_layers::zeros(n)),
        0 <= n <= tries,
        psd::block_begins(d, pos + n),
    ensures
        psd::after_padding(d, pos, tries) == pos + n,
    decreases n,
{
    if n > 0 {
        let zeros = written_layers::zeros(n);
        writing::held_bytes(d, pos, zeros);
        assert(d[pos + 0] == zeros[0]);
        if psd::block_begins(d, pos) {
            assert(d.subrange(pos, pos + 4)[0] == 0);
            assert(bytes::key4('8', 'B', 'I', 'M')[0] == 56);
            assert(bytes::key4('8', 'B', '6', '4')[0] == 56);
        }
        assert(zeros =~= written_layers::zeros(1) + written_layers::zeros(n - 1));
        writing::held_pieces(d, pos, written_layers::zeros(1), written_layers::zeros(n - 1));
        zeros_are_skipped(d, pos + 1, n - 1, tries - 1);
    }
}

/// Layers in a later block are found behind blocks that hold none, also where these have up to
/// three zeros after them.
pub proof fn later_layers_are_found(
    d: Seq<u8>,
    pos: int,
    s: Seq<Spaced>,
    last: Block,
    end: int,
    psb: bool,
)
    requires
        writing::holds(d, pos, written_spaced(s, psb) + last.written(psb)),
        forall|i: int|
            0 <= i < s.len() ==> (#[trigger] s[i]).block.fits(psb) && 0 <= s[i].zeros <= 3
                && s[i].block.key != seq![76u8, 97u8, 121u8, 114u8],
        last.fits(psb),
        last.key == seq![76u8, 97u8, 121u8, 114u8],
        pos + written_spaced(s, psb).len() + last.written(psb).len() <= end,
        layer_info::layer_info_at(
            d,
            pos + written_spaced(s, psb).len() + (if psb {
                16int
            } else {
                12
            }),
            psb,
        ) matches Ok((found, shift, to)) && found.len() > 0,
    ensures
        psd::layers_in_blocks(d, pos, end, psb) == Ok::<Seq<layers::LayerView>, ParseError>(
            layer_info::layer_info_at(
                d,
                pos + written_spaced(s, psb).len() + (if psb {
                    16int
                } else {
                    12
                }),
                psb,
            )->Ok_0.0,
        ),
    decreases s.len(),
{
    writing::held_pieces(d, pos, written_spaced(s, psb), last.written(psb));
    assert(bytes::key4('L', 'a', 'y', 'r') =~= seq![76u8, 97u8, 121u8, 114u8]);
    assert(reader::wide_key(last.key));
    if s.len() == 0 {
        written_layers::written_block_is_found(d, pos, last, psb);
    } else {
        let b = s[0].block;
        let rest = s.skip(1);
        let gap = written_layers::zeros(s[0].zeros);
        let more = written_spaced(rest, psb);
        assert(s[0].block.fits(psb));
        writing::held_pieces(d, pos, b.written(psb), gap + more);
        written_layers::written_block_is_found(d, pos, b, psb);
        let after = pos + b.written(psb).len();
        writing::held_pieces(d, after, gap, more);
        let next = after + s[0].zeros;
        assert(gap.len() == s[0].zeros);
        assert(written_spaced(s, psb).len() == b.written(psb).len() + s[0].zeros + more.len());
        readback::pieces_held(d, next, more, last.written(psb));
        assert forall|i: int| 0 <= i < rest.len() implies (#[trigger] rest[i]).block.fits(psb) && 0
            <= rest[i].zeros <= 3 && rest[i].block.key != seq![76u8, 97u8, 121u8, 114u8] by {
            assert(rest[i] == s[i + 1]);
        }
        if rest.len() == 0 {
            assert(more =~= seq![]);
            written_layers::written_block_is_found(d, next, last, psb);
        } else {
            assert(rest[0].block.fits(psb));
            writing::held_pieces(
                d,
                next,
                rest[0].block.written(psb),
                written_layers::zeros(rest[0].zeros) + written_spaced(rest.skip(1), psb),
            );
            written_layers::written_block_is_found(d, next, rest[0].block, psb);
        }
        zeros_are_skipped(d, after, s[0].zeros, 3);
        later_layers_are_found(d, next, rest, last, end, psb);
    }
}

} // verus!
