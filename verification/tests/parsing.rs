use psd_viewer::channel::Compression;
use psd_viewer::psd::{parse, read_psd, Psd};
use psd_viewer::error::ParseError;
use psd_viewer::locate::{locate_channels, Slot};
use psd_viewer::warning::Warning;

fn be16(v: u16) -> Vec<u8> {
    v.to_be_bytes().to_vec()
}

fn be32(v: u32) -> Vec<u8> {
    v.to_be_bytes().to_vec()
}

fn header(version: u16, channels: u16, height: u32, width: u32, depth: u16, mode: u16) -> Vec<u8> {
    let mut f = b"8BPS".to_vec();
    f.extend(be16(version));
    f.extend([0; 6]);
    f.extend(be16(channels));
    f.extend(be32(height));
    f.extend(be32(width));
    f.extend(be16(depth));
    f.extend(be16(mode));
    f
}

/// A length as the format has it.
fn len_field(n: usize, psb: bool) -> Vec<u8> {
    if psb {
        (n as u64).to_be_bytes().to_vec()
    } else {
        be32(n as u32)
    }
}

struct Layer {
    rect: [i32; 4],
    channels: Vec<(i16, Vec<u8>)>,
    blend: [u8; 4],
    opacity: u8,
    clipping: u8,
    flags: u8,
    mask: Vec<u8>,
    name: Vec<u8>,
    blocks: Vec<u8>,
}

fn layer(name: &str, rect: [i32; 4], channels: Vec<(i16, Vec<u8>)>) -> Layer {
    Layer {
        rect,
        channels,
        blend: *b"norm",
        opacity: 255,
        clipping: 0,
        flags: 0,
        mask: Vec::new(),
        name: name.as_bytes().to_vec(),
        blocks: Vec::new(),
    }
}

fn block(key: &[u8; 4], content: &[u8]) -> Vec<u8> {
    let mut b = b"8BIM".to_vec();
    b.extend(key);
    b.extend(be32(content.len() as u32));
    b.extend(content);
    b
}

fn divider(kind: u32) -> Vec<u8> {
    block(b"lsct", &be32(kind))
}

fn raw(pixels: &[u8]) -> Vec<u8> {
    let mut c = be16(0);
    c.extend(pixels);
    c
}

/// A packed channel, one literal run for each row.
fn packed(rows: &[&[u8]]) -> Vec<u8> {
    let mut c = be16(1);
    for r in rows {
        c.extend(be16(r.len() as u16 + 1));
    }
    for r in rows {
        c.push(r.len() as u8 - 1);
        c.extend(*r);
    }
    c
}

fn layer_info(layers: &[Layer], psb: bool) -> Vec<u8> {
    let mut info = be16(layers.len() as u16);
    for l in layers {
        for v in l.rect {
            info.extend(v.to_be_bytes());
        }
        info.extend(be16(l.channels.len() as u16));
        for (id, data) in &l.channels {
            info.extend(id.to_be_bytes());
            info.extend(len_field(data.len(), psb));
        }
        info.extend(b"8BIM");
        info.extend(l.blend);
        info.extend([l.opacity, l.clipping, l.flags, 0]);
        let mut extra = be32(l.mask.len() as u32);
        extra.extend(&l.mask);
        extra.extend(be32(0));
        extra.push(l.name.len() as u8);
        extra.extend(&l.name);
        while extra.len() % 4 != (8 + l.mask.len()) % 4 {
            extra.push(0);
        }
        extra.extend(&l.blocks);
        info.extend(be32(extra.len() as u32));
        info.extend(extra);
    }
    for l in layers {
        for (_, data) in &l.channels {
            info.extend(data);
        }
    }
    info
}

fn file(layers: &[Layer], psb: bool, after: &[u8]) -> Vec<u8> {
    let mut f = header(if psb { 2 } else { 1 }, 3, 4, 4, 8, 3);
    f.extend(be32(0));
    f.extend(be32(0));
    let info = layer_info(layers, psb);
    let mut section = len_field(info.len(), psb);
    section.extend(info);
    f.extend(len_field(section.len(), psb));
    f.extend(section);
    f.extend(after);
    f
}

fn no_layers(after: &[u8]) -> Vec<u8> {
    let mut f = header(1, 3, 2, 3, 8, 3);
    f.extend(be32(0));
    f.extend(be32(0));
    f.extend(be32(0));
    f.extend(after);
    f
}

fn message(f: &[u8]) -> String {
    match parse(f) {
        Ok(_) => panic!("the file was read"),
        Err(e) => e,
    }
}

fn row(psd: &Psd, data: &[u8], layer: usize, channel: usize, row: usize) -> Vec<u8> {
    let c = &psd.layers[layer].channels[channel].1;
    let mut out = vec![9; c.width];
    c.read_row(data, row, &mut out);
    out
}

#[test]
fn a_short_file_ends_early() {
    assert_eq!(message(b"8BP"), "ファイルが途中で終わっています");
    assert_eq!(message(b"8BPS\0"), "ファイルが途中で終わっています");
    assert_eq!(message(&header(1, 3, 1, 1, 8, 3)), "ファイルが途中で終わっています");
}

#[test]
fn another_signature_is_no_psd() {
    assert_eq!(message(b"8BPX\0\x01"), "PSD ファイルではありません");
}

#[test]
fn versions_depths_and_modes_are_checked() {
    assert_eq!(message(b"8BPS\0\x03"), "未対応のバージョンです (3)");
    assert_eq!(message(&header(1, 3, 1, 1, 16, 3)), "8bit 以外は未対応です (16bit)");
    assert_eq!(message(&header(1, 3, 1, 1, 8, 9)), "未対応のカラーモードです (9)");
    // The depth is looked at first.
    assert_eq!(message(&header(1, 3, 1, 1, 32, 9)), "8bit 以外は未対応です (32bit)");
}

#[test]
fn a_layer_without_its_signature_is_broken() {
    let mut f = file(&[layer("a", [0, 0, 0, 0], vec![])], false, &[]);
    let at = f.windows(4).position(|w| w == b"8BIM").unwrap();
    f[at] = b'x';
    assert_eq!(message(&f), "レイヤー情報が壊れています");
    assert!(matches!(read_psd(&f), Err(ParseError::BrokenLayers)));
}

#[test]
fn a_file_with_one_layer_is_read() {
    let rect = [1, 2, 3, 4];
    let f = file(
        &[layer("base", rect, vec![(0, raw(&[1, 2, 3, 4])), (-1, packed(&[&[5, 6], &[7, 8]]))])],
        false,
        &[],
    );
    let psd = parse(&f).unwrap();
    assert_eq!((psd.width, psd.height, psd.color_mode), (4, 4, 3));
    assert_eq!(psd.layers.len(), 1);
    assert_eq!(psd.layers[0].name, "base");
    assert_eq!(psd.layers[0].bounds.width(), 2);
    assert_eq!(psd.layers[0].bounds.height(), 2);
    assert!(psd.layers[0].visible);
    assert!(!psd.layers[0].damaged);
    assert_eq!(row(&psd, &f, 0, 0, 0), [1, 2]);
    assert_eq!(row(&psd, &f, 0, 0, 1), [3, 4]);
    assert_eq!(row(&psd, &f, 0, 1, 0), [5, 6]);
    assert_eq!(row(&psd, &f, 0, 1, 1), [7, 8]);
    // A row that is not there is empty.
    assert_eq!(row(&psd, &f, 0, 0, 2), [0, 0]);
    assert_eq!(row(&psd, &f, 0, 1, 2), [0, 0]);
    assert!(psd.warnings.is_empty());
    assert!(psd.merged.is_empty());
}

#[test]
fn the_large_format_has_wide_lengths() {
    let mut data = be16(1);
    data.extend(be32(3));
    data.extend(be32(2));
    data.extend([1, 5, 6, 255, 7]);
    let f = file(&[layer("big", [0, 0, 2, 2], vec![(0, data)])], true, &[]);
    let psd = parse(&f).unwrap();
    assert_eq!(psd.layers[0].channels[0].1.compression, Compression::Rle);
    assert_eq!(row(&psd, &f, 0, 0, 0), [5, 6]);
    assert_eq!(row(&psd, &f, 0, 0, 1), [7, 7]);
}

#[test]
fn a_negative_count_counts_the_same() {
    let mut f = file(&[layer("n", [0, 0, 0, 0], vec![])], false, &[]);
    let at = 26 + 4 + 4 + 4 + 4;
    f[at..at + 2].copy_from_slice(&(-1i16).to_be_bytes());
    assert_eq!(parse(&f).unwrap().layers.len(), 1);
}

#[test]
fn names_are_decoded() {
    let mut l = layer("x", [0, 0, 0, 0], vec![]);
    let mut units = be32(3);
    for u in "日本\0".encode_utf16() {
        units.extend(be16(u));
    }
    l.blocks = block(b"luni", &units);
    let mut bad = layer("", [0, 0, 0, 0], vec![]);
    bad.name = vec![b'a', 0xff, b'b'];
    let mut lone = layer("y", [0, 0, 0, 0], vec![]);
    let mut units = be32(2);
    units.extend(be16(0xd800));
    units.extend(be16(0x41));
    lone.blocks = block(b"luni", &units);
    let psd = parse(&file(&[l, bad, lone], false, &[])).unwrap();
    assert_eq!(psd.layers[0].name, "日本");
    assert_eq!(psd.layers[1].name, "a\u{fffd}b");
    assert_eq!(psd.layers[2].name, "\u{fffd}A");
}

#[test]
fn blocks_set_what_they_name() {
    let mut l = layer("b", [0, 0, 0, 0], vec![]);
    let mut section = be32(1);
    section.extend(b"8BIM");
    section.extend(b"pass");
    l.blocks = block(b"lsct", &section);
    l.blocks.extend(block(b"iOpa", &[7, 0, 0, 0]));
    l.blocks.extend(block(b"curv", &[]));
    l.blocks.extend(block(b"lfx2", b"masterFXSwitchbool\x01"));
    l.flags = 2;
    l.clipping = 1;
    l.opacity = 100;
    let psd = parse(&file(&[l], false, &[])).unwrap();
    let l = &psd.layers[0];
    assert_eq!(l.divider, 1);
    assert_eq!(&l.blend, b"pass");
    assert_eq!((l.opacity, l.fill_opacity), (100, 7));
    assert_eq!(l.adjustment, Some("トーンカーブ"));
    assert!(l.has_effects);
    assert!(l.clipped);
    assert!(!l.visible);
}

#[test]
fn effects_that_are_off_do_not_count() {
    let mut off = layer("off", [0, 0, 0, 0], vec![]);
    off.blocks = block(b"lfx2", b"masterFXSwitchbool\x00");
    let mut unknown = layer("unknown", [0, 0, 0, 0], vec![]);
    unknown.blocks = block(b"lmfx", b"nothing");
    // An old drop shadow: the switch is the byte after 38 others.
    let mut shadow = be16(0);
    shadow.extend(be16(1));
    shadow.extend(b"8BIMdsdw");
    shadow.extend(be32(51));
    let mut body = vec![0; 51];
    body[38] = 1;
    let mut on = layer("on", [0, 0, 0, 0], vec![]);
    on.blocks = block(b"lrFX", &[shadow.clone(), body].concat());
    let mut dark = layer("dark", [0, 0, 0, 0], vec![]);
    dark.blocks = block(b"lrFX", &[shadow, vec![0; 51]].concat());
    let psd = parse(&file(&[off, unknown, on, dark], false, &[])).unwrap();
    let effects: Vec<bool> = psd.layers.iter().map(|l| l.has_effects).collect();
    assert_eq!(effects, [false, true, true, false]);
}

#[test]
fn masks_are_read() {
    let mut l = layer("m", [0, 0, 0, 0], vec![(-2, raw(&[1, 2])), (-3, raw(&[3]))]);
    for v in [1i32, 1, 2, 3] {
        l.mask.extend(v.to_be_bytes());
    }
    l.mask.extend([255, 4]);
    l.mask.extend([2, 9]);
    for v in [0i32, 0, 1, 1] {
        l.mask.extend(v.to_be_bytes());
    }
    let f = file(&[l], false, &[]);
    let psd = parse(&f).unwrap();
    let user = psd.layers[0].user_mask.unwrap();
    assert_eq!((user.rect.top, user.rect.left, user.rect.bottom, user.rect.right), (1, 1, 2, 3));
    assert_eq!((user.default, user.disabled, user.invert), (255, false, true));
    let real = psd.layers[0].real_mask.unwrap();
    assert_eq!((real.default, real.disabled, real.invert), (9, true, false));
    // Each mask channel is as wide as its own rectangle.
    assert_eq!(psd.layers[0].channels[0].1.width, 2);
    assert_eq!(psd.layers[0].channels[1].1.width, 1);
}

#[test]
fn channels_after_missing_data_are_found_again() {
    let rect = [0, 0, 2, 4];
    let pixels = |n: u8| packed(&[&[n, n + 1, n + 2, n + 3], &[n + 4, n + 5, n + 6, n + 7]]);
    let layers: Vec<Layer> =
        (0..7).map(|i| layer("l", rect, vec![(0, pixels(i * 10 + 100))])).collect();
    let mut f = file(&layers, false, &[]);
    let whole = parse(&f).unwrap();
    assert!(whole.layers.iter().all(|l| !l.damaged));
    assert!(whole.warnings.is_empty());
    // Cut the data of the second layer in two.
    let at = f.windows(4).position(|w| w == [110, 111, 112, 113]).unwrap();
    f.drain(at..at + 5);
    let psd = parse(&f).unwrap();
    let damaged: Vec<bool> = psd.layers.iter().map(|l| l.damaged).collect();
    assert_eq!(damaged, [false, true, false, false, false, false, false]);
    assert_eq!(row(&psd, &f, 2, 0, 0), [120, 121, 122, 123]);
    assert_eq!(row(&psd, &f, 6, 0, 1), [164, 165, 166, 167]);
    assert_eq!(psd.warnings.len(), 1);
    assert!(matches!(psd.warnings[0], Warning::Damaged { layers: 1, missing: 5 }));
    assert_eq!(
        psd.warnings[0].message("0.0"),
        "ファイルの一部が壊れています（約 0.0 MB のデータが欠落）。1 個のレイヤーを表示できません"
    );
}

#[test]
fn layers_in_a_later_block_are_found() {
    let mut f = header(1, 3, 4, 4, 8, 3);
    f.extend(be32(0));
    f.extend(be32(0));
    let info = layer_info(&[layer("late", [0, 0, 0, 0], vec![])], false);
    let mut section = be32(0); // no layer info
    section.extend(be32(2)); // the global mask
    section.extend([0, 0]);
    section.extend(block(b"Patt", &[1, 2, 3]));
    section.push(0); // padding
    section.extend(block(b"Layr", &info));
    f.extend(be32(section.len() as u32));
    f.extend(section);
    let psd = parse(&f).unwrap();
    assert_eq!(psd.layers.len(), 1);
    assert_eq!(psd.layers[0].name, "late");
}

#[test]
fn a_merged_image_is_read() {
    let mut plain = be16(0);
    plain.extend(1..=18);
    let f = no_layers(&plain);
    let psd = parse(&f).unwrap();
    assert_eq!(psd.merged.len(), 3);
    let mut out = [0; 3];
    psd.merged[1].read_row(&f, 1, &mut out);
    assert_eq!(out, [10, 11, 12]);
    psd.merged[2].read_row(&f, 1, &mut out);
    assert_eq!(out, [16, 17, 18]);

    let mut tight = be16(1);
    for _ in 0..6 {
        tight.extend(be16(2));
    }
    for v in 1..=6 {
        tight.extend([254, v]);
    }
    let f = no_layers(&tight);
    let psd = parse(&f).unwrap();
    psd.merged[1].read_row(&f, 0, &mut out);
    assert_eq!(out, [3, 3, 3]);
    psd.merged[2].read_row(&f, 1, &mut out);
    assert_eq!(out, [6, 6, 6]);
}

#[test]
fn a_merged_image_of_another_kind_is_left_out() {
    assert!(parse(&no_layers(&be16(2))).unwrap().merged.is_empty());
    assert!(parse(&no_layers(&[])).unwrap().merged.is_empty());
}

#[test]
fn a_table_past_the_end_gives_empty_rows() {
    let f = no_layers(&be16(1));
    let psd = parse(&f).unwrap();
    let mut out = [7; 3];
    psd.merged[0].read_row(&f, 0, &mut out);
    assert_eq!(out, [0, 0, 0]);
}

#[test]
fn unknown_compression_is_kept_as_such() {
    let f = file(&[layer("z", [0, 0, 1, 2], vec![(0, vec![0, 2, 9, 9])])], false, &[]);
    let psd = parse(&f).unwrap();
    assert_eq!(psd.layers[0].channels[0].1.compression, Compression::Unsupported(2));
    assert_eq!(row(&psd, &f, 0, 0, 0), [0, 0]);
}

#[test]
fn folder_ends_are_recorded() {
    let mut end = layer("</Layer group>", [0, 0, 0, 0], vec![]);
    end.blocks = divider(3);
    let psd = parse(&file(&[end], false, &[])).unwrap();
    assert_eq!(psd.layers[0].divider, 3);
}

#[test]
fn a_damaged_folder_end_is_not_told() {
    let mut end = layer("</Layer group>", [0, 0, 0, 0], vec![(0, vec![9, 9])]);
    end.blocks = divider(3);
    let psd = parse(&file(&[end], false, &[])).unwrap();
    assert!(psd.layers[0].damaged);
    assert!(psd.layers[0].channels.is_empty());
    assert!(psd.warnings.is_empty());
    let plain = layer("plain", [0, 0, 0, 0], vec![(0, vec![9, 9])]);
    let psd = parse(&file(&[plain], false, &[])).unwrap();
    assert!(matches!(psd.warnings[0], Warning::Damaged { layers: 1, missing: 0 }));
}

#[test]
fn rows_that_do_not_fit_are_given_up() {
    // The first layer has a sound header, but its second row is one byte short of its width. The
    // second layer does not begin where it should.
    let mut short = be16(1);
    short.extend(be16(3));
    short.extend(be16(2));
    short.extend([1, 5, 6, 0, 7]);
    let rect = [0, 0, 2, 2];
    let mut f = file(
        &[
            layer("short", rect, vec![(0, short)]),
            layer("next", rect, vec![(0, packed(&[&[1, 2], &[3, 4]]))]),
        ],
        false,
        &[],
    );
    assert!(parse(&f).unwrap().layers.iter().all(|l| !l.damaged));
    let at = f.windows(5).position(|w| w == [1, 5, 6, 0, 7]).unwrap();
    f.insert(at + 5, 200);
    let psd = parse(&f).unwrap();
    let damaged: Vec<bool> = psd.layers.iter().map(|l| l.damaged).collect();
    assert_eq!(damaged, [true, false]);
    assert_eq!(row(&psd, &f, 1, 0, 1), [3, 4]);
    assert!(matches!(psd.warnings[0], Warning::Damaged { layers: 1, missing: 1 }));
}

#[test]
fn names_of_several_bytes_are_kept() {
    let psd = parse(&file(&[layer("é日😀", [0, 0, 0, 0], vec![])], false, &[])).unwrap();
    assert_eq!(psd.layers[0].name, "é日😀");
}

#[test]
fn a_channel_is_found_as_far_away_as_can_be_counted() {
    let slot = |declared: u64| Slot { record: 0, id: 0, len: 6, width: 2, height: 1, declared };
    let data = [9, 9, 0, 1, 0, 2, 0xff, 7, 0, 1, 0, 2, 0xff, 7];
    assert_eq!(locate_channels(&data, &vec![slot(5)], false), (vec![Some(2)], -3));
    // Distances are signed 64-bit numbers.
    let far = 1u64 << 63;
    let shift = i64::MIN as i128;
    assert_eq!(locate_channels(&data, &vec![slot(far)], false), (vec![Some(2)], shift + 2));
    assert_eq!(locate_channels(&data, &vec![slot(far + 2)], false), (vec![Some(2)], shift));
    assert_eq!(locate_channels(&data, &vec![slot(far + 8)], false), (vec![Some(8)], shift));
    assert_eq!(locate_channels(&data, &vec![slot(far + 9)], false), (vec![None], 0));
    assert_eq!(locate_channels(&data, &vec![slot(u64::MAX)], false), (vec![None], 0));
}
