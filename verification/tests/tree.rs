use psd_viewer::blend::BlendMode;
use psd_viewer::bounds::Bounds;
use psd_viewer::channel::{Channel, Compression};
use psd_viewer::document::Document;
use psd_viewer::layers::{LayerRecord, MaskInfo, Rect};
use psd_viewer::node::{make_node, NodeKind};
use psd_viewer::psd::Psd;

fn record(name: &str, divider: u32) -> LayerRecord {
    LayerRecord {
        name: name.to_owned(),
        bounds: Rect { top: 0, left: 0, bottom: 0, right: 0 },
        channels: Vec::new(),
        blend: *b"norm",
        opacity: 255,
        fill_opacity: 255,
        clipped: false,
        visible: true,
        divider,
        user_mask: None,
        real_mask: None,
        has_effects: false,
        adjustment: None,
        damaged: false,
    }
}

fn at(name: &str, left: i32, top: i32, right: i32, bottom: i32) -> LayerRecord {
    LayerRecord { bounds: Rect { top, left, bottom, right }, ..record(name, 0) }
}

fn psd(layers: Vec<LayerRecord>) -> Psd {
    Psd { width: 100, height: 50, color_mode: 3, layers, merged: Vec::new(), warnings: Vec::new() }
}

fn channel(start: u64) -> Channel {
    Channel::from_parts(1, Compression::Raw, start, start + 1, Vec::new())
}

fn children(doc: &Document, id: usize) -> Vec<usize> {
    match &doc.nodes[id].kind {
        NodeKind::Group { children, .. } => children.clone(),
        _ => Vec::new(),
    }
}

const CANVAS: Bounds = Bounds { x0: 0, y0: 0, x1: 100, y1: 50 };

#[test]
fn groups_take_what_lies_between_their_ends() {
    let doc = Document::from_psd(psd(vec![
        at("bottom", 0, 0, 5, 5),
        record("", 3),
        at("a", 1, 2, 3, 4),
        record("", 3),
        at("b", 10, 20, 30, 40),
        record("inner", 2),
        record("outer", 1),
        record("top", 0),
    ]));
    let names: Vec<&str> = doc.nodes.iter().map(|n| n.name.as_str()).collect();
    assert_eq!(names, ["bottom", "a", "b", "inner", "outer", "top"]);
    assert_eq!(doc.root, [0, 4, 5]);
    assert_eq!(children(&doc, 4), [1, 3]);
    assert_eq!(children(&doc, 3), [2]);
    assert_eq!(doc.nodes[3].bounds, Bounds { x0: 10, y0: 20, x1: 30, y1: 40 });
    assert_eq!(doc.nodes[4].bounds, Bounds { x0: 1, y0: 2, x1: 30, y1: 40 });
    assert!(doc.warnings.is_empty());
    assert!(matches!(doc.nodes[4].kind, NodeKind::Group { expanded: true, pass_through: false, .. }));
    assert!(matches!(doc.nodes[3].kind, NodeKind::Group { expanded: false, .. }));
    // Every node has exactly one place.
    let mut placed = doc.root.clone();
    for id in 0..doc.nodes.len() {
        placed.extend(children(&doc, id));
    }
    placed.sort();
    assert_eq!(placed, [0, 1, 2, 3, 4, 5]);
}

#[test]
fn lists_keep_the_order_of_the_file() {
    let doc = Document::from_psd(psd(vec![
        at("a", 0, 0, 5, 5),
        record("", 3),
        at("b", 1, 2, 3, 4),
        at("c", 2, 1, 9, 3),
        record("group", 1),
        at("d", 0, 0, 1, 1),
    ]));
    assert_eq!(doc.root, [0, 3, 4]);
    assert_eq!(children(&doc, 3), [1, 2]);
    assert_eq!(doc.nodes[3].bounds, Bounds { x0: 1, y0: 1, x1: 9, y1: 4 });
}

#[test]
fn a_group_without_its_end_is_told() {
    let doc = Document::from_psd(psd(vec![record("a", 0), record("g", 1)]));
    assert_eq!(doc.root, [0, 1]);
    assert_eq!(children(&doc, 1), [0usize; 0]);
    assert_eq!(doc.warnings.len(), 1);
    assert_eq!(doc.warnings[0].message(""), "グループ「g」の終端が見つかりません");
}

#[test]
fn an_end_without_its_group_is_told() {
    let doc = Document::from_psd(psd(vec![record("a", 0), record("", 3), record("b", 0)]));
    assert_eq!(doc.root, [0, 1]);
    assert_eq!(doc.warnings.len(), 1);
    assert_eq!(doc.warnings[0].message(""), "閉じられていないグループがあります");
}

#[test]
fn a_file_without_layers_shows_its_merged_image() {
    let mut file = psd(Vec::new());
    file.merged = (0..5).map(channel).collect();
    let doc = Document::from_psd(file);
    assert_eq!(doc.root, [0]);
    assert_eq!(doc.nodes[0].name, "統合画像");
    assert_eq!(doc.nodes[0].bounds, CANVAS);
    assert_eq!(doc.nodes[0].opacity, 255);
    match &doc.nodes[0].kind {
        NodeKind::Layer(p) => {
            assert!(p.color.iter().all(|c| c.is_some()));
            assert!(p.alpha.is_none());
            assert_eq!(p.rect, CANVAS);
        }
        _ => panic!("no layer"),
    }
    assert_eq!(doc.warnings[0].message(""), "レイヤー情報がないため統合画像を表示しています");
    let empty = Document::from_psd(psd(Vec::new()));
    assert!(empty.nodes.is_empty() && empty.root.is_empty() && empty.warnings.is_empty());
}

#[test]
fn documents_come_from_bytes() {
    assert_eq!(Document::from_source(b"8BPX").err().unwrap(), "PSD ファイルではありません");
    let mut f = b"8BPS\0\x01\0\0\0\0\0\0\0\x01\0\0\0\x02\0\0\0\x03\0\x08\0\x01".to_vec();
    f.extend([0; 12]);
    f.extend([0, 0, 9, 9, 9, 9, 9, 9]);
    let doc = Document::from_source(&f).unwrap();
    assert_eq!((doc.width, doc.height, doc.color_mode), (3, 2, 1));
    assert_eq!(doc.nodes.len(), 1);
}

#[test]
fn visibility_comes_from_the_file() {
    let mut hidden = record("h", 0);
    hidden.visible = false;
    let doc = Document::from_psd(psd(vec![record("a", 0), hidden]));
    assert_eq!(doc.initial_visibility(), [true, false]);
}

#[test]
fn channels_are_sorted_out() {
    let mut rec = at("l", -5, 10, 20, 70);
    for (k, id) in [0i16, 2, -1, 3, 0, 9, -4].iter().enumerate() {
        rec.channels.push((*id, channel(100 * k as u64)));
    }
    rec.blend = *b"scrn";
    rec.opacity = 10;
    rec.fill_opacity = 20;
    rec.clipped = true;
    rec.has_effects = true;
    let node = make_node(rec, None, CANVAS);
    assert_eq!(node.blend, BlendMode::Screen);
    assert_eq!((node.opacity, node.fill_opacity), (10, 20));
    assert!(node.clipped && node.has_effects);
    assert_eq!(node.bounds, Bounds { x0: 0, y0: 10, x1: 20, y1: 50 });
    match &node.kind {
        NodeKind::Layer(p) => {
            assert_eq!(p.rect, Bounds { x0: -5, y0: 10, x1: 20, y1: 70 });
            // The last channel with an id is taken.
            let mut data = vec![0; 700];
            data[400] = 44;
            data[100] = 11;
            data[200] = 22;
            data[300] = 33;
            let value = |c: &Option<Channel>| {
                let mut out = [0];
                c.as_ref().unwrap().read_row(&data, 0, &mut out);
                out[0]
            };
            assert_eq!(value(&p.color[0]), 44);
            assert!(p.color[1].is_none());
            assert_eq!(value(&p.color[2]), 11);
            assert_eq!(value(&p.color[3]), 33);
            assert_eq!(value(&p.alpha), 22);
        }
        _ => panic!("no layer"),
    }
}

#[test]
fn reasons_are_given_in_their_order() {
    let reason = |rec: LayerRecord| match make_node(rec, None, CANVAS).kind {
        NodeKind::Unsupported { reason } => reason,
        _ => panic!("it can be drawn"),
    };
    let unknown = || (0, Channel::from_parts(1, Compression::Unsupported(2), 0, 0, Vec::new()));
    let mut rec = record("a", 0);
    rec.channels.push(unknown());
    assert_eq!(reason(rec), "圧縮方式 2 は未対応");
    let mut rec = record("a", 0);
    rec.channels.push(unknown());
    rec.adjustment = Some("白黒");
    assert_eq!(reason(rec), "白黒レイヤーは未対応");
    let mut rec = record("a", 0);
    rec.adjustment = Some("白黒");
    rec.damaged = true;
    let node = make_node(rec, None, CANVAS);
    assert_eq!(node.bounds, Bounds::default());
    assert!(matches!(node.kind, NodeKind::Unsupported { reason } if reason == "データが壊れています"));
}

#[test]
fn masks_that_are_off_are_left_out() {
    let info = |disabled| {
        Some(MaskInfo {
            rect: Rect { top: 1, left: 2, bottom: 3, right: 4 },
            default: 7,
            disabled,
            invert: true,
        })
    };
    let mut rec = record("m", 0);
    rec.user_mask = info(false);
    rec.real_mask = info(true);
    rec.channels = vec![
        (-3, channel(1)),
        (-2, channel(2)),
        (-2, Channel::from_parts(1, Compression::Unsupported(3), 0, 0, Vec::new())),
    ];
    let node = make_node(rec, Some((vec![], Bounds::default())), CANVAS);
    assert_eq!(node.masks.len(), 1);
    assert_eq!(node.masks[0].rect, Bounds { x0: 2, y0: 1, x1: 4, y1: 3 });
    assert_eq!((node.masks[0].default, node.masks[0].invert), (7, true));
    let mut rec = record("n", 0);
    rec.channels = vec![(-2, channel(2))];
    assert!(make_node(rec, None, CANVAS).masks.is_empty());
}

#[test]
fn pass_through_is_a_blend_key() {
    let mut rec = record("g", 2);
    rec.blend = *b"pass";
    let node = make_node(rec, Some((vec![3], CANVAS)), CANVAS);
    assert!(matches!(node.kind, NodeKind::Group { pass_through: true, expanded: false, .. }));
    assert_eq!(node.blend, BlendMode::Normal);
    assert_eq!(node.bounds, CANVAS);
}

#[test]
fn bounds_are_joined_and_cut() {
    let a = Bounds { x0: 0, y0: 0, x1: 4, y1: 5 };
    let b = Bounds { x0: 2, y0: -3, x1: 9, y1: 2 };
    let none = Bounds { x0: 5, y0: 5, x1: 5, y1: 9 };
    assert_eq!(a.union(b), Bounds { x0: 0, y0: -3, x1: 9, y1: 5 });
    assert_eq!(a.union(b), b.union(a));
    assert_eq!(a.union(none), a);
    assert_eq!(none.union(b), b);
    assert_eq!(a.intersect(b), Bounds { x0: 2, y0: 0, x1: 4, y1: 2 });
    assert!(none.is_empty() && !a.is_empty());
    assert!(a.contains_row(0) && a.contains_row(4) && !a.contains_row(5) && !a.contains_row(-1));
    assert_eq!(Bounds::from(Rect { top: 1, left: 2, bottom: 3, right: 4 }), Bounds { x0: 2, y0: 1, x1: 4, y1: 3 });
    assert_eq!(Rect { top: 3, left: 2, bottom: 1, right: 1 }.width(), 0);
    assert_eq!(Rect { top: 3, left: 2, bottom: 1, right: 1 }.height(), 0);
    assert_eq!(Rect { top: i32::MIN, left: 0, bottom: i32::MAX, right: 1 }.height(), 4294967295);
}

#[test]
fn every_blend_key_has_its_mode() {
    let modes = [
        (b"norm", BlendMode::Normal),
        (b"dark", BlendMode::Darken),
        (b"mul ", BlendMode::Multiply),
        (b"idiv", BlendMode::ColorBurn),
        (b"lbrn", BlendMode::LinearBurn),
        (b"dkCl", BlendMode::DarkerColor),
        (b"lite", BlendMode::Lighten),
        (b"scrn", BlendMode::Screen),
        (b"div ", BlendMode::ColorDodge),
        (b"lddg", BlendMode::LinearDodge),
        (b"lgCl", BlendMode::LighterColor),
        (b"over", BlendMode::Overlay),
        (b"sLit", BlendMode::SoftLight),
        (b"hLit", BlendMode::HardLight),
        (b"vLit", BlendMode::VividLight),
        (b"lLit", BlendMode::LinearLight),
        (b"pLit", BlendMode::PinLight),
        (b"hMix", BlendMode::HardMix),
        (b"diff", BlendMode::Difference),
        (b"smud", BlendMode::Exclusion),
        (b"fsub", BlendMode::Subtract),
        (b"fdiv", BlendMode::Divide),
        (b"hue ", BlendMode::Hue),
        (b"sat ", BlendMode::Saturation),
        (b"colr", BlendMode::Color),
        (b"lum ", BlendMode::Luminosity),
        (b"diss", BlendMode::Normal),
    ];
    for (key, mode) in modes {
        assert_eq!(BlendMode::from_key(key), mode);
    }
}
