use psd_viewer::blend::BlendMode;
use psd_viewer::bounds::Bounds;
use psd_viewer::channel::{Channel, Compression};
use psd_viewer::composite::{column_of, layer_row, mask_row, row_window, span, Region};
use psd_viewer::document::Document;
use psd_viewer::node::{Mask, Node, NodeKind, Pixels};
use psd_viewer::plan::{plan_row, Step};

const ROWS: Bounds = Bounds { x0: 0, y0: 0, x1: 4, y1: 4 };

fn node(kind: NodeKind) -> Node {
    Node {
        name: String::new(),
        visible: true,
        opacity: 255,
        fill_opacity: 255,
        blend: BlendMode::Normal,
        clipped: false,
        has_effects: false,
        masks: Vec::new(),
        bounds: ROWS,
        kind,
    }
}

fn layer() -> Node {
    node(NodeKind::Layer(Box::new(Pixels {
        rect: ROWS,
        color: [None, None, None, None],
        alpha: None,
    })))
}

fn clip() -> Node {
    Node { clipped: true, ..layer() }
}

fn group(children: Vec<usize>, pass_through: bool) -> Node {
    node(NodeKind::Group { children, pass_through, expanded: true })
}

fn mask(rect: Bounds, default: u8, channel: Channel) -> Mask {
    Mask { rect, default, invert: false, channel }
}

fn empty_mask() -> Mask {
    mask(ROWS, 0, Channel::from_parts(0, Compression::Raw, 0, 0, Vec::new()))
}

fn document(nodes: Vec<Node>, root: Vec<usize>) -> Document {
    Document { width: 4, height: 4, color_mode: 3, nodes, root, warnings: Vec::new() }
}

fn plan(doc: &Document) -> Vec<Step> {
    plan_row(doc, &doc.initial_visibility(), 1)
}

#[test]
fn layers_are_laid_over_each_other() {
    let doc = document(vec![layer(), layer()], vec![0, 1]);
    assert_eq!(plan(&doc), [Step::Layer(0), Step::Over(0), Step::Layer(1), Step::Over(1)]);
}

#[test]
fn clipped_layers_go_with_their_base() {
    let doc = document(vec![layer(), clip(), clip(), layer()], vec![0, 1, 2, 3]);
    assert_eq!(
        plan(&doc),
        [
            Step::Layer(0),
            Step::Layer(1),
            Step::Atop(1),
            Step::Layer(2),
            Step::Atop(2),
            Step::Over(0),
            Step::Layer(3),
            Step::Over(3),
        ]
    );
    // Without their base they do not show.
    assert_eq!(
        plan_row(&doc, &[false, true, true, true], 1),
        [Step::Layer(3), Step::Over(3)]
    );
    assert_eq!(
        plan_row(&doc, &[true, false, true, false], 1),
        [Step::Layer(0), Step::Layer(2), Step::Atop(2), Step::Over(0)]
    );
}

#[test]
fn rows_beside_a_node_leave_it_out() {
    let doc = document(vec![layer()], vec![0]);
    assert!(plan_row(&doc, &[true], 4).is_empty());
    assert!(plan_row(&doc, &[true], -1).is_empty());
    assert!(plan_row(&doc, &[false], 1).is_empty());
}

#[test]
fn groups_are_drawn_apart() {
    let mut masked = group(vec![0], false);
    masked.masks.push(empty_mask());
    let doc = document(vec![layer(), masked, group(vec![], false)], vec![1, 2]);
    assert_eq!(
        plan(&doc),
        [
            Step::Clear,
            Step::Layer(0),
            Step::Over(0),
            Step::Mask(1),
            Step::Over(1),
            Step::Clear,
            Step::Over(2),
        ]
    );
}

#[test]
fn pass_through_groups_draw_on_what_is_below() {
    let doc = document(vec![layer(), group(vec![0], true)], vec![1]);
    assert_eq!(plan(&doc), [Step::Layer(0), Step::Over(0)]);

    let mut half = group(vec![0], true);
    half.opacity = 254;
    let doc = document(vec![layer(), half], vec![1]);
    assert_eq!(plan(&doc), [Step::Copy, Step::Layer(0), Step::Over(0), Step::Mix(1)]);

    let mut masked = group(vec![0], true);
    masked.masks.push(empty_mask());
    let doc = document(vec![layer(), masked], vec![1]);
    assert_eq!(plan(&doc), [Step::Copy, Step::Layer(0), Step::Over(0), Step::Mix(1)]);

    // With a visible clipped layer it is drawn apart.
    let doc = document(vec![layer(), group(vec![0], true), clip()], vec![1, 2]);
    assert_eq!(
        plan(&doc),
        [
            Step::Clear,
            Step::Layer(0),
            Step::Over(0),
            Step::Layer(2),
            Step::Atop(2),
            Step::Over(1),
        ]
    );
    assert_eq!(plan_row(&doc, &[true, true, false], 1), [Step::Layer(0), Step::Over(0)]);
}

#[test]
fn what_cannot_be_drawn_is_transparent() {
    let doc = document(vec![node(NodeKind::Unsupported { reason: String::new() })], vec![0]);
    assert_eq!(plan(&doc), [Step::Clear, Step::Over(0)]);
}

#[test]
fn regions_are_measured() {
    let r = Region { level: 2, x: 0, y: 0, width: 3, height: 5 };
    assert_eq!(r.canvas_area(), 240);
    assert_eq!(Region { level: 0, ..r }.canvas_area(), 15);
}

#[test]
fn windows_are_held_inside_the_canvas() {
    let r = Region { level: 1, x: -1, y: 1, width: 4, height: 3 };
    let w = row_window(5, 7, &r, 1).unwrap();
    assert_eq!((w.x0, w.x1, w.y0, w.y1), (0, 5, 4, 6));
    let w = row_window(5, 7, &r, 2).unwrap();
    assert_eq!((w.y0, w.y1), (6, 7));
    assert!(row_window(5, 6, &r, 2).is_none());
    let left = Region { x: -4, ..r };
    assert!(row_window(5, 7, &left, 0).is_none());
    let plain = Region { level: 0, x: 1, y: -1, width: 2, height: 3 };
    assert!(row_window(5, 7, &plain, 0).is_none());
    let w = row_window(5, 7, &plain, 1).unwrap();
    assert_eq!((w.x0, w.x1, w.y0, w.y1), (1, 3, 0, 1));
}

#[test]
fn columns_belong_to_output_columns() {
    let r = Region { level: 1, x: -1, y: 0, width: 4, height: 1 };
    let columns: Vec<usize> = (0..6).map(|x| column_of(&r, x)).collect();
    assert_eq!(columns, [1, 1, 2, 2, 3, 3]);
}

#[test]
fn spans_are_the_common_columns() {
    let b = |x0, x1| Bounds { x0, y0: 0, x1, y1: 1 };
    assert_eq!(span(b(-3, 5), (2, 9)), (2, 5));
    assert_eq!(span(b(4, 50), (2, 9)), (4, 9));
    assert_eq!(span(b(-9, -3), (0, 9)), (0, 0));
    assert_eq!(span(b(20, 30), (0, 9)), (20, 20));
}

#[test]
fn layer_values_are_found() {
    let data = [0, 255, 10, 20, 1, 2, 3, 4];
    let channel = |start| Some(Channel::from_parts(2, Compression::Raw, start, start + 4, Vec::new()));
    let pixels = Pixels {
        rect: Bounds { x0: 1, y0: 1, x1: 3, y1: 3 },
        color: [channel(4), None, None, None],
        alpha: channel(0),
    };
    let row = layer_row(&pixels, 3, &data, 1, 1, 3).unwrap();
    assert_eq!(row.alpha, [0, 255]);
    assert_eq!(row.color, [vec![1, 2], vec![0, 0], vec![0, 0]]);
    assert!(layer_row(&pixels, 3, &data, 1, 1, 2).is_none());
    assert!(layer_row(&pixels, 3, &data, 1, 2, 2).is_none());
    let row = layer_row(&pixels, 4, &data, 2, 2, 3).unwrap();
    assert_eq!(row.alpha, [20]);
    assert_eq!(row.color, [vec![4], vec![255], vec![255], vec![255]]);
    let opaque = Pixels { alpha: None, ..pixels };
    let row = layer_row(&opaque, 1, &data, 1, 1, 3).unwrap();
    assert_eq!(row.alpha, [255, 255]);
    assert_eq!(row.color, [vec![1, 2]]);
}

#[test]
fn mask_values_have_a_default() {
    let data = [5, 6, 7, 8];
    let m = mask(
        Bounds { x0: 1, y0: 2, x1: 3, y1: 4 },
        99,
        Channel::from_parts(2, Compression::Raw, 0, 4, Vec::new()),
    );
    assert_eq!(mask_row(&m, &data, 2, 0, 4), [99, 5, 6, 99]);
    assert_eq!(mask_row(&m, &data, 3, 1, 3), [7, 8]);
    assert_eq!(mask_row(&m, &data, 1, 0, 2), [99, 99]);
    assert_eq!(mask_row(&m, &data, 4, 0, 2), [99, 99]);
}
