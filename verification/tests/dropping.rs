use psd_viewer::blend::BlendMode;
use psd_viewer::bounds::Bounds;
use psd_viewer::dnd::{DropEvent, DropInbox};
use psd_viewer::drag::{Drag, DragAction, DragEvent};
use psd_viewer::fonts::{font_match, font_setting};
use psd_viewer::labels::{layer_label, layer_tags, list_rows, open_error, window_title};
use psd_viewer::node::{Node, NodeKind};
use psd_viewer::pipe::{Pipe, PipeAction, PipeEvent};
use psd_viewer::uri::{dropped_files, parse_uri_list, percent_decode};

#[test]
fn parses_uri_list() {
    let text = "# comment\r\nfile:///home/ro/a%20b.psd\r\nfile://localhost/tmp/%E6%97%A5.psd\r\nhttps://example.com/x\r\n";
    assert_eq!(
        parse_uri_list(text),
        vec!["/home/ro/a b.psd".as_bytes().to_vec(), "/tmp/日.psd".as_bytes().to_vec()]
    );
}

#[test]
fn lines_of_a_list_are_trimmed() {
    assert_eq!(parse_uri_list(""), Vec::<Vec<u8>>::new());
    assert_eq!(parse_uri_list(" \u{3000}file:///日 本\u{a0}\n\n#file:///x"), ["/日 本".as_bytes()]);
    assert_eq!(parse_uri_list("file://host"), [b"host"]);
    assert_eq!(parse_uri_list("file:/one"), Vec::<Vec<u8>>::new());
}

#[test]
fn percent_signs_are_decoded() {
    assert_eq!(percent_decode("a%2Fb%e6%97%a5"), "a/b日".as_bytes());
    assert_eq!(percent_decode("%zz%4"), b"%zz%4");
    assert_eq!(percent_decode("%%41"), b"%A");
    assert_eq!(percent_decode("日"), "日".as_bytes());
}

#[test]
fn dropped_bytes_are_read_as_text() {
    assert_eq!(dropped_files(b"file:///tmp/a.psd\r\n"), [b"/tmp/a.psd"]);
    assert_eq!(dropped_files(b"file:///a\xffb"), ["/a\u{fffd}b".as_bytes()]);
    assert!(dropped_files(b"").is_empty());
    let list = "# 一覧\nfile:///tmp/é日😀.psd\nfile://host/b.psd\n";
    assert_eq!(dropped_files(list.as_bytes()), parse_uri_list(list));
    assert_eq!(dropped_files(list.as_bytes())[0], "/tmp/é日😀.psd".as_bytes());
}

#[test]
fn a_drag_of_files_is_received() {
    let mut d = Drag::new();
    assert!(d.handle(DragEvent::Offer { id: 7 }).is_empty());
    assert!(d.handle(DragEvent::Type { id: 7, mime: "text/plain".to_owned() }).is_empty());
    assert!(d.handle(DragEvent::Type { id: 7, mime: "text/uri-list".to_owned() }).is_empty());
    assert_eq!(
        d.handle(DragEvent::Enter { offer: Some(7) }),
        [DragAction::Accept { id: 7, accepted: true }, DragAction::Hover(true)]
    );
    assert_eq!(d.handle(DragEvent::Drop), [DragAction::Receive(7), DragAction::Hover(false)]);
    assert_eq!(d.handle(DragEvent::Drop), [DragAction::Hover(false)]);
}

#[test]
fn a_drag_of_something_else_is_refused() {
    let mut d = Drag::new();
    d.handle(DragEvent::Offer { id: 1 });
    d.handle(DragEvent::Type { id: 1, mime: "text/plain".to_owned() });
    assert_eq!(
        d.handle(DragEvent::Enter { offer: Some(1) }),
        [DragAction::Accept { id: 1, accepted: false }]
    );
    assert_eq!(d.handle(DragEvent::Drop), [DragAction::Destroy(1), DragAction::Hover(false)]);
    assert_eq!(
        d.handle(DragEvent::Enter { offer: Some(1) }),
        [DragAction::Accept { id: 1, accepted: false }]
    );
    assert_eq!(d.handle(DragEvent::Leave), [DragAction::Destroy(1), DragAction::Hover(false)]);
}

#[test]
fn a_new_drag_takes_the_place_of_another() {
    let mut d = Drag::new();
    // A type may come without its offer.
    d.handle(DragEvent::Type { id: 1, mime: "text/uri-list".to_owned() });
    d.handle(DragEvent::Enter { offer: Some(1) });
    assert_eq!(d.handle(DragEvent::Enter { offer: None }), [DragAction::Destroy(1)]);
    assert_eq!(d.handle(DragEvent::Selection { offer: Some(2) }), [DragAction::Destroy(2)]);
    assert!(d.handle(DragEvent::Selection { offer: None }).is_empty());
    // An offer that is made again starts anew.
    d.handle(DragEvent::Type { id: 3, mime: "text/uri-list".to_owned() });
    d.handle(DragEvent::Offer { id: 3 });
    assert_eq!(
        d.handle(DragEvent::Enter { offer: Some(3) }),
        [DragAction::Accept { id: 3, accepted: false }]
    );
}

#[test]
fn the_first_file_of_the_last_drop_is_opened() {
    let mut b = DropInbox::new();
    assert!(!b.hovering(false) && b.hovering(true));
    assert_eq!(b.poll(Some("x"), vec![DropEvent::Hover(true)]), Some("x"));
    assert!(b.hovering(false));
    let events = vec![
        DropEvent::Files(vec!["a", "b"]),
        DropEvent::Files(vec!["c"]),
        DropEvent::Hover(false),
    ];
    assert_eq!(b.poll(Some("x"), events), Some("c"));
    assert!(!b.hovering(false));
    assert_eq!(b.poll(Some("x"), vec![DropEvent::Files(vec![])]), None);
    assert_eq!(b.poll::<u8>(None, vec![]), None);
}

#[test]
fn a_font_setting_may_have_an_index() {
    let setting = |s: &str| font_setting(s);
    assert_eq!(setting("/a/b.ttc:3"), ("/a/b.ttc".to_owned(), 3));
    assert_eq!(setting("/a/b.ttc"), ("/a/b.ttc".to_owned(), 0));
    assert_eq!(setting("C:\\x.ttf"), ("C:\\x.ttf".to_owned(), 0));
    assert_eq!(setting("a:b:+12"), ("a:b".to_owned(), 12));
    assert_eq!(setting("a:"), ("a:".to_owned(), 0));
    assert_eq!(setting("a:+"), ("a:+".to_owned(), 0));
    assert_eq!(setting("a:4294967295"), ("a".to_owned(), u32::MAX));
    assert_eq!(setting("a:4294967296"), ("a:4294967296".to_owned(), 0));
    assert_eq!(setting("a:-1"), ("a:-1".to_owned(), 0));
}

#[test]
fn a_font_search_answers_on_two_lines() {
    assert_eq!(font_match(""), None);
    assert_eq!(font_match("/f.ttc\n2"), Some(("/f.ttc".to_owned(), 2)));
    assert_eq!(font_match("/f.ttc\r\n2\r\n"), Some(("/f.ttc".to_owned(), 2)));
    assert_eq!(font_match("/f.ttc"), Some(("/f.ttc".to_owned(), 0)));
    assert_eq!(font_match("/f.ttc\nx"), Some(("/f.ttc".to_owned(), 0)));
}

fn node(kind: NodeKind) -> Node {
    Node {
        name: "n".to_owned(),
        visible: true,
        opacity: 255,
        fill_opacity: 255,
        blend: BlendMode::Normal,
        clipped: false,
        has_effects: false,
        masks: Vec::new(),
        bounds: Bounds::default(),
        kind,
    }
}

#[test]
fn layers_are_labelled() {
    let mut n = node(NodeKind::Unsupported { reason: "白黒レイヤーは未対応".to_owned() });
    assert_eq!(layer_label(&n), "n");
    assert_eq!(layer_tags(&n), "白黒レイヤーは未対応");
    n.clipped = true;
    n.has_effects = true;
    n.opacity = 128;
    assert_eq!(layer_label(&n), "↳ n");
    assert_eq!(layer_tags(&n), "50% / fx 未対応 / 白黒レイヤーは未対応");
    let plain = node(NodeKind::Group { children: vec![], pass_through: false, expanded: false });
    assert_eq!(layer_tags(&plain), "");
}

#[test]
fn every_percentage_is_rounded_as_a_float_is() {
    for opacity in 0..=254u8 {
        let mut n = node(NodeKind::Group { children: vec![], pass_through: false, expanded: false });
        n.opacity = opacity;
        assert_eq!(layer_tags(&n), format!("{:.0}%", opacity as f32 / 255.0 * 100.0));
    }
}

#[test]
fn titles_and_errors_name_the_file() {
    assert_eq!(window_title(Some("a.psd")), "a.psd - PSD Viewer");
    assert_eq!(window_title(None), "PSD Viewer");
    assert_eq!(open_error("/a.psd", "だめ"), "/a.psd: だめ");
}

#[test]
fn encoded_bytes_are_read_back() {
    let all: Vec<u8> = (0..=255).collect();
    let encoded: String = all.iter().map(|b| format!("%{b:02X}")).collect();
    assert_eq!(percent_decode(&encoded), all);
    let encoded: String = all.iter().map(|b| format!("%{b:02x}")).collect();
    assert_eq!(percent_decode(&encoded), all);
}

#[test]
fn plain_text_stays_before_encoded_bytes() {
    assert_eq!(percent_decode("/tmp/a b%2fC%2Fd"), b"/tmp/a b/C/d");
    assert_eq!(percent_decode("/tmp/plain"), b"/tmp/plain");
}

#[test]
fn reads_until_writer_closes() {
    let mut pipe = Pipe::new();
    assert_eq!(pipe.handle(PipeEvent::Waited(1)), PipeAction::Read);
    assert_eq!(pipe.handle(PipeEvent::Read(b"file:///tmp/")), PipeAction::Wait);
    assert_eq!(pipe.handle(PipeEvent::Waited(1)), PipeAction::Read);
    assert_eq!(pipe.handle(PipeEvent::Interrupted), PipeAction::Wait);
    assert_eq!(pipe.handle(PipeEvent::Waited(1)), PipeAction::Read);
    assert_eq!(pipe.handle(PipeEvent::Read(b"a.psd\r\n")), PipeAction::Wait);
    assert_eq!(pipe.handle(PipeEvent::Waited(1)), PipeAction::Read);
    assert_eq!(pipe.handle(PipeEvent::Read(b"")), PipeAction::Done);
    assert_eq!(pipe.into_bytes(), b"file:///tmp/a.psd\r\n");
}

#[test]
fn gives_up_when_writer_stalls() {
    let mut pipe = Pipe::new();
    assert_eq!(pipe.handle(PipeEvent::Waited(0)), PipeAction::GiveUp);
    assert_eq!(pipe.handle(PipeEvent::Waited(-1)), PipeAction::GiveUp);
    assert_eq!(pipe.handle(PipeEvent::Failed), PipeAction::GiveUp);
    assert_eq!(pipe.into_bytes(), b"");
}

#[test]
fn the_list_goes_from_top_to_bottom() {
    let visible = [true, false, true];
    assert_eq!(list_rows(&vec![0, 1, 2], &visible, true), [(2, true), (1, false), (0, true)]);
    assert_eq!(list_rows(&vec![2, 0], &visible, false), [(0, false), (2, false)]);
}
