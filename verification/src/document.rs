//! The layer tree of a file.
use vstd::prelude::*;

use crate::blend::BlendMode;
use crate::bounds::Bounds;
use crate::channel;
use crate::channel::Channel;
use crate::layer_info;
use crate::layers;
use crate::layers::LayerRecord;
use crate::merged;
use crate::node;
use crate::node::{Node, NodeId, NodeKind, Pixels};
use crate::psd;
use crate::warning;
use crate::warning::Warning;

verus! {

/// A file as a tree of nodes. The pixels stay in the file.
#[derive(Debug)]
pub struct Document {
    pub width: u32,
    pub height: u32,
    /// 1 for grayscale, 3 for RGB, 4 for CMYK.
    pub color_mode: u16,
    pub nodes: Vec<Node>,
    /// The nodes that belong to no group, from bottom to top.
    pub root: Vec<NodeId>,
    pub warnings: Vec<Warning>,
}

/// What a document records.
#[verifier::ext_equal]
pub struct DocumentView {
    pub width: u32,
    pub height: u32,
    pub color_mode: u16,
    pub nodes: Seq<node::NodeView>,
    pub root: Seq<NodeId>,
    pub warnings: Seq<warning::WarningView>,
}

/// What a list of nodes records.
pub open spec fn node_views(s: Seq<Node>) -> Seq<node::NodeView> {
    s.map_values(|n: Node| n@)
}

impl View for Document {
    type V = DocumentView;

    open spec fn view(&self) -> DocumentView {
        DocumentView {
            width: self.width,
            height: self.height,
            color_mode: self.color_mode,
            nodes: node_views(self.nodes@),
            root: self.root@,
            warnings: warning::warning_views(self.warnings@),
        }
    }
}

/// Whether every id in `s` is below `n`.
pub open spec fn ids_below(s: Seq<NodeId>, n: int) -> bool {
    forall|i: int| 0 <= i < s.len() ==> (#[trigger] s[i]) < n
}

/// Whether the children of every node come before it.
pub open spec fn children_come_first(nodes: Seq<node::NodeView>) -> bool {
    forall|i: int| 0 <= i < nodes.len() ==> ids_below((#[trigger] nodes[i]).children(), i)
}

impl DocumentView {
    /// Whether every id is that of a node, and the children of every node come before it.
    pub open spec fn wf(self) -> bool {
        ids_below(self.root, self.nodes.len() as int) && children_come_first(self.nodes)
    }
}

/// A size as a coordinate. It wraps around where it is too large for one.
pub open spec fn coordinate(v: u32) -> i32 {
    if v < 2147483648 {
        v as i32
    } else {
        (v - 4294967296) as i32
    }
}

/// The rectangle of the whole image.
pub open spec fn canvas_of(width: u32, height: u32) -> Bounds {
    Bounds { x0: 0, y0: 0, x1: coordinate(width), y1: coordinate(height) }
}

/// A tree under construction.
#[verifier::ext_equal]
pub struct BuildView {
    pub nodes: Seq<node::NodeView>,
    /// The children of the groups that are not complete. The first entry is the root.
    pub stack: Seq<Seq<NodeId>>,
    pub warnings: Seq<warning::WarningView>,
}

/// The rectangle that the children take.
pub open spec fn children_bounds(nodes: Seq<node::NodeView>, children: Seq<NodeId>) -> Bounds
    decreases children.len(),
{
    if children.len() == 0 {
        Bounds::none()
    } else {
        children_bounds(nodes, children.drop_last()).joined(nodes[children.last() as int].bounds)
    }
}

/// `stack` with `id` as one more child of the innermost group.
pub open spec fn with_child(stack: Seq<Seq<NodeId>>, id: NodeId) -> Seq<Seq<NodeId>> {
    stack.update(stack.len() - 1, stack.last().push(id))
}

/// `b` with one record more. The end of a folder opens a group, and the folder itself closes it.
pub open spec fn with_record(b: BuildView, rec: layers::LayerView, canvas: Bounds) -> BuildView {
    let id = b.nodes.len() as usize;
    if rec.divider == 3 {
        BuildView { stack: b.stack.push(seq![]), ..b }
    } else if rec.divider != 1 && rec.divider != 2 {
        BuildView {
            nodes: b.nodes.push(node::node_of(rec, None, canvas)),
            stack: with_child(b.stack, id),
            ..b
        }
    } else if b.stack.len() > 1 {
        let children = b.stack.last();
        let group = (children, children_bounds(b.nodes, children));
        BuildView {
            nodes: b.nodes.push(node::node_of(rec, Some(group), canvas)),
            stack: with_child(b.stack.drop_last(), id),
            ..b
        }
    } else {
        let group = (Seq::empty(), Bounds::none());
        BuildView {
            nodes: b.nodes.push(node::node_of(rec, Some(group), canvas)),
            stack: with_child(b.stack, id),
            warnings: b.warnings.push(warning::WarningView::UnendedGroup { name: rec.name }),
        }
    }
}

/// The tree after the given records, which come from bottom to top.
pub open spec fn built(
    recs: Seq<layers::LayerView>,
    canvas: Bounds,
    warnings: Seq<warning::WarningView>,
) -> BuildView
    decreases recs.len(),
{
    if recs.len() == 0 {
        BuildView { nodes: seq![], stack: seq![seq![]], warnings }
    } else {
        with_record(built(recs.drop_last(), canvas, warnings), recs.last(), canvas)
    }
}

/// The lists one after another.
pub open spec fn flat(s: Seq<Seq<NodeId>>) -> Seq<NodeId>
    decreases s.len(),
{
    if s.len() == 0 {
        seq![]
    } else {
        flat(s.drop_last()) + s.last()
    }
}

/// The color channels of the merged image, as many as there are.
pub open spec fn merged_colors(s: Seq<channel::ChannelView>) -> Seq<Option<channel::ChannelView>> {
    Seq::new(
        4,
        |c: int|
            if c < s.len() {
                Some(s[c])
            } else {
                None
            },
    )
}

/// The node of the merged image.
pub open spec fn merged_node(s: Seq<channel::ChannelView>, canvas: Bounds) -> node::NodeView {
    node::NodeView {
        name: "統合画像"@,
        visible: true,
        opacity: 255,
        fill_opacity: 255,
        blend: BlendMode::Normal,
        clipped: false,
        has_effects: false,
        masks: seq![],
        bounds: canvas,
        kind: node::KindView::Layer(
            node::PixelsView { rect: canvas, color: merged_colors(s), alpha: None },
        ),
    }
}

/// The warnings of a tree: those of its construction, and one where a group is still open.
pub open spec fn tree_warnings(b: BuildView) -> Seq<warning::WarningView> {
    if b.stack.len() > 1 {
        b.warnings.push(warning::WarningView::UnopenedGroup)
    } else {
        b.warnings
    }
}

/// The document of a file. Groups that are still open are dissolved. A file without layers shows
/// its merged image.
pub open spec fn document_of(file: psd::PsdView) -> DocumentView {
    let canvas = canvas_of(file.width, file.height);
    let b = built(file.layers, canvas, file.warnings);
    let use_merged = b.nodes.len() == 0 && file.merged.len() > 0;
    DocumentView {
        width: file.width,
        height: file.height,
        color_mode: file.color_mode,
        nodes: if use_merged {
            seq![merged_node(file.merged, canvas)]
        } else {
            b.nodes
        },
        root: if use_merged {
            flat(b.stack).push(0)
        } else {
            flat(b.stack)
        },
        warnings: if use_merged {
            tree_warnings(b).push(warning::WarningView::MergedImage)
        } else {
            tree_warnings(b)
        },
    }
}

/// What the lists of ids hold.
spec fn stack_view(s: Seq<Vec<NodeId>>) -> Seq<Seq<NodeId>> {
    s.map_values(|v: Vec<NodeId>| v@)
}

/// A tree under construction.
struct Build {
    nodes: Vec<Node>,
    stack: Vec<Vec<NodeId>>,
    warnings: Vec<Warning>,
}

impl View for Build {
    type V = BuildView;

    closed spec fn view(&self) -> BuildView {
        BuildView {
            nodes: node_views(self.nodes@),
            stack: stack_view(self.stack@),
            warnings: warning::warning_views(self.warnings@),
        }
    }
}

impl BuildView {
    /// Whether the root is there, every id is that of a node, and children come before their group.
    pub open spec fn wf(self) -> bool {
        &&& self.stack.len() > 0
        &&& forall|i: int|
            0 <= i < self.stack.len() ==> ids_below(#[trigger] self.stack[i], self.nodes.len() as int)
        &&& children_come_first(self.nodes)
    }
}

/// A record keeps a tree sound.
pub proof fn record_keeps_wf(b: BuildView, rec: layers::LayerView, canvas: Bounds)
    requires
        b.wf(),
        b.nodes.len() <= usize::MAX,
    ensures
        with_record(b, rec, canvas).wf(),
{
    let after = with_record(b, rec, canvas);
    let n = b.nodes.len() as int;
    assert forall|i: int| 0 <= i < after.stack.len() implies ids_below(
        #[trigger] after.stack[i],
        after.nodes.len() as int,
    ) by {
        if i < b.stack.len() {
            assert(ids_below(b.stack[i], n));
        }
    }
    assert(ids_below(b.stack.last(), n)) by {
        assert(b.stack.last() == b.stack[b.stack.len() - 1]);
    }
    assert forall|i: int| 0 <= i < after.nodes.len() implies ids_below(
        (#[trigger] after.nodes[i]).children(),
        i,
    ) by {
        if i < n {
            assert(after.nodes[i] == b.nodes[i]);
        }
    }
}

/// The rectangle that the children take.
fn bounds_of_children(nodes: &Vec<Node>, children: &Vec<NodeId>) -> (r: Bounds)
    requires
        ids_below(children@, nodes@.len() as int),
    ensures
        r == children_bounds(node_views(nodes@), children@),
{
    let mut r = Bounds::default();
    let mut i: usize = 0;
    assert(children@.take(0) =~= seq![]);
    while i < children.len()
        invariant
            i <= children@.len(),
            ids_below(children@, nodes@.len() as int),
            r == children_bounds(node_views(nodes@), children@.take(i as int)),
        decreases children@.len() - i,
    {
        assert(children@.take(i + 1).drop_last() =~= children@.take(i as int));
        r = r.union(nodes[children[i]].bounds);
        i = i + 1;
    }
    assert(children@.take(i as int) =~= children@);
    r
}

impl Build {
    /// A tree without a node.
    fn new(warnings: Vec<Warning>) -> (b: Build)
        ensures
            b@ == (BuildView {
                nodes: seq![],
                stack: seq![seq![]],
                warnings: warning::warning_views(warnings@),
            }),
            b@.wf(),
    {
        let mut stack: Vec<Vec<NodeId>> = Vec::new();
        stack.push(Vec::new());
        let b = Build { nodes: Vec::new(), stack, warnings };
        assert(b@.nodes =~= seq![]);
        assert(b@.stack =~= seq![Seq::<NodeId>::empty()]);
        b
    }

    /// Adds a node to the innermost group.
    fn place(&mut self, node: Node)
        requires
            old(self)@.stack.len() > 0,
        ensures
            final(self)@ == (BuildView {
                nodes: old(self)@.nodes.push(node@),
                stack: with_child(old(self)@.stack, old(self)@.nodes.len() as usize),
                ..old(self)@
            }),
    {
        let id: usize = self.nodes.len();
        let top: usize = self.stack.len() - 1;
        self.nodes.push(node);
        self.stack[top].push(id);
        assert(self@.nodes =~= old(self)@.nodes.push(node@));
        assert(self@.stack =~= with_child(old(self)@.stack, id));
    }

    /// Takes the children of the group that a folder closes.
    fn close_group(&mut self, name: &str) -> (children: Vec<NodeId>)
        requires
            old(self)@.wf(),
        ensures
            final(self)@.nodes == old(self)@.nodes,
            final(self)@.stack.len() > 0,
            ids_below(children@, old(self)@.nodes.len() as int),
            if old(self)@.stack.len() > 1 {
                &&& children@ == old(self)@.stack.last()
                &&& final(self)@.stack == old(self)@.stack.drop_last()
                &&& final(self)@.warnings == old(self)@.warnings
            } else {
                &&& children@ == Seq::<NodeId>::empty()
                &&& final(self)@.stack == old(self)@.stack
                &&& final(self)@.warnings == old(self)@.warnings.push(
                    warning::WarningView::UnendedGroup { name: name@ },
                )
            },
    {
        assert(ids_below(self@.stack[self.stack@.len() - 1], self@.nodes.len() as int));
        if self.stack.len() > 1 {
            match self.stack.pop() {
                Some(children) => {
                    assert(self@.stack =~= old(self)@.stack.drop_last());
                    children
                },
                None => Vec::new(),
            }
        } else {
            self.warnings.push(Warning::UnendedGroup { name: name.to_owned() });
            assert(self@.warnings =~= old(self)@.warnings.push(
                warning::WarningView::UnendedGroup { name: name@ },
            ));
            Vec::new()
        }
    }

    /// Adds one record.
    fn add_record(&mut self, rec: LayerRecord, canvas: Bounds)
        requires
            old(self)@.wf(),
        ensures
            final(self)@ == with_record(old(self)@, rec@, canvas),
            final(self)@.wf(),
    {
        assert(self.nodes@.len() == self.nodes.len());
        proof {
            record_keeps_wf(self@, rec@, canvas);
        }
        if rec.divider == 3 {
            self.stack.push(Vec::new());
            assert(self@.stack =~= old(self)@.stack.push(seq![]));
            return;
        }
        if rec.divider == 1 || rec.divider == 2 {
            let children = self.close_group(rec.name.as_str());
            let bounds = bounds_of_children(&self.nodes, &children);
            self.place(node::make_node(rec, Some((children, bounds)), canvas));
        } else {
            self.place(node::make_node(rec, None, canvas));
        }
    }
}

/// The lists one after another.
fn flatten(stack: Vec<Vec<NodeId>>) -> (r: Vec<NodeId>)
    ensures
        r@ == flat(stack_view(stack@)),
{
    let ghost all = stack_view(stack@);
    let mut r: Vec<NodeId> = Vec::new();
    assert(all.take(0) =~= seq![]);
    for entry in it: stack
        invariant
            all == stack_view(stack@),
            it.seq() == stack@,
            r@ == flat(all.take(it.index() as int)),
    {
        assert(all.take(it.index() + 1).drop_last() =~= all.take(it.index() as int));
        assert(all.take(it.index() + 1).last() == entry@);
        let mut entry = entry;
        r.append(&mut entry);
    }
    assert(all.take(all.len() as int) =~= all);
    r
}

/// The ids in the lists are those of nodes.
pub proof fn flat_ids(s: Seq<Seq<NodeId>>, n: int)
    requires
        forall|i: int| 0 <= i < s.len() ==> ids_below(#[trigger] s[i], n),
    ensures
        ids_below(flat(s), n),
    decreases s.len(),
{
    if s.len() > 0 {
        let before = s.drop_last();
        assert forall|i: int| 0 <= i < before.len() implies ids_below(
            #[trigger] before[i],
            n,
        ) by {
            assert(before[i] == s[i]);
        }
        flat_ids(before, n);
        assert(ids_below(s[s.len() - 1], n));
    }
}

/// The color channels of the merged image, as many as there are.
fn colors_of_merged(channels: Vec<Channel>) -> (color: [Option<Channel>; 4])
    ensures
        color@.map_values(|c: Option<Channel>| node::channel_view(c)) == merged_colors(
            merged::channels_view(channels@),
        ),
{
    let ghost all = merged::channels_view(channels@);
    let mut color: [Option<Channel>; 4] = [None, None, None, None];
    let mut c: usize = 0;
    for channel in it: channels
        invariant
            all == merged::channels_view(channels@),
            it.seq() == channels@,
            c == if it.index() < 4 {
                it.index()
            } else {
                4
            },
            forall|k: int|
                0 <= k < 4 ==> node::channel_view(#[trigger] color@[k]) == if k < c {
                    Some(all[k])
                } else {
                    None
                },
    {
        if c < 4 {
            color[c] = Some(channel);
            c = c + 1;
        }
    }
    assert(color@.map_values(|c: Option<Channel>| node::channel_view(c)) =~= merged_colors(all));
    color
}

/// The node of the merged image.
fn node_of_merged(channels: Vec<Channel>, canvas: Bounds) -> (n: Node)
    ensures
        n@ == merged_node(merged::channels_view(channels@), canvas),
{
    let color = colors_of_merged(channels);
    let n = Node {
        name: "統合画像".to_owned(),
        visible: true,
        opacity: 255,
        fill_opacity: 255,
        blend: BlendMode::Normal,
        clipped: false,
        has_effects: false,
        masks: Vec::new(),
        bounds: canvas,
        kind: NodeKind::Layer(Box::new(Pixels { rect: canvas, color, alpha: None })),
    };
    assert(n@.masks =~= seq![]);
    n
}

/// A size as a coordinate.
fn to_coordinate(v: u32) -> (r: i32)
    ensures
        r == coordinate(v),
{
    if v < 2147483648 {
        v as i32
    } else {
        (v as i64 - 4294967296) as i32
    }
}

/// Builds the tree of the records.
fn build_tree(recs: Vec<LayerRecord>, canvas: Bounds, warnings: Vec<Warning>) -> (b: Build)
    ensures
        b@ == built(
            layer_info::layer_views(recs@),
            canvas,
            warning::warning_views(warnings@),
        ),
        b@.wf(),
{
    let ghost all = layer_info::layer_views(recs@);
    let ghost first = warning::warning_views(warnings@);
    let mut b = Build::new(warnings);
    assert(all.take(0) =~= seq![]);
    for rec in it: recs
        invariant
            all == layer_info::layer_views(recs@),
            it.seq() == recs@,
            b@ == built(all.take(it.index() as int), canvas, first),
            b@.wf(),
    {
        assert(all.take(it.index() + 1).drop_last() =~= all.take(it.index() as int));
        assert(all.take(it.index() + 1).last() == rec@);
        b.add_record(rec, canvas);
    }
    assert(all.take(all.len() as int) =~= all);
    b
}

impl Document {
    /// The document of a file that has been read.
    pub fn from_psd(file: psd::Psd) -> (doc: Document)
        ensures
            doc@ == document_of(file@),
            doc@.wf(),
    {
        let canvas = Bounds {
            x0: 0,
            y0: 0,
            x1: to_coordinate(file.width),
            y1: to_coordinate(file.height),
        };
        let b = build_tree(file.layers, canvas, file.warnings);
        let ghost tree = b@;
        let mut nodes = b.nodes;
        let mut warnings = b.warnings;
        if b.stack.len() > 1 {
            warnings.push(Warning::UnopenedGroup);
        }
        assert(warning::warning_views(warnings@) =~= tree_warnings(tree));
        proof {
            flat_ids(tree.stack, tree.nodes.len() as int);
        }
        let mut root = flatten(b.stack);
        if nodes.len() == 0 && file.merged.len() > 0 {
            warnings.push(Warning::MergedImage);
            nodes.push(node_of_merged(file.merged, canvas));
            root.push(0);
            assert(warning::warning_views(warnings@) =~= tree_warnings(tree).push(
                warning::WarningView::MergedImage,
            ));
            assert(node_views(nodes@) =~= seq![merged_node(file@.merged, canvas)]);
        }
        Document {
            width: file.width,
            height: file.height,
            color_mode: file.color_mode,
            nodes,
            root,
            warnings,
        }
    }

    /// The document of a file with the given content. The error is what the user is told.
    pub fn from_source(data: &[u8]) -> (r: Result<Document, String>)
        ensures
            match r {
                Ok(doc) => {
                    &&& psd::psd_at(data@) matches Ok(file) && doc@ == document_of(file)
                    &&& doc@.wf()
                },
                Err(s) => psd::psd_at(data@) matches Err(e) && s@ == e.text(),
            },
    {
        match psd::parse(data) {
            Ok(file) => Ok(Document::from_psd(file)),
            Err(e) => Err(e),
        }
    }

    /// Which nodes are visible when the file is opened.
    pub fn initial_visibility(&self) -> (v: Vec<bool>)
        ensures
            v@ == Seq::new(self@.nodes.len(), |i: int| self@.nodes[i].visible),
    {
        let mut v: Vec<bool> = Vec::new();
        let mut i: usize = 0;
        while i < self.nodes.len()
            invariant
                i <= self.nodes@.len(),
                v@ == Seq::new(i as nat, |k: int| self@.nodes[k].visible),
            decreases self.nodes@.len() - i,
        {
            v.push(self.nodes[i].visible);
            i = i + 1;
        }
        v
    }
}

} // verus!
