//! What the row of a document shows: which layers, in which order, and how they are laid over each
//! other.
use vstd::prelude::*;

use crate::document;
use crate::forest;
use crate::node;
use crate::node::NodeId;
use crate::plan;
use crate::plan::{Picture, Scene};
use crate::psd;

verus! {

/// Whether the node is switched on and the row lies between its upper and its lower edge.
pub open spec fn seen(s: Scene, id: NodeId) -> bool {
    &&& s.visible[id as int]
    &&& s.nodes[id as int].bounds.y0 <= s.y
    &&& s.y < s.nodes[id as int].bounds.y1
}

/// The place of the node to which the node at `i` is clipped: the next one below it that is not
/// clipped itself, or the lowest one. A node that is not clipped stands for itself.
pub open spec fn base(s: Scene, ids: Seq<NodeId>, i: int) -> int
    decreases i,
{
    if i <= 0 || !s.nodes[ids[i] as int].clipped {
        i
    } else {
        base(s, ids, i - 1)
    }
}

/// The layers that a node shows by itself, from bottom to top.
pub open spec fn layers_of(s: Scene, id: NodeId) -> Seq<NodeId>
    decreases id, 2int, 0int,
{
    match s.nodes[id as int].kind {
        node::KindView::Layer(_) => seq![id],
        node::KindView::Group { children, .. } => shown_layers(s, id as int, children),
        node::KindView::Unsupported { .. } => seq![],
    }
}

/// The layers that show among the nodes `ids` and in their groups, from bottom to top: those that
/// are seen, where the node to which they are clipped is seen too, and in groups of which the same
/// holds. Children come before their groups, below `limit`.
pub open spec fn shown_layers(s: Scene, limit: int, ids: Seq<NodeId>) -> Seq<NodeId>
    decreases limit, 1int, ids.len(),
{
    if ids.len() == 0 {
        seq![]
    } else {
        let i = ids.len() - 1;
        shown_layers(s, limit, ids.drop_last()) + if ids[i] < limit && seen(s, ids[i]) && seen(
            s,
            ids[base(s, ids, i)],
        ) {
            layers_of(s, ids[i])
        } else {
            seq![]
        }
    }
}

/// The layers whose pixels are in a picture, from bottom to top. A row that turns into another
/// holds what that one holds.
pub open spec fn pixels(p: Picture) -> Seq<NodeId>
    decreases p,
{
    match p {
        Picture::Clear => seq![],
        Picture::Layer { node } => seq![node],
        Picture::Masked { row, node } => pixels(*row),
        Picture::Over { under, over, node } => pixels(*under) + pixels(*over),
        Picture::Atop { under, over, node } => pixels(*under) + pixels(*over),
        Picture::Mixed { under, over, node } => pixels(*over),
    }
}

/// The layers that clipped nodes show.
spec fn clipped_layers(s: Scene, limit: int, clips: Seq<NodeId>) -> Seq<NodeId>
    decreases clips.len(),
{
    if clips.len() == 0 {
        seq![]
    } else {
        clipped_layers(s, limit, clips.drop_last()) + if clips.last() < limit && seen(
            s,
            clips.last(),
        ) {
            layers_of(s, clips.last())
        } else {
            seq![]
        }
    }
}

proof fn alone_shows_layers(s: Scene, id: NodeId)
    requires
        s.wf(),
        id < s.nodes.len(),
    ensures
        pixels(s.isolated(id)) == layers_of(s, id),
    decreases id, 4int, 0int,
{
    match s.nodes[id as int].kind {
        node::KindView::Group { children, .. } => {
            assert(document::ids_below(s.nodes[id as int].children(), id as int));
            stack_shows_layers(s, id as int, children, Picture::Clear);
            assert(pixels(s.isolated(id)) =~= layers_of(s, id));
        },
        _ => {
            assert(pixels(s.isolated(id)) =~= layers_of(s, id));
        },
    }
}

proof fn clips_show_layers(s: Scene, limit: int, under: Picture, clips: Seq<NodeId>)
    requires
        s.wf(),
        limit <= s.nodes.len(),
    ensures
        pixels(s.with_clips(limit, under, clips)) == pixels(under) + clipped_layers(
            s,
            limit,
            clips,
        ),
    decreases limit, 1int, clips.len(),
{
    if clips.len() > 0 {
        clips_show_layers(s, limit, under, clips.drop_last());
        if clips.last() < limit {
            alone_shows_layers(s, clips.last());
        }
    }
    assert(pixels(s.with_clips(limit, under, clips)) =~= pixels(under) + clipped_layers(
        s,
        limit,
        clips,
    ));
}

proof fn unseen_clips_show_nothing(s: Scene, limit: int, clips: Seq<NodeId>)
    requires
        !s.any_visible(clips),
    ensures
        clipped_layers(s, limit, clips) == Seq::<NodeId>::empty(),
    decreases clips.len(),
{
    if clips.len() > 0 {
        assert(clips.last() == clips[clips.len() - 1]);
        assert forall|i: int| 0 <= i < clips.drop_last().len() implies !s.visible[
            #[trigger] clips.drop_last()[i] as int] by {
            assert(clips.drop_last()[i] == clips[i]);
        }
        unseen_clips_show_nothing(s, limit, clips.drop_last());
    }
}

proof fn element_shows_layers(
    s: Scene,
    limit: int,
    id: NodeId,
    clips: Seq<NodeId>,
    under: Picture,
)
    requires
        s.wf(),
        limit <= s.nodes.len(),
    ensures
        pixels(s.with_element(limit, id, clips, under)) == pixels(under) + if id < limit && seen(
            s,
            id,
        ) {
            layers_of(s, id) + clipped_layers(s, limit, clips)
        } else {
            seq![]
        },
    decreases limit, 2int, 0int,
{
    let drawn = s.with_element(limit, id, clips, under);
    if id < limit && seen(s, id) {
        if s.passes_through(id) && !s.any_visible(clips) {
            assert(document::ids_below(s.nodes[id as int].children(), id as int));
            stack_shows_layers(s, id as int, s.nodes[id as int].children(), under);
            unseen_clips_show_nothing(s, limit, clips);
        } else {
            alone_shows_layers(s, id);
            clips_show_layers(s, limit, s.isolated(id), clips);
        }
        assert(pixels(drawn) =~= pixels(under) + (layers_of(s, id) + clipped_layers(
            s,
            limit,
            clips,
        )));
    } else {
        assert(pixels(drawn) =~= pixels(under) + Seq::<NodeId>::empty());
    }
}

/// Clipped nodes right above the first node are clipped to it.
proof fn bases_of_clips(s: Scene, ids: Seq<NodeId>, i: int)
    requires
        0 <= i < ids.len(),
        forall|k: int| 1 <= k <= i ==> s.nodes[#[trigger] ids[k] as int].clipped,
    ensures
        base(s, ids, i) == 0,
    decreases i,
{
    if i > 0 {
        assert(s.nodes[ids[i] as int].clipped);
        bases_of_clips(s, ids, i - 1);
    }
}

/// Between the first node and where the clipped ones end, all are clipped.
proof fn clips_are_clipped(s: Scene, ids: Seq<NodeId>, from: int)
    requires
        0 <= from <= ids.len(),
    ensures
        from <= s.clips_end(ids, from) <= ids.len(),
        forall|k: int|
            from <= k < s.clips_end(ids, from) ==> s.nodes[#[trigger] ids[k] as int].clipped,
        s.clips_end(ids, from) < ids.len() ==> !s.nodes[ids[s.clips_end(
            ids,
            from,
        )] as int].clipped,
    decreases ids.len() - from,
{
    if from < ids.len() && s.nodes[ids[from] as int].clipped {
        clips_are_clipped(s, ids, from + 1);
    }
}

/// What a node and its clipped nodes show.
proof fn group_of_clips_shows(s: Scene, limit: int, ids: Seq<NodeId>, end: int)
    requires
        1 <= end <= ids.len(),
        ids[0] < limit,
        forall|k: int| 1 <= k < end ==> s.nodes[#[trigger] ids[k] as int].clipped,
    ensures
        shown_layers(s, limit, ids.take(end)) == if seen(s, ids[0]) {
            layers_of(s, ids[0]) + clipped_layers(s, limit, ids.subrange(1, end))
        } else {
            seq![]
        },
    decreases end,
{
    let part = ids.take(end);
    bases_of_clips(s, part, end - 1);
    assert(part[end - 1] == ids[end - 1] && part[0] == ids[0]);
    assert(part.drop_last() =~= ids.take(end - 1));
    let clips = ids.subrange(1, end);
    if end > 1 {
        group_of_clips_shows(s, limit, ids, end - 1);
        assert(clips.drop_last() =~= ids.subrange(1, end - 1));
        assert(clips.last() == ids[end - 1]);
    } else {
        assert(clips =~= seq![]);
        assert(shown_layers(s, limit, ids.take(0)) =~= seq![]);
    }
    if seen(s, ids[0]) {
        assert(shown_layers(s, limit, part) =~= layers_of(s, ids[0]) + clipped_layers(
            s,
            limit,
            clips,
        ));
    } else {
        assert(shown_layers(s, limit, part) =~= seq![]);
    }
}

/// A base lies where it lies whatever comes before a node that is not clipped.
proof fn bases_of_rest(s: Scene, a: Seq<NodeId>, b: Seq<NodeId>, i: int)
    requires
        0 <= i < b.len(),
        !s.nodes[b[0] as int].clipped,
    ensures
        base(s, a + b, a.len() + i) == a.len() + base(s, b, i),
        0 <= base(s, b, i) <= i,
    decreases i,
{
    assert((a + b)[a.len() + i] == b[i]);
    if i > 0 && s.nodes[b[i] as int].clipped {
        bases_of_rest(s, a, b, i - 1);
    }
}

proof fn bases_of_front(s: Scene, a: Seq<NodeId>, b: Seq<NodeId>, i: int)
    requires
        0 <= i < a.len(),
    ensures
        base(s, a + b, i) == base(s, a, i),
        0 <= base(s, a, i) <= i,
    decreases i,
{
    assert((a + b)[i] == a[i]);
    if i > 0 {
        bases_of_front(s, a, b, i - 1);
    }
}

/// What shows of two lists is what shows of the one and then of the other, where the second begins
/// with a node that is not clipped.
proof fn shown_of_two(s: Scene, limit: int, a: Seq<NodeId>, b: Seq<NodeId>)
    requires
        b.len() > 0 ==> !s.nodes[b[0] as int].clipped,
    ensures
        shown_layers(s, limit, a + b) == shown_layers(s, limit, a) + shown_layers(s, limit, b),
    decreases b.len(),
{
    if b.len() == 0 {
        assert(a + b =~= a);
        assert(shown_layers(s, limit, a) + shown_layers(s, limit, b) =~= shown_layers(s, limit, a));
    } else {
        let i = b.len() - 1;
        bases_of_rest(s, a, b, i);
        if i > 0 {
            assert(b.drop_last()[0] == b[0]);
        }
        shown_of_two(s, limit, a, b.drop_last());
        assert((a + b).drop_last() =~= a + b.drop_last());
        assert((a + b)[a.len() + i] == b[i]);
        assert((a + b)[a.len() + base(s, b, i)] == b[base(s, b, i)]);
        assert(shown_layers(s, limit, a + b) =~= shown_layers(s, limit, a) + shown_layers(
            s,
            limit,
            b,
        ));
    }
}

/// What nodes add to a picture are the layers that show among them, from bottom to top.
pub proof fn stack_shows_layers(s: Scene, limit: int, ids: Seq<NodeId>, under: Picture)
    requires
        s.wf(),
        limit <= s.nodes.len(),
        document::ids_below(ids, limit),
    ensures
        pixels(s.stacked(limit, ids, under)) == pixels(under) + shown_layers(s, limit, ids),
    decreases limit, 3int, ids.len(),
{
    if ids.len() == 0 {
        assert(pixels(under) + shown_layers(s, limit, ids) =~= pixels(under));
    } else {
        let end = s.clips_end(ids, 1);
        clips_are_clipped(s, ids, 1);
        let rest = ids.skip(end);
        let clips = ids.subrange(1, end);
        let next = s.with_element(limit, ids[0], clips, under);
        element_shows_layers(s, limit, ids[0], clips, under);
        group_of_clips_shows(s, limit, ids, end);
        assert(ids =~= ids.take(end) + rest);
        shown_of_two(s, limit, ids.take(end), rest);
        assert forall|k: int| 0 <= k < rest.len() implies (#[trigger] rest[k]) < limit by {
            assert(rest[k] == ids[end + k]);
        }
        stack_shows_layers(s, limit, rest, next);
        assert(pixels(s.stacked(limit, ids, under)) =~= pixels(under) + shown_layers(
            s,
            limit,
            ids,
        ));
    }
}

/// The row of a document holds the pixels of the layers that show, and of no others, from bottom to
/// top. Masks, opacities and blend modes do not matter for that.
pub proof fn rows_hold_what_shows(doc: document::DocumentView, visible: Seq<bool>, y: i32)
    requires
        doc.wf(),
        visible.len() == doc.nodes.len(),
    ensures
        pixels(plan::picture(doc, visible, y)) == shown_layers(
            Scene { nodes: doc.nodes, visible, y },
            doc.nodes.len() as int,
            doc.root,
        ),
{
    let s = Scene { nodes: doc.nodes, visible, y };
    stack_shows_layers(s, doc.nodes.len() as int, doc.root, Picture::Clear);
    assert(pixels(Picture::Clear) + shown_layers(s, doc.nodes.len() as int, doc.root)
        =~= shown_layers(s, doc.nodes.len() as int, doc.root));
}

/// Whether the places in `path`, the first of them in `ids` and each of the others among the
/// children of the node before it, lead to the layer `id` through nodes that are seen and are
/// clipped to nodes that are seen.
pub open spec fn leads_to(s: Scene, ids: Seq<NodeId>, path: Seq<int>, id: NodeId) -> bool
    decreases path.len(),
{
    &&& path.len() > 0
    &&& 0 <= path[0] < ids.len()
    &&& seen(s, ids[path[0]])
    &&& seen(s, ids[base(s, ids, path[0])])
    &&& if path.len() == 1 {
        ids[path[0]] == id && s.nodes[id as int].kind is Layer
    } else {
        s.nodes[ids[path[0]] as int].kind is Group && leads_to(
            s,
            s.nodes[ids[path[0]] as int].children(),
            path.skip(1),
            id,
        )
    }
}

/// What a node shows is among what its list shows.
proof fn parts_are_shown(s: Scene, limit: int, ids: Seq<NodeId>, i: int, id: NodeId)
    requires
        document::ids_below(ids, limit),
        0 <= i < ids.len(),
        seen(s, ids[i]),
        seen(s, ids[base(s, ids, i)]),
        layers_of(s, ids[i]).contains(id),
    ensures
        shown_layers(s, limit, ids).contains(id),
    decreases ids.len(),
{
    let before = ids.drop_last();
    let rest = shown_layers(s, limit, before);
    let all = shown_layers(s, limit, ids);
    if i < before.len() {
        bases_of_front(s, before, seq![ids.last()], i);
        assert(before + seq![ids.last()] =~= ids);
        assert(before[i] == ids[i] && before[base(s, before, i)] == ids[base(s, ids, i)]);
        parts_are_shown(s, limit, before, i, id);
        let k = choose|k: int| 0 <= k < rest.len() && rest[k] == id;
        assert(all[k] == id);
    } else {
        let own = layers_of(s, ids[i]);
        let k = choose|k: int| 0 <= k < own.len() && own[k] == id;
        assert(ids[i] < limit);
        assert(all[rest.len() + k] == id);
    }
}

proof fn led_layers_are_shown(s: Scene, limit: int, ids: Seq<NodeId>, path: Seq<int>, id: NodeId)
    requires
        s.wf(),
        limit <= s.nodes.len(),
        document::ids_below(ids, limit),
        leads_to(s, ids, path, id),
    ensures
        shown_layers(s, limit, ids).contains(id),
    decreases path.len(),
{
    let at = ids[path[0]];
    assert(at < limit);
    if path.len() == 1 {
        assert(layers_of(s, id)[0] == id);
    } else {
        assert(document::ids_below(s.nodes[at as int].children(), at as int));
        led_layers_are_shown(s, at as int, s.nodes[at as int].children(), path.skip(1), id);
    }
    parts_are_shown(s, limit, ids, path[0], id);
}

/// Shown layers are drawn, each of them once: where a layer is seen, and so are the groups around it
/// and the nodes to which it and they are clipped, its pixels are in the row exactly once, whatever
/// its masks, its opacity and its blend mode are.
pub proof fn shown_layers_are_drawn_once(
    file: psd::PsdView,
    visible: Seq<bool>,
    y: i32,
    path: Seq<int>,
    id: NodeId,
)
    requires
        file.layers.len() <= usize::MAX,
        visible.len() == document::document_of(file).nodes.len(),
        leads_to(
            Scene { nodes: document::document_of(file).nodes, visible, y },
            document::document_of(file).root,
            path,
            id,
        ),
    ensures
        ({
            let p = pixels(plan::picture(document::document_of(file), visible, y));
            exists|k: int|
                0 <= k < p.len() && #[trigger] p[k] == id && forall|i: int|
                    0 <= i < p.len() && #[trigger] p[i] == id ==> i == k
        }),
{
    let doc = document::document_of(file);
    let s = Scene { nodes: doc.nodes, visible, y };
    forest::documents_are_sound(file);
    rows_rise(file, visible, y);
    rows_hold_what_shows(doc, visible, y);
    led_layers_are_shown(s, doc.nodes.len() as int, doc.root, path, id);
    let p = pixels(plan::picture(doc, visible, y));
    let k = choose|k: int| 0 <= k < p.len() && p[k] == id;
    assert forall|i: int| 0 <= i < p.len() && #[trigger] p[i] == id implies i == k by {
        if i < k {
            assert(p[i] < p[k]);
        } else if k < i {
            assert(p[k] < p[i]);
        }
    }
}

/// Whether the lists of children rise and keep apart.
spec fn lists_are_sound(nodes: Seq<node::NodeView>) -> bool {
    forall|i: int|
        0 <= i < nodes.len() ==> forest::rises((#[trigger] nodes[i]).children()) && forest::apart(
            nodes,
            nodes[i].children(),
        )
}

/// What a node shows lies between the lowest node in it and itself, and rises.
proof fn node_layers_rise(s: Scene, id: NodeId)
    requires
        s.wf(),
        lists_are_sound(s.nodes),
        id < s.nodes.len(),
    ensures
        forest::rises(layers_of(s, id)),
        forall|k: int|
            0 <= k < layers_of(s, id).len() ==> forest::lowest(s.nodes, id) <= #[trigger] layers_of(
                s,
                id,
            )[k] <= id,
        forest::lowest(s.nodes, id) <= id,
    decreases id, 2int, 0int,
{
    let children = s.nodes[id as int].children();
    assert(document::ids_below(s.nodes[id as int].children(), id as int));
    if children.len() > 0 {
        assert(children[0] < id);
        node_layers_rise(s, children[0]);
        list_layers_rise(s, id as int, children);
        assert(children.last() == children[children.len() - 1]);
    }
    match s.nodes[id as int].kind {
        node::KindView::Group { children, .. } => {
            assert(layers_of(s, id) == shown_layers(s, id as int, children));
        },
        _ => {},
    }
}

/// What a list shows lies between the lowest node in its first one and its last one, and rises.
proof fn list_layers_rise(s: Scene, limit: int, ids: Seq<NodeId>)
    requires
        s.wf(),
        lists_are_sound(s.nodes),
        limit <= s.nodes.len(),
        document::ids_below(ids, limit),
        forest::rises(ids),
        forest::apart(s.nodes, ids),
    ensures
        forest::rises(shown_layers(s, limit, ids)),
        ids.len() == 0 ==> shown_layers(s, limit, ids).len() == 0,
        forall|k: int|
            0 <= k < shown_layers(s, limit, ids).len() ==> forest::lowest(s.nodes, ids[0])
                <= #[trigger] shown_layers(s, limit, ids)[k] <= ids.last(),
    decreases limit, 1int, ids.len(),
{
    if ids.len() > 0 {
        let before = ids.drop_last();
        let last = ids.last();
        assert(last == ids[ids.len() - 1]);
        assert forall|i: int| 0 <= i < before.len() implies (#[trigger] before[i]) < limit by {
            assert(before[i] == ids[i]);
        }
        assert forall|i: int, j: int| 0 <= i < j < before.len() implies (#[trigger] before[i]) < (
        #[trigger] before[j]) by {
            assert(ids[i] < ids[j]);
        }
        assert forall|i: int| 0 < i < before.len() implies before[i - 1] < #[trigger] forest::lowest(
            s.nodes,
            before[i],
        ) by {
            assert(ids[i - 1] < forest::lowest(s.nodes, ids[i]));
        }
        list_layers_rise(s, limit, before);
        node_layers_rise(s, last);
        let rest = shown_layers(s, limit, before);
        let own = layers_of(s, last);
        let all = shown_layers(s, limit, ids);
        if before.len() > 0 {
            let i = ids.len() - 1;
            assert(ids[i - 1] < forest::lowest(s.nodes, ids[i]));
            assert(before.last() == ids[i - 1]);
            assert(before[0] == ids[0]);
            assert(ids[0] < limit);
            node_layers_rise(s, ids[0]);
            assert(ids[i - 1] < ids[i]);
            lists_go_up(s.nodes, ids);
        }
        assert(all == rest || all == rest + own);
        assert forall|k: int| 0 <= k < all.len() implies forest::lowest(s.nodes, ids[0])
            <= #[trigger] all[k] <= last by {
            if k < rest.len() {
                assert(all[k] == rest[k]);
            } else {
                assert(all[k] == own[k - rest.len()]);
            }
        }
        assert forall|i: int, j: int| 0 <= i < j < all.len() implies (#[trigger] all[i]) < (
        #[trigger] all[j]) by {
            if j < rest.len() {
                assert(rest[i] < rest[j]);
            } else if i < rest.len() {
                assert(rest[i] <= before.last());
                assert(own[j - rest.len()] >= forest::lowest(s.nodes, last));
            } else {
                assert(own[i - rest.len()] < own[j - rest.len()]);
            }
        }
    }
}

/// The lowest node in the first of a list lies no higher than the lowest in its last.
proof fn lists_go_up(nodes: Seq<node::NodeView>, ids: Seq<NodeId>)
    requires
        ids.len() > 1,
        forest::rises(ids),
        forest::apart(nodes, ids),
        forest::lowest(nodes, ids[0]) <= ids[0],
    ensures
        forest::lowest(nodes, ids[0]) <= forest::lowest(nodes, ids.last()),
{
    let i = ids.len() - 1;
    assert(ids[i - 1] < forest::lowest(nodes, ids[i]));
    if i > 1 {
        assert(ids[0] < ids[i - 1]);
    }
}

/// The layers whose pixels are in the row of a document stand in the order of the file, each of
/// them once.
pub proof fn rows_rise(file: psd::PsdView, visible: Seq<bool>, y: i32)
    requires
        file.layers.len() <= usize::MAX,
        visible.len() == document::document_of(file).nodes.len(),
    ensures
        forest::rises(pixels(plan::picture(document::document_of(file), visible, y))),
{
    let doc = document::document_of(file);
    let s = Scene { nodes: doc.nodes, visible, y };
    forest::documents_are_sound(file);
    forest::documents_keep_the_order_of_the_file(file);
    forest::documents_keep_nodes_apart(file);
    rows_hold_what_shows(doc, visible, y);
    list_layers_rise(s, doc.nodes.len() as int, doc.root);
}

/// A node by itself: the pixels of a layer, or the children of a group on a transparent row, behind
/// its masks where it has some. What cannot be drawn is transparent.
pub open spec fn alone(s: Scene, id: NodeId) -> Picture {
    let n = s.nodes[id as int];
    match n.kind {
        node::KindView::Layer(_) => Picture::Layer { node: id },
        node::KindView::Group { children, .. } => if n.masks.len() > 0 {
            Picture::Masked {
                row: Box::new(s.stacked(id as int, children, Picture::Clear)),
                node: id,
            }
        } else {
            s.stacked(id as int, children, Picture::Clear)
        },
        node::KindView::Unsupported { .. } => Picture::Clear,
    }
}

/// A row with the clipped nodes that are seen laid over it one after another, where it is not
/// transparent.
pub open spec fn with_clipped(s: Scene, row: Picture, clips: Seq<NodeId>) -> Picture
    decreases clips.len(),
{
    if clips.len() == 0 {
        row
    } else {
        let before = with_clipped(s, row, clips.drop_last());
        if seen(s, clips.last()) {
            Picture::Atop {
                under: Box::new(before),
                over: Box::new(alone(s, clips.last())),
                node: clips.last(),
            }
        } else {
            before
        }
    }
}

proof fn alone_is_isolated(s: Scene, id: NodeId)
    ensures
        s.isolated(id) == alone(s, id),
{
}

proof fn clipped_are_laid(s: Scene, limit: int, row: Picture, clips: Seq<NodeId>)
    requires
        document::ids_below(clips, limit),
    ensures
        s.with_clips(limit, row, clips) == with_clipped(s, row, clips),
    decreases clips.len(),
{
    if clips.len() > 0 {
        let before = clips.drop_last();
        assert forall|i: int| 0 <= i < before.len() implies (#[trigger] before[i]) < limit by {
            assert(before[i] == clips[i]);
        }
        clipped_are_laid(s, limit, row, before);
        assert(clips.last() == clips[clips.len() - 1]);
        alone_is_isolated(s, clips.last());
    }
}

/// A node that is seen is laid over what is below it, with its opacity and blend mode, after the
/// nodes that are clipped to it have been laid over it. A pass-through group to which nothing that
/// is switched on is clipped is drawn directly on what is below it, and turns into that as far as
/// its opacity and its masks let it. A node that is not seen leaves what is below it.
pub proof fn nodes_are_laid_over(
    s: Scene,
    limit: int,
    id: NodeId,
    clips: Seq<NodeId>,
    under: Picture,
)
    requires
        id < limit,
        document::ids_below(clips, limit),
        forall|i: int| 0 <= i < clips.len() ==> s.nodes[#[trigger] clips[i] as int].clipped,
    ensures
        ({
            let n = s.nodes[id as int];
            let drawn = s.stacked(limit, seq![id] + clips, under);
            if !seen(s, id) {
                drawn == under
            } else if n.kind matches node::KindView::Group { children, pass_through, .. }
                && pass_through && forall|i: int|
                0 <= i < clips.len() ==> !s.visible[#[trigger] clips[i] as int] {
                let row = s.stacked(id as int, n.children(), under);
                if n.opacity < 255 || n.masks.len() > 0 {
                    drawn == (Picture::Mixed {
                        under: Box::new(under),
                        over: Box::new(row),
                        node: id,
                    })
                } else {
                    drawn == row
                }
            } else {
                drawn == (Picture::Over {
                    under: Box::new(under),
                    over: Box::new(with_clipped(s, alone(s, id), clips)),
                    node: id,
                })
            }
        }),
{
    let ids = seq![id] + clips;
    clips_are_clipped(s, ids, 1);
    let end = s.clips_end(ids, 1);
    if end < ids.len() {
        assert(ids[end] == clips[end - 1]);
    }
    assert(ids.subrange(1, end) =~= clips);
    assert(ids.skip(end) =~= seq![]);
    let next = s.with_element(limit, id, clips, under);
    assert(s.stacked(limit, ids.skip(end), next) == next);
    assert(s.stacked(limit, ids, under) == next);
    if seen(s, id) {
        alone_is_isolated(s, id);
        clipped_are_laid(s, limit, alone(s, id), clips);
        if s.any_visible(clips) {
            let i = choose|i: int| 0 <= i < clips.len() && s.visible[#[trigger] clips[i] as int];
            assert(s.visible[clips[i] as int]);
        }
    }
}

/// Nodes are drawn one after another from bottom to top: those of a second list on what those of
/// the first have left, where the second list begins with a node that is not clipped.
pub proof fn nodes_are_drawn_in_turn(
    s: Scene,
    limit: int,
    a: Seq<NodeId>,
    b: Seq<NodeId>,
    under: Picture,
)
    requires
        b.len() > 0 ==> !s.nodes[b[0] as int].clipped,
    ensures
        s.stacked(limit, a + b, under) == s.stacked(limit, b, s.stacked(limit, a, under)),
        s.stacked(limit, seq![], under) == under,
    decreases a.len(),
{
    if a.len() == 0 {
        assert(a + b =~= b);
    } else {
        let ids = a + b;
        clips_are_clipped(s, a, 1);
        clips_are_clipped(s, ids, 1);
        let end = s.clips_end(a, 1);
        let other = s.clips_end(ids, 1);
        if other < end {
            assert(ids[other] == a[other]);
        }
        if end < other {
            if end < a.len() {
                assert(ids[end] == a[end]);
            } else {
                assert(ids[end] == b[0]);
            }
        }
        assert(ids[0] == a[0]);
        assert(ids.subrange(1, end) =~= a.subrange(1, end));
        assert(ids.skip(end) =~= a.skip(end) + b);
        let next = s.with_element(limit, a[0], a.subrange(1, end), under);
        nodes_are_drawn_in_turn(s, limit, a.skip(end), b, next);
    }
}

} // verus!
