//! What holds of every layer tree.
use vstd::prelude::*;

use crate::bounds;
use crate::bounds::Bounds;
use crate::document;
use crate::layers;
use crate::node;
use crate::node::NodeId;
use crate::psd;
use crate::warning;

verus! {

/// The children of all the nodes, one list after another.
pub open spec fn all_children(nodes: Seq<node::NodeView>) -> Seq<NodeId>
    decreases nodes.len(),
{
    if nodes.len() == 0 {
        seq![]
    } else {
        all_children(nodes.drop_last()) + nodes.last().children()
    }
}

/// How often a node stands in the tree, at the root or in a group.
pub open spec fn places(root: Seq<NodeId>, nodes: Seq<node::NodeView>, id: NodeId) -> nat {
    root.to_multiset().count(id) + all_children(nodes).to_multiset().count(id)
}

/// How often a sequence made of two holds something.
proof fn count_joined(a: Seq<NodeId>, b: Seq<NodeId>, id: NodeId)
    ensures
        (a + b).to_multiset().count(id) == a.to_multiset().count(id) + b.to_multiset().count(id),
{
    vstd::seq_lib::lemma_multiset_commutative(a, b);
}

/// How often a longer sequence holds something.
proof fn count_pushed(s: Seq<NodeId>, a: NodeId, id: NodeId)
    ensures
        s.push(a).to_multiset().count(id) == s.to_multiset().count(id) + if a == id {
            1nat
        } else {
            0
        },
{
    s.to_multiset_ensures();
}

/// How often the empty sequence holds something.
proof fn count_empty(id: NodeId)
    ensures
        Seq::<NodeId>::empty().to_multiset().count(id) == 0,
{
    Seq::<NodeId>::empty().to_multiset_ensures();
}

/// A child of the innermost group comes last.
proof fn flat_with_child(stack: Seq<Seq<NodeId>>, id: NodeId)
    requires
        stack.len() > 0,
    ensures
        document::flat(document::with_child(stack, id)) == document::flat(stack).push(id),
{
    let after = document::with_child(stack, id);
    assert(after.drop_last() =~= stack.drop_last());
    assert(document::flat(after) =~= document::flat(stack).push(id));
}

/// The children of all the nodes and of one more.
proof fn all_children_pushed(nodes: Seq<node::NodeView>, n: node::NodeView)
    ensures
        all_children(nodes.push(n)) == all_children(nodes) + n.children(),
{
    assert(nodes.push(n).drop_last() =~= nodes);
}

/// Whether each node of a tree under construction has exactly one place.
spec fn one_place_each(b: document::BuildView) -> bool {
    forall|id: NodeId| #[trigger]
        places(document::flat(b.stack), b.nodes, id) == if id < b.nodes.len() {
            1nat
        } else {
            0
        }
}

/// A record gives its node one place, and leaves the others theirs.
proof fn record_keeps_places(b: document::BuildView, rec: layers::LayerView, canvas: Bounds)
    requires
        one_place_each(b),
        b.stack.len() > 0,
        b.nodes.len() <= usize::MAX,
    ensures
        one_place_each(document::with_record(b, rec, canvas)),
        document::with_record(b, rec, canvas).stack.len() > 0,
{
    let after = document::with_record(b, rec, canvas);
    let n = b.nodes.len() as usize;
    assert forall|id: NodeId| #[trigger]
        places(document::flat(after.stack), after.nodes, id) == if id < after.nodes.len() {
            1nat
        } else {
            0
        } by {
        assert(places(document::flat(b.stack), b.nodes, id) == if id < n {
            1nat
        } else {
            0
        });
        if rec.divider == 3 {
            assert(after.stack.drop_last() =~= b.stack);
            assert(document::flat(after.stack) =~= document::flat(b.stack));
        } else {
            all_children_pushed(b.nodes, after.nodes.last());
            assert(after.nodes =~= b.nodes.push(after.nodes.last()));
            let children = after.nodes.last().children();
            count_joined(all_children(b.nodes), children, id);
            count_empty(id);
            if (rec.divider == 1 || rec.divider == 2) && b.stack.len() > 1 {
                flat_with_child(b.stack.drop_last(), n);
                count_joined(document::flat(b.stack.drop_last()), children, id);
                count_pushed(document::flat(b.stack.drop_last()), n, id);
            } else {
                assert(children =~= Seq::<NodeId>::empty());
                flat_with_child(b.stack, n);
                count_pushed(document::flat(b.stack), n, id);
            }
        }
    }
}

/// A tree of `n` records has at most `n` nodes, each with exactly one place.
proof fn built_gives_one_place_each(
    recs: Seq<layers::LayerView>,
    canvas: Bounds,
    warnings: Seq<warning::WarningView>,
)
    requires
        recs.len() <= usize::MAX,
    ensures
        one_place_each(document::built(recs, canvas, warnings)),
        document::built(recs, canvas, warnings).stack.len() > 0,
        document::built(recs, canvas, warnings).nodes.len() <= recs.len(),
    decreases recs.len(),
{
    let b = document::built(recs, canvas, warnings);
    if recs.len() == 0 {
        assert(b.stack.drop_last() =~= seq![]);
        reveal_with_fuel(document::flat, 2);
        assert(document::flat(b.stack) =~= seq![]);
        assert forall|id: NodeId| #[trigger]
            places(document::flat(b.stack), b.nodes, id) == 0 by {
            count_empty(id);
        }
    } else {
        built_gives_one_place_each(recs.drop_last(), canvas, warnings);
        record_keeps_places(
            document::built(recs.drop_last(), canvas, warnings),
            recs.last(),
            canvas,
        );
    }
}

/// A tree has no more nodes than records, and its root is always there.
pub proof fn trees_are_small(
    recs: Seq<layers::LayerView>,
    canvas: Bounds,
    warnings: Seq<warning::WarningView>,
)
    requires
        recs.len() <= usize::MAX,
    ensures
        document::built(recs, canvas, warnings).stack.len() > 0,
        document::built(recs, canvas, warnings).nodes.len() <= recs.len(),
{
    built_gives_one_place_each(recs, canvas, warnings);
}

/// Every node of a document stands in exactly one place: at the root, or in one group.
pub proof fn every_node_has_one_place(file: psd::PsdView, id: NodeId)
    requires
        file.layers.len() <= usize::MAX,
    ensures
        ({
            let doc = document::document_of(file);
            places(doc.root, doc.nodes, id) == if id < doc.nodes.len() {
                1nat
            } else {
                0
            }
        }),
{
    let canvas = document::canvas_of(file.width, file.height);
    let b = document::built(file.layers, canvas, file.warnings);
    let doc = document::document_of(file);
    built_gives_one_place_each(file.layers, canvas, file.warnings);
    assert(places(document::flat(b.stack), b.nodes, id) == if id < b.nodes.len() {
        1nat
    } else {
        0
    });
    if b.nodes.len() == 0 && file.merged.len() > 0 {
        count_pushed(document::flat(b.stack), 0, id);
        assert(doc.nodes.drop_last() =~= seq![]);
        reveal_with_fuel(all_children, 2);
        assert(all_children(doc.nodes) =~= seq![]);
        assert(all_children(b.nodes) =~= seq![]);
    }
}

/// Whether every point of `inner` lies in `outer`.
pub open spec fn covers(outer: Bounds, inner: Bounds) -> bool {
    forall|x: int, y: int| inner.contains(x, y) ==> #[trigger] outer.contains(x, y)
}

/// Whether every group covers its children.
pub open spec fn groups_cover(nodes: Seq<node::NodeView>) -> bool {
    forall|i: int, k: int|
        0 <= i < nodes.len() && 0 <= k < nodes[i].children().len() ==> covers(
            nodes[i].bounds,
            nodes[#[trigger] nodes[i].children()[k] as int].bounds,
        )
}

/// The rectangle of the children covers each of them.
proof fn children_bounds_cover(nodes: Seq<node::NodeView>, children: Seq<NodeId>, k: int)
    requires
        0 <= k < children.len(),
    ensures
        covers(
            document::children_bounds(nodes, children),
            nodes[children[k] as int].bounds,
        ),
    decreases children.len(),
{
    let before = document::children_bounds(nodes, children.drop_last());
    let last = nodes[children.last() as int].bounds;
    bounds::union_is_the_least_cover(before, last, last);
    if k < children.len() - 1 {
        children_bounds_cover(nodes, children.drop_last(), k);
        let inner = nodes[children[k] as int].bounds;
        assert forall|x: int, y: int| inner.contains(x, y) implies #[trigger] before.joined(
            last,
        ).contains(x, y) by {
            assert(before.contains(x, y));
        }
    }
}

/// A record keeps the groups covering.
proof fn record_keeps_cover(b: document::BuildView, rec: layers::LayerView, canvas: Bounds)
    requires
        b.wf(),
        groups_cover(b.nodes),
        b.nodes.len() <= usize::MAX,
    ensures
        groups_cover(document::with_record(b, rec, canvas).nodes),
{
    let after = document::with_record(b, rec, canvas).nodes;
    let n = b.nodes.len() as int;
    assert forall|i: int, k: int|
        0 <= i < after.len() && 0 <= k < after[i].children().len() implies covers(
        after[i].bounds,
        after[#[trigger] after[i].children()[k] as int].bounds,
    ) by {
        let c = after[i].children()[k] as int;
        if i < n {
            assert(after[i] == b.nodes[i]);
            assert(document::ids_below(b.nodes[i].children(), i));
            assert(after[c] == b.nodes[c]);
            assert(covers(b.nodes[i].bounds, b.nodes[b.nodes[i].children()[k] as int].bounds));
        } else {
            let children = b.stack.last();
            assert(children == b.stack[b.stack.len() - 1]);
            assert(document::ids_below(children, n));
            children_bounds_cover(b.nodes, children, k);
            assert(after[c] == b.nodes[c]);
        }
    }
}

/// A tree of records is sound, and its groups cover their children.
proof fn built_covers(
    recs: Seq<layers::LayerView>,
    canvas: Bounds,
    warnings: Seq<warning::WarningView>,
)
    requires
        recs.len() <= usize::MAX,
    ensures
        document::built(recs, canvas, warnings).wf(),
        groups_cover(document::built(recs, canvas, warnings).nodes),
        document::built(recs, canvas, warnings).nodes.len() <= recs.len(),
    decreases recs.len(),
{
    if recs.len() > 0 {
        built_covers(recs.drop_last(), canvas, warnings);
        let before = document::built(recs.drop_last(), canvas, warnings);
        document::record_keeps_wf(before, recs.last(), canvas);
        record_keeps_cover(before, recs.last(), canvas);
    }
}

/// Every id of a document is that of a node, children come before their group, and the rectangle
/// of a group covers those of its children.
pub proof fn documents_are_sound(file: psd::PsdView)
    requires
        file.layers.len() <= usize::MAX,
    ensures
        document::document_of(file).wf(),
        groups_cover(document::document_of(file).nodes),
{
    let canvas = document::canvas_of(file.width, file.height);
    let b = document::built(file.layers, canvas, file.warnings);
    built_covers(file.layers, canvas, file.warnings);
    document::flat_ids(b.stack, b.nodes.len() as int);
}

/// Whether every id is larger than those before it.
pub open spec fn rises(s: Seq<NodeId>) -> bool {
    forall|i: int, j: int| 0 <= i < j < s.len() ==> (#[trigger] s[i]) < (#[trigger] s[j])
}

/// Whether the children of every node rise.
pub open spec fn children_rise(nodes: Seq<node::NodeView>) -> bool {
    forall|i: int| 0 <= i < nodes.len() ==> rises((#[trigger] nodes[i]).children())
}

/// Whether the rectangle of every group is exactly the join of those of its children.
pub open spec fn groups_join(nodes: Seq<node::NodeView>) -> bool {
    forall|i: int|
        0 <= i < nodes.len() && (#[trigger] nodes[i]).kind is Group ==> nodes[i].bounds
            == document::children_bounds(nodes, nodes[i].children())
}

/// What the children take does not depend on later nodes.
proof fn children_bounds_stay(
    nodes: Seq<node::NodeView>,
    n: node::NodeView,
    children: Seq<NodeId>,
)
    requires
        document::ids_below(children, nodes.len() as int),
    ensures
        document::children_bounds(nodes, children) == document::children_bounds(
            nodes.push(n),
            children,
        ),
    decreases children.len(),
{
    if children.len() > 0 {
        let before = children.drop_last();
        assert(children.last() == children[children.len() - 1]);
        assert forall|i: int| 0 <= i < before.len() implies (#[trigger] before[i])
            < nodes.len() by {
            assert(before[i] == children[i]);
        }
        children_bounds_stay(nodes, n, before);
    }
}

/// A record keeps the lists rising and the groups joined.
proof fn record_keeps_order(b: document::BuildView, rec: layers::LayerView, canvas: Bounds)
    requires
        b.wf(),
        b.nodes.len() <= usize::MAX,
        rises(document::flat(b.stack)),
        children_rise(b.nodes),
        groups_join(b.nodes),
    ensures
        ({
            let after = document::with_record(b, rec, canvas);
            &&& rises(document::flat(after.stack))
            &&& children_rise(after.nodes)
            &&& groups_join(after.nodes)
        }),
{
    let after = document::with_record(b, rec, canvas);
    let n = b.nodes.len() as usize;
    let all = document::flat(b.stack);
    document::flat_ids(b.stack, n as int);
    if rec.divider == 3 {
        assert(after.stack.drop_last() =~= b.stack);
        assert(document::flat(after.stack) =~= all);
    } else {
        let top = b.stack.last();
        let below = document::flat(b.stack.drop_last());
        assert(all == below + top);
        assert(top == b.stack[b.stack.len() - 1]);
        assert(document::ids_below(top, n as int));
        assert forall|i: int, j: int| 0 <= i < j < top.len() implies (#[trigger] top[i]) < (
        #[trigger] top[j]) by {
            assert(all[below.len() + i] < all[below.len() + j]);
        }
        assert forall|i: int, j: int| 0 <= i < j < below.len() implies (#[trigger] below[i]) < (
        #[trigger] below[j]) by {
            assert(all[i] < all[j]);
        }
        assert forall|i: int| 0 <= i < below.len() implies (#[trigger] below[i]) < n by {
            assert(all[i] < n);
        }
        if (rec.divider == 1 || rec.divider == 2) && b.stack.len() > 1 {
            flat_with_child(b.stack.drop_last(), n);
        } else {
            flat_with_child(b.stack, n);
        }
        let new = after.nodes.last();
        assert(after.nodes =~= b.nodes.push(new));
        assert forall|i: int| 0 <= i < after.nodes.len() implies rises(
            (#[trigger] after.nodes[i]).children(),
        ) by {
            if i < n {
                assert(after.nodes[i] == b.nodes[i]);
            }
        }
        assert forall|i: int|
            0 <= i < after.nodes.len() && (#[trigger] after.nodes[i]).kind is Group implies
            after.nodes[i].bounds == document::children_bounds(
            after.nodes,
            after.nodes[i].children(),
        ) by {
            let children = after.nodes[i].children();
            if i < n {
                assert(after.nodes[i] == b.nodes[i]);
                assert(document::ids_below(b.nodes[i].children(), i));
            }
            children_bounds_stay(b.nodes, new, children);
        }
    }
}

/// The lists of a tree of records rise, and its groups are joined.
proof fn built_keeps_order(
    recs: Seq<layers::LayerView>,
    canvas: Bounds,
    warnings: Seq<warning::WarningView>,
)
    requires
        recs.len() <= usize::MAX,
    ensures
        ({
            let b = document::built(recs, canvas, warnings);
            &&& rises(document::flat(b.stack))
            &&& children_rise(b.nodes)
            &&& groups_join(b.nodes)
        }),
    decreases recs.len(),
{
    if recs.len() > 0 {
        built_keeps_order(recs.drop_last(), canvas, warnings);
        built_covers(recs.drop_last(), canvas, warnings);
        let before = document::built(recs.drop_last(), canvas, warnings);
        record_keeps_order(before, recs.last(), canvas);
    } else {
        let b = document::built(recs, canvas, warnings);
        assert(b.stack.drop_last() =~= seq![]);
        reveal_with_fuel(document::flat, 2);
        assert(document::flat(b.stack) =~= seq![]);
    }
}

/// The root of a document and the children of every node rise, so that they stand in the order of
/// the file, and the rectangle of a group is exactly the join of those of its children.
pub proof fn documents_keep_the_order_of_the_file(file: psd::PsdView)
    requires
        file.layers.len() <= usize::MAX,
    ensures
        rises(document::document_of(file).root),
        children_rise(document::document_of(file).nodes),
        groups_join(document::document_of(file).nodes),
{
    let canvas = document::canvas_of(file.width, file.height);
    let b = document::built(file.layers, canvas, file.warnings);
    built_keeps_order(file.layers, canvas, file.warnings);
    built_covers(file.layers, canvas, file.warnings);
    document::flat_ids(b.stack, b.nodes.len() as int);
}

/// The lowest node in a node: that in the first of its children, or the node itself.
pub open spec fn lowest(nodes: Seq<node::NodeView>, id: NodeId) -> NodeId
    decreases id,
{
    let children = nodes[id as int].children();
    if children.len() == 0 || children[0] >= id {
        id
    } else {
        lowest(nodes, children[0])
    }
}

/// Whether all that is in a node of the list comes after the node before it in the list.
pub open spec fn apart(nodes: Seq<node::NodeView>, s: Seq<NodeId>) -> bool {
    forall|i: int| 0 < i < s.len() ==> s[i - 1] < #[trigger] lowest(nodes, s[i])
}

/// Whether the children of every node keep apart.
pub open spec fn children_apart(nodes: Seq<node::NodeView>) -> bool {
    forall|i: int| 0 <= i < nodes.len() ==> apart(nodes, (#[trigger] nodes[i]).children())
}

/// The lowest node in a node does not depend on later nodes.
proof fn lowest_stays(nodes: Seq<node::NodeView>, n: node::NodeView, id: NodeId)
    requires
        id < nodes.len(),
    ensures
        lowest(nodes.push(n), id) == lowest(nodes, id),
        lowest(nodes, id) <= id,
    decreases id,
{
    let children = nodes[id as int].children();
    if children.len() > 0 && children[0] < id {
        lowest_stays(nodes, n, children[0]);
    }
}

/// A record keeps the nodes apart.
proof fn record_keeps_apart(b: document::BuildView, rec: layers::LayerView, canvas: Bounds)
    requires
        b.wf(),
        b.nodes.len() <= usize::MAX,
        rises(document::flat(b.stack)),
        apart(b.nodes, document::flat(b.stack)),
        children_apart(b.nodes),
    ensures
        ({
            let after = document::with_record(b, rec, canvas);
            apart(after.nodes, document::flat(after.stack)) && children_apart(after.nodes)
        }),
{
    let after = document::with_record(b, rec, canvas);
    let n = b.nodes.len() as usize;
    let all = document::flat(b.stack);
    document::flat_ids(b.stack, n as int);
    if rec.divider == 3 {
        assert(after.stack.drop_last() =~= b.stack);
        assert(document::flat(after.stack) =~= all);
    } else {
        let top = b.stack.last();
        let below = document::flat(b.stack.drop_last());
        assert(all == below + top);
        let new = after.nodes.last();
        assert(after.nodes =~= b.nodes.push(new));
        let closes = (rec.divider == 1 || rec.divider == 2) && b.stack.len() > 1;
        let kept = if closes {
            below
        } else {
            all
        };
        if closes {
            flat_with_child(b.stack.drop_last(), n);
        } else {
            flat_with_child(b.stack, n);
        }
        let flat = document::flat(after.stack);
        assert(flat == kept.push(n));
        assert(new.children() == if closes {
            top
        } else {
            seq![]
        });
        assert forall|i: int| 0 < i < flat.len() implies flat[i - 1] < #[trigger] lowest(
            after.nodes,
            flat[i],
        ) by {
            if i < kept.len() {
                assert(all[i] == kept[i] && all[i - 1] == kept[i - 1]);
                assert(all[i] < n);
                assert(all[i - 1] < lowest(b.nodes, all[i]));
                lowest_stays(b.nodes, new, flat[i]);
            } else {
                assert(all[i - 1] == flat[i - 1]);
                assert(all[i - 1] < n);
                if closes && top.len() > 0 {
                    assert(all[i] == top[0]);
                    assert(all[i] < n);
                    assert(all[i - 1] < lowest(b.nodes, all[i]));
                    lowest_stays(b.nodes, new, top[0]);
                }
            }
        }
        assert forall|k: int| 0 <= k < after.nodes.len() implies apart(
            after.nodes,
            (#[trigger] after.nodes[k]).children(),
        ) by {
            let children = after.nodes[k].children();
            assert forall|i: int| 0 < i < children.len() implies children[i - 1] < #[trigger] lowest(
                after.nodes,
                children[i],
            ) by {
                if k < n {
                    assert(after.nodes[k] == b.nodes[k]);
                    assert(apart(b.nodes, b.nodes[k].children()));
                    assert(document::ids_below(b.nodes[k].children(), k));
                    assert(children[i] < k);
                    assert(children[i - 1] < lowest(b.nodes, children[i]));
                    lowest_stays(b.nodes, new, children[i]);
                } else {
                    let at = below.len() + i;
                    assert(all[at] == top[i] && all[at - 1] == top[i - 1]);
                    assert(all[at] < n);
                    assert(all[at - 1] < lowest(b.nodes, all[at]));
                    lowest_stays(b.nodes, new, children[i]);
                }
            }
        }
    }
}

/// The nodes of a tree of records keep apart.
proof fn built_keeps_apart(
    recs: Seq<layers::LayerView>,
    canvas: Bounds,
    warnings: Seq<warning::WarningView>,
)
    requires
        recs.len() <= usize::MAX,
    ensures
        ({
            let b = document::built(recs, canvas, warnings);
            apart(b.nodes, document::flat(b.stack)) && children_apart(b.nodes)
        }),
    decreases recs.len(),
{
    if recs.len() > 0 {
        built_keeps_apart(recs.drop_last(), canvas, warnings);
        built_keeps_order(recs.drop_last(), canvas, warnings);
        built_covers(recs.drop_last(), canvas, warnings);
        let before = document::built(recs.drop_last(), canvas, warnings);
        record_keeps_apart(before, recs.last(), canvas);
    } else {
        let b = document::built(recs, canvas, warnings);
        assert(b.stack.drop_last() =~= seq![]);
        reveal_with_fuel(document::flat, 2);
        assert(document::flat(b.stack) =~= seq![]);
    }
}

/// All that is in a node comes after the node before it in its list: groups do not reach into each
/// other.
pub proof fn documents_keep_nodes_apart(file: psd::PsdView)
    requires
        file.layers.len() <= usize::MAX,
    ensures
        apart(document::document_of(file).nodes, document::document_of(file).root),
        children_apart(document::document_of(file).nodes),
{
    let canvas = document::canvas_of(file.width, file.height);
    let b = document::built(file.layers, canvas, file.warnings);
    built_keeps_apart(file.layers, canvas, file.warnings);
    built_covers(file.layers, canvas, file.warnings);
    document::flat_ids(b.stack, b.nodes.len() as int);
}

/// How many groups are open after the given records.
pub open spec fn depth(recs: Seq<layers::LayerView>) -> int
    decreases recs.len(),
{
    if recs.len() == 0 {
        0
    } else if recs.last().divider == 3 {
        depth(recs.drop_last()) + 1
    } else if recs.last().divider == 1 || recs.last().divider == 2 {
        depth(recs.drop_last()) - 1
    } else {
        depth(recs.drop_last())
    }
}

/// Whether every folder has its end below it, and every end its folder above it.
pub open spec fn balanced(recs: Seq<layers::LayerView>) -> bool {
    depth(recs) == 0 && forall|i: int| 0 <= i <= recs.len() ==> depth(#[trigger] recs.take(i)) >= 0
}

/// While no folder lacks its end, the stack holds the open groups and nothing is warned of.
proof fn stack_follows_depth(
    recs: Seq<layers::LayerView>,
    canvas: Bounds,
    warnings: Seq<warning::WarningView>,
)
    requires
        forall|i: int| 0 <= i <= recs.len() ==> depth(#[trigger] recs.take(i)) >= 0,
    ensures
        document::built(recs, canvas, warnings).stack.len() == depth(recs) + 1,
        document::built(recs, canvas, warnings).warnings == warnings,
    decreases recs.len(),
{
    if recs.len() > 0 {
        let before = recs.drop_last();
        assert forall|i: int| 0 <= i <= before.len() implies depth(#[trigger] before.take(i))
            >= 0 by {
            assert(before.take(i) =~= recs.take(i));
        }
        stack_follows_depth(before, canvas, warnings);
        assert(recs.take(recs.len() as int) =~= recs);
    }
}

/// Where the groups of a file are balanced, its document warns of nothing but what the file itself
/// warns of, or that it shows the merged image.
pub proof fn balanced_groups_give_no_warning(file: psd::PsdView)
    requires
        balanced(file.layers),
    ensures
        ({
            let doc = document::document_of(file);
            doc.warnings == file.warnings || doc.warnings == file.warnings.push(
                warning::WarningView::MergedImage,
            )
        }),
        file.layers.len() > 0 && file.merged.len() == 0 ==> document::document_of(file).warnings
            == file.warnings,
{
    stack_follows_depth(
        file.layers,
        document::canvas_of(file.width, file.height),
        file.warnings,
    );
}

/// The rectangle of a group is no larger than its children need: whatever rectangle holds all that
/// they hold, holds all of it.
pub proof fn groups_are_no_larger_than_needed(
    nodes: Seq<node::NodeView>,
    children: Seq<NodeId>,
    other: Bounds,
)
    requires
        forall|k: int|
            0 <= k < children.len() ==> covers(other, nodes[#[trigger] children[k] as int].bounds),
    ensures
        covers(other, document::children_bounds(nodes, children)),
    decreases children.len(),
{
    if children.len() > 0 {
        let before = children.drop_last();
        assert forall|k: int| 0 <= k < before.len() implies covers(
            other,
            nodes[#[trigger] before[k] as int].bounds,
        ) by {
            assert(before[k] == children[k]);
        }
        groups_are_no_larger_than_needed(nodes, before, other);
        let a = document::children_bounds(nodes, before);
        let b = nodes[children.last() as int].bounds;
        assert(children.last() == children[children.len() - 1]);
        bounds::union_is_the_least_cover(a, b, other);
        assert forall|x: int, y: int| a.joined(b).contains(x, y) implies #[trigger] other.contains(
            x,
            y,
        ) by {}
    }
}

} // verus!
