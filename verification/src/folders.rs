//! How the records of a file become a tree: what folders do to the records between their ends.
use vstd::prelude::*;

use crate::blend::BlendMode;
use crate::bounds::Bounds;
use crate::document;
use crate::forest;
use crate::layers;
use crate::node;
use crate::psd;
use crate::warning;

verus! {

/// A record that is neither a folder nor the end of one becomes a node on top of the innermost open
/// group, and changes nothing else.
pub proof fn layers_join_the_open_group(
    recs: Seq<layers::LayerView>,
    rec: layers::LayerView,
    canvas: Bounds,
    warnings: Seq<warning::WarningView>,
)
    requires
        rec.divider != 1,
        rec.divider != 2,
        rec.divider != 3,
        recs.len() < usize::MAX,
    ensures
        ({
            let before = document::built(recs, canvas, warnings);
            let after = document::built(recs.push(rec), canvas, warnings);
            let id = before.nodes.len() as usize;
            &&& id == before.nodes.len()
            &&& after.nodes == before.nodes.push(node::node_of(rec, None, canvas))
            &&& after.stack.drop_last() == before.stack.drop_last()
            &&& after.stack.len() == before.stack.len()
            &&& after.stack.last() == before.stack.last().push(id)
            &&& after.warnings == before.warnings
        }),
{
    let before = document::built(recs, canvas, warnings);
    let after = document::built(recs.push(rec), canvas, warnings);
    assert(recs.push(rec).drop_last() =~= recs);
    forest::trees_are_small(recs, canvas, warnings);
    assert(after.stack.drop_last() =~= before.stack.drop_last());
}

/// A folder without an end below it becomes a group without children, and is told by its name.
pub proof fn folders_without_end_are_told(
    recs: Seq<layers::LayerView>,
    rec: layers::LayerView,
    canvas: Bounds,
    warnings: Seq<warning::WarningView>,
)
    requires
        rec.divider == 1 || rec.divider == 2,
        recs.len() < usize::MAX,
        document::built(recs, canvas, warnings).stack.len() == 1,
    ensures
        ({
            let before = document::built(recs, canvas, warnings);
            let after = document::built(recs.push(rec), canvas, warnings);
            &&& after.nodes.drop_last() == before.nodes
            &&& after.nodes.last().kind is Group
            &&& after.nodes.last().children().len() == 0
            &&& after.nodes.last().bounds.empty()
            &&& after.stack == seq![before.stack[0].push(before.nodes.len() as usize)]
            &&& after.warnings == before.warnings.push(
                warning::WarningView::UnendedGroup { name: rec.name },
            )
        }),
{
    let before = document::built(recs, canvas, warnings);
    let after = document::built(recs.push(rec), canvas, warnings);
    assert(recs.push(rec).drop_last() =~= recs);
    assert(after.nodes.drop_last() =~= before.nodes);
    assert(after.stack =~= seq![before.stack[0].push(before.nodes.len() as usize)]);
}

/// While the records `inner` are added, a group that was opened before them takes what the innermost
/// group would have taken without it, and all else is the same.
proof fn groups_take_what_is_added(
    a: Seq<layers::LayerView>,
    end: layers::LayerView,
    inner: Seq<layers::LayerView>,
    canvas: Bounds,
    warnings: Seq<warning::WarningView>,
)
    requires
        end.divider == 3,
        forall|i: int| 0 <= i <= inner.len() ==> forest::depth(#[trigger] inner.take(i)) >= 0,
        a.len() + inner.len() < usize::MAX,
    ensures
        ({
            let outer = document::built(a, canvas, warnings);
            let flat = document::built(a + inner, canvas, warnings);
            let within = document::built(a.push(end) + inner, canvas, warnings);
            let m = outer.stack.len() as int;
            &&& m > 0
            &&& within.nodes == flat.nodes
            &&& within.warnings == flat.warnings
            &&& flat.stack.len() == m + forest::depth(inner)
            &&& within.stack.len() == flat.stack.len() + 1
            &&& within.stack.take(m) == outer.stack
            &&& flat.stack.take(m - 1) == outer.stack.take(m - 1)
            &&& flat.stack[m - 1] == outer.stack[m - 1] + within.stack[m]
            &&& forall|i: int|
                m <= i < flat.stack.len() ==> #[trigger] flat.stack[i] == within.stack[i + 1]
        }),
    decreases inner.len(),
{
    let outer = document::built(a, canvas, warnings);
    let m = outer.stack.len() as int;
    forest::trees_are_small(a, canvas, warnings);
    let flat = document::built(a + inner, canvas, warnings);
    let within = document::built(a.push(end) + inner, canvas, warnings);
    if inner.len() == 0 {
        assert(a + inner =~= a);
        assert(a.push(end) + inner =~= a.push(end));
        assert(a.push(end).drop_last() =~= a);
        assert(within.stack.take(m) =~= outer.stack);
        assert(flat.stack[m - 1] =~= outer.stack[m - 1] + within.stack[m]);
    } else {
        let before = inner.drop_last();
        let rec = inner.last();
        assert forall|i: int| 0 <= i <= before.len() implies forest::depth(
            #[trigger] before.take(i),
        ) >= 0 by {
            assert(before.take(i) =~= inner.take(i));
        }
        assert(inner.take(inner.len() as int) =~= inner);
        groups_take_what_is_added(a, end, before, canvas, warnings);
        assert((a + inner).drop_last() =~= a + before);
        assert((a.push(end) + inner).drop_last() =~= a.push(end) + before);
        let f = document::built(a + before, canvas, warnings);
        let w = document::built(a.push(end) + before, canvas, warnings);
        assert(flat == document::with_record(f, rec, canvas));
        assert(within == document::with_record(w, rec, canvas));
        let depth = forest::depth(before);
        let top = f.stack.len() - 1;
        if depth > 0 {
            assert(f.stack[top] == w.stack[top + 1]);
        }
        assert(within.stack.take(m) =~= outer.stack) by {
            assert(w.stack.take(m) =~= outer.stack);
            assert forall|i: int| 0 <= i < m implies within.stack[i] == outer.stack[i] by {
                assert(w.stack[i] == w.stack.take(m)[i]);
            }
        }
        assert(flat.stack.take(m - 1) =~= outer.stack.take(m - 1)) by {
            assert forall|i: int| 0 <= i < m - 1 implies flat.stack[i] == outer.stack[i] by {
                assert(f.stack[i] == f.stack.take(m - 1)[i]);
                assert(outer.stack[i] == outer.stack.take(m - 1)[i]);
            }
        }
        assert(flat.stack[m - 1] =~= outer.stack[m - 1] + within.stack[m]);
        if rec.divider == 3 {
            assert(flat.stack =~= f.stack.push(seq![]));
            assert(within.stack =~= w.stack.push(seq![]));
        } else if rec.divider == 1 || rec.divider == 2 {
            assert(depth >= 1);
            assert(f.stack.last() == w.stack.last());
        }
        assert forall|i: int| m <= i < flat.stack.len() implies #[trigger] flat.stack[i]
            == within.stack[i + 1] by {
            if i < f.stack.len() {
                assert(f.stack[i] == w.stack[i + 1]);
            }
        }
    }
}

/// A folder takes exactly the nodes of the records between its end and itself: compared with the
/// same records without the folder, these nodes stand in its list in place of the one around it, the
/// folder stands there in their place, and all other nodes and lists are the same.
pub proof fn folders_take_what_is_between(
    a: Seq<layers::LayerView>,
    end: layers::LayerView,
    inner: Seq<layers::LayerView>,
    folder: layers::LayerView,
    canvas: Bounds,
    warnings: Seq<warning::WarningView>,
)
    requires
        end.divider == 3,
        folder.divider == 1 || folder.divider == 2,
        forest::balanced(inner),
        a.len() + inner.len() + 2 < usize::MAX,
    ensures
        ({
            let outer = document::built(a, canvas, warnings);
            let flat = document::built(a + inner, canvas, warnings);
            let all = document::built((a.push(end) + inner).push(folder), canvas, warnings);
            let id = flat.nodes.len() as usize;
            let children = flat.stack.last().skip(outer.stack.last().len() as int);
            &&& all.warnings == flat.warnings
            &&& flat.stack.len() == outer.stack.len()
            &&& flat.stack.last() == outer.stack.last() + children
            &&& all.nodes.drop_last() == flat.nodes
            &&& all.nodes.last() == node::node_of(
                folder,
                Some((children, document::children_bounds(flat.nodes, children))),
                canvas,
            )
            &&& all.stack.drop_last() == outer.stack.drop_last()
            &&& all.stack.len() == outer.stack.len()
            &&& all.stack.last() == outer.stack.last().push(id)
        }),
{
    let outer = document::built(a, canvas, warnings);
    let flat = document::built(a + inner, canvas, warnings);
    let within = document::built(a.push(end) + inner, canvas, warnings);
    let recs = (a.push(end) + inner).push(folder);
    let all = document::built(recs, canvas, warnings);
    let m = outer.stack.len() as int;
    groups_take_what_is_added(a, end, inner, canvas, warnings);
    forest::trees_are_small(a + inner, canvas, warnings);
    assert(recs.drop_last() =~= a.push(end) + inner);
    assert(within.stack.drop_last() =~= outer.stack) by {
        assert(within.stack.take(m) =~= outer.stack);
        assert(within.stack.drop_last() =~= within.stack.take(m));
    }
    let children = flat.stack.last().skip(outer.stack.last().len() as int);
    assert(flat.stack.last() == outer.stack.last() + within.stack[m]);
    assert(children =~= within.stack.last());
    assert(all.nodes.drop_last() =~= flat.nodes);
    assert(all.stack.drop_last() =~= outer.stack.drop_last());
}

/// The document of a file with layers has their nodes, with the groups that are still open
/// dissolved: their nodes follow those of the groups around them.
pub proof fn open_groups_are_dissolved(file: psd::PsdView)
    requires
        file.layers.len() <= usize::MAX,
        document::built(
            file.layers,
            document::canvas_of(file.width, file.height),
            file.warnings,
        ).nodes.len() > 0,
    ensures
        ({
            let b = document::built(
                file.layers,
                document::canvas_of(file.width, file.height),
                file.warnings,
            );
            let doc = document::document_of(file);
            &&& doc.nodes == b.nodes
            &&& b.stack.len() == 1 ==> doc.root == b.stack[0] && doc.warnings == b.warnings
            &&& b.stack.len() == 2 ==> doc.root == b.stack[0] + b.stack[1]
            &&& b.stack.len() > 1 ==> doc.warnings == b.warnings.push(
                warning::WarningView::UnopenedGroup,
            )
            &&& doc.width == file.width && doc.height == file.height && doc.color_mode
                == file.color_mode
        }),
{
    let t = document::built(
        file.layers,
        document::canvas_of(file.width, file.height),
        file.warnings,
    );
    reveal_with_fuel(document::flat, 3);
    if t.stack.len() == 1 {
        assert(t.stack.drop_last() =~= seq![]);
        assert(document::flat(t.stack) =~= t.stack[0]);
    } else if t.stack.len() == 2 {
        assert(t.stack.drop_last().drop_last() =~= seq![]);
        assert(t.stack.drop_last().last() == t.stack[0]);
        assert(document::flat(t.stack) =~= t.stack[0] + t.stack[1]);
    }
}

/// A file without layers shows its merged image: one visible, opaque, normal layer without masks
/// that covers the canvas, whose color channels are those of the image in their order.
pub proof fn merged_images_stand_for_layers(file: psd::PsdView)
    requires
        file.layers.len() == 0,
        file.merged.len() > 0,
        file.width < 2147483648,
        file.height < 2147483648,
    ensures
        ({
            let doc = document::document_of(file);
            &&& doc.nodes.len() == 1
            &&& doc.root == seq![0usize]
            &&& doc.warnings == file.warnings.push(warning::WarningView::MergedImage)
            &&& doc.nodes[0].visible
            &&& doc.nodes[0].opacity == 255
            &&& doc.nodes[0].fill_opacity == 255
            &&& doc.nodes[0].blend == BlendMode::Normal
            &&& !doc.nodes[0].clipped
            &&& !doc.nodes[0].has_effects
            &&& doc.nodes[0].masks.len() == 0
            &&& doc.nodes[0].bounds.x0 == 0 && doc.nodes[0].bounds.y0 == 0
            &&& doc.nodes[0].bounds.x1 == file.width && doc.nodes[0].bounds.y1 == file.height
            &&& doc.nodes[0].kind matches node::KindView::Layer(p) && {
                &&& p.rect == doc.nodes[0].bounds
                &&& p.alpha is None
                &&& forall|c: int|
                    0 <= c < 4 ==> #[trigger] p.color[c] == if c < file.merged.len() {
                        Some(file.merged[c])
                    } else {
                        None
                    }
            }
        }),
{
    let t = document::built(
        file.layers,
        document::canvas_of(file.width, file.height),
        file.warnings,
    );
    reveal_with_fuel(document::flat, 2);
    assert(t.stack.drop_last() =~= seq![]);
    assert(document::flat(t.stack) =~= seq![]);
    assert(document::document_of(file).root =~= seq![0usize]);
}

/// The canvas of an image of a size that a coordinate can hold reaches from the origin to that size.
pub proof fn canvases_have_their_size(width: u32, height: u32, x: int, y: int)
    requires
        width < 2147483648,
        height < 2147483648,
    ensures
        document::canvas_of(width, height).contains(x, y) <==> 0 <= x < width && 0 <= y < height,
{
}

/// The canvas of an image whose width or height no coordinate can hold is empty.
pub proof fn canvases_too_large_are_empty(width: u32, height: u32)
    requires
        width >= 2147483648 || height >= 2147483648,
    ensures
        document::canvas_of(width, height).empty(),
{
}

/// A size is taken as the coordinate that has the same 32 bits.
pub proof fn coordinates_keep_their_bits(v: u32)
    ensures
        document::coordinate(v) == v || document::coordinate(v) + 4294967296 == v,
{
}

} // verus!
