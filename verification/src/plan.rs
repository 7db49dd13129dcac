//! How one row of an image is put together from the rows of its layers.
//!
//! A plan is a list of steps for a machine that holds a stack of rows. The arithmetic on pixels is
//! left to that machine.
use vstd::prelude::*;

use crate::document;
use crate::document::Document;
use crate::node;
use crate::node::{NodeId, NodeKind};

verus! {

/// What is to be drawn: the nodes, which of them are switched on, and the row of the canvas.
pub struct Scene {
    pub nodes: Seq<node::NodeView>,
    pub visible: Seq<bool>,
    pub y: i32,
}

/// How a row comes about.
pub enum Picture {
    /// A transparent row.
    Clear,
    /// The pixels of a layer.
    Layer { node: NodeId },
    /// A row behind the masks of a node.
    Masked { row: Box<Picture>, node: NodeId },
    /// A row laid over another with the opacity and blend mode of a node.
    Over { under: Box<Picture>, over: Box<Picture>, node: NodeId },
    /// The same, where the row below keeps its transparency.
    Atop { under: Box<Picture>, over: Box<Picture>, node: NodeId },
    /// A row that turns into another as far as the opacity and the masks of a node let it.
    Mixed { under: Box<Picture>, over: Box<Picture>, node: NodeId },
}

impl Scene {
    /// Whether children come before their groups, and it is known of every node whether it is
    /// switched on.
    pub open spec fn wf(self) -> bool {
        document::children_come_first(self.nodes) && self.visible.len() == self.nodes.len()
    }

    /// Whether the node is switched on and crosses the row.
    pub open spec fn shows(self, id: NodeId) -> bool {
        self.visible[id as int] && self.nodes[id as int].bounds.y0 <= self.y
            < self.nodes[id as int].bounds.y1
    }

    /// Where the clipped nodes from `from` on end.
    pub open spec fn clips_end(self, ids: Seq<NodeId>, from: int) -> int
        decreases ids.len() - from,
    {
        if from < ids.len() && self.nodes[ids[from] as int].clipped {
            self.clips_end(ids, from + 1)
        } else {
            from
        }
    }

    /// Whether a node among `ids` is switched on.
    pub open spec fn any_visible(self, ids: Seq<NodeId>) -> bool {
        exists|i: int| 0 <= i < ids.len() && self.visible[#[trigger] ids[i] as int]
    }

    /// Whether the node is a group whose children are laid directly over what is below.
    pub open spec fn passes_through(self, id: NodeId) -> bool {
        self.nodes[id as int].kind matches node::KindView::Group { pass_through, .. }
            && pass_through
    }

    /// A node by itself, on a transparent row, without its opacity and blend mode.
    pub open spec fn isolated(self, id: NodeId) -> Picture
        decreases id, 4int, 0int,
    {
        let n = self.nodes[id as int];
        match n.kind {
            node::KindView::Layer(_) => Picture::Layer { node: id },
            node::KindView::Group { children, .. } => {
                let row = self.stacked(id as int, children, Picture::Clear);
                if n.masks.len() == 0 {
                    row
                } else {
                    Picture::Masked { row: Box::new(row), node: id }
                }
            },
            node::KindView::Unsupported { .. } => Picture::Clear,
        }
    }

    /// `under` with the clipped nodes that show, each laid over it where it is not transparent.
    pub open spec fn with_clips(self, limit: int, under: Picture, clips: Seq<NodeId>) -> Picture
        decreases limit, 1int, clips.len(),
    {
        if clips.len() == 0 {
            under
        } else {
            let before = self.with_clips(limit, under, clips.drop_last());
            let clip = clips.last();
            if clip < limit && self.shows(clip) {
                Picture::Atop {
                    under: Box::new(before),
                    over: Box::new(self.isolated(clip)),
                    node: clip,
                }
            } else {
                before
            }
        }
    }

    /// `under` with a pass-through group. It is drawn on a copy where it is not fully opaque.
    pub open spec fn passed_through(self, id: NodeId, under: Picture) -> Picture
        decreases id, 4int, 0int,
    {
        let n = self.nodes[id as int];
        let row = self.stacked(id as int, n.children(), under);
        if n.opacity == 255 && n.masks.len() == 0 {
            row
        } else {
            Picture::Mixed { under: Box::new(under), over: Box::new(row), node: id }
        }
    }

    /// `under` with a node and the nodes that are clipped to it.
    pub open spec fn with_element(
        self,
        limit: int,
        id: NodeId,
        clips: Seq<NodeId>,
        under: Picture,
    ) -> Picture
        decreases limit, 2int, 0int,
    {
        if id >= limit || !self.shows(id) {
            under
        } else if self.passes_through(id) && !self.any_visible(clips) {
            self.passed_through(id, under)
        } else {
            Picture::Over {
                under: Box::new(under),
                over: Box::new(self.with_clips(limit, self.isolated(id), clips)),
                node: id,
            }
        }
    }

    /// `under` with the nodes `ids`, all of them below `limit`, from bottom to top. A node and the
    /// clipped nodes right above it belong together.
    pub open spec fn stacked(self, limit: int, ids: Seq<NodeId>, under: Picture) -> Picture
        decreases limit, 3int, ids.len(),
    {
        if ids.len() == 0 {
            under
        } else {
            let end = self.clips_end(ids, 1);
            proof {
                self.clips_end_bounds(ids, 1);
            }
            self.stacked(
                limit,
                ids.skip(end),
                self.with_element(limit, ids[0], ids.subrange(1, end), under),
            )
        }
    }

    /// The clipped nodes end inside the list.
    pub proof fn clips_end_bounds(self, ids: Seq<NodeId>, from: int)
        requires
            0 <= from <= ids.len(),
        ensures
            from <= self.clips_end(ids, from) <= ids.len(),
        decreases ids.len() - from,
    {
        if from < ids.len() && self.nodes[ids[from] as int].clipped {
            self.clips_end_bounds(ids, from + 1);
        }
    }
}

/// The row `y` of a document.
pub open spec fn picture(doc: document::DocumentView, visible: Seq<bool>, y: i32) -> Picture {
    (Scene { nodes: doc.nodes, visible, y }).stacked(
        doc.nodes.len() as int,
        doc.root,
        Picture::Clear,
    )
}

/// One step. A row that a step takes is the topmost of the stack.
#[derive(Clone, Copy, Debug, PartialEq, Eq, Structural)]
pub enum Step {
    /// Puts a transparent row on the stack.
    Clear,
    /// Puts a copy of the topmost row on the stack.
    Copy,
    /// Puts the pixels of a layer on the stack.
    Layer(NodeId),
    /// Applies the masks of a node to the topmost row.
    Mask(NodeId),
    /// Takes the topmost row and lays it over the next, as the node asks for.
    Over(NodeId),
    /// The same, where the next row keeps its transparency.
    Atop(NodeId),
    /// Takes the topmost row and mixes it into the next, as the node asks for.
    Mix(NodeId),
}

/// What a step makes of a stack. It fails where rows are missing, or where it names a node that is
/// not there or that has no pixels.
pub open spec fn after_step(
    nodes: Seq<node::NodeView>,
    step: Step,
    rows: Seq<Picture>,
) -> Option<Seq<Picture>> {
    let n = rows.len() as int;
    match step {
        Step::Clear => Some(rows.push(Picture::Clear)),
        Step::Copy => if n < 1 {
            None
        } else {
            Some(rows.push(rows.last()))
        },
        Step::Layer(id) => if id < nodes.len() && nodes[id as int].kind is Layer {
            Some(rows.push(Picture::Layer { node: id }))
        } else {
            None
        },
        Step::Mask(id) => if n < 1 || id >= nodes.len() {
            None
        } else {
            Some(
                rows.drop_last().push(
                    Picture::Masked { row: Box::new(rows.last()), node: id },
                ),
            )
        },
        Step::Over(id) => if n < 2 || id >= nodes.len() {
            None
        } else {
            Some(
                rows.take(n - 2).push(
                    Picture::Over {
                        under: Box::new(rows[n - 2]),
                        over: Box::new(rows[n - 1]),
                        node: id,
                    },
                ),
            )
        },
        Step::Atop(id) => if n < 2 || id >= nodes.len() {
            None
        } else {
            Some(
                rows.take(n - 2).push(
                    Picture::Atop {
                        under: Box::new(rows[n - 2]),
                        over: Box::new(rows[n - 1]),
                        node: id,
                    },
                ),
            )
        },
        Step::Mix(id) => if n < 2 || id >= nodes.len() {
            None
        } else {
            Some(
                rows.take(n - 2).push(
                    Picture::Mixed {
                        under: Box::new(rows[n - 2]),
                        over: Box::new(rows[n - 1]),
                        node: id,
                    },
                ),
            )
        },
    }
}

/// What the steps make of a stack that holds one transparent row.
pub open spec fn after_steps(nodes: Seq<node::NodeView>, steps: Seq<Step>) -> Option<Seq<Picture>>
    decreases steps.len(),
{
    if steps.len() == 0 {
        Some(seq![Picture::Clear])
    } else {
        match after_steps(nodes, steps.drop_last()) {
            Some(rows) => after_step(nodes, steps.last(), rows),
            None => None,
        }
    }
}

/// One step more.
proof fn after_one_more(nodes: Seq<node::NodeView>, steps: Seq<Step>, step: Step)
    ensures
        after_steps(nodes, steps.push(step)) == match after_steps(nodes, steps) {
            Some(rows) => after_step(nodes, step, rows),
            None => None,
        },
{
    assert(steps.push(step).drop_last() =~= steps);
}

/// What a planner draws.
struct RowView<'a> {
    doc: &'a Document,
    visible: &'a [bool],
    y: i32,
}

impl<'a> RowView<'a> {
    spec fn scene(self) -> Scene {
        Scene { nodes: self.doc@.nodes, visible: self.visible@, y: self.y }
    }

    /// Whether the steps succeed and leave at least one row.
    spec fn can_go_on(self, steps: Seq<Step>) -> bool {
        after_steps(self.scene().nodes, steps) matches Some(rows) && rows.len() > 0
    }

    /// Whether `after` does what `before` does, and then puts `row` on the stack.
    spec fn adds(self, before: Seq<Step>, after: Seq<Step>, row: Picture) -> bool {
        after_steps(self.scene().nodes, after) == Some(
            after_steps(self.scene().nodes, before)->0.push(row),
        )
    }

    /// Whether `after` does what `before` does, and then leaves `row` in place of the topmost one.
    spec fn replaces(self, before: Seq<Step>, after: Seq<Step>, row: Picture) -> bool {
        after_steps(self.scene().nodes, after) == Some(
            after_steps(self.scene().nodes, before)->0.drop_last().push(row),
        )
    }

    /// The topmost row.
    spec fn top(self, steps: Seq<Step>) -> Picture {
        after_steps(self.scene().nodes, steps)->0.last()
    }

    /// Whether the node is switched on and crosses the row.
    fn shows(&self, id: NodeId) -> (r: bool)
        requires
            self.scene().wf(),
            id < self.scene().nodes.len(),
        ensures
            r == self.scene().shows(id),
    {
        self.visible[id] && self.doc.nodes[id].bounds.contains_row(self.y)
    }

    /// Where the clipped nodes from `from` on end.
    fn clips_end(&self, ids: &Vec<NodeId>, from: usize) -> (end: usize)
        requires
            self.scene().wf(),
            from <= ids@.len(),
            document::ids_below(ids@, self.scene().nodes.len() as int),
        ensures
            end == self.scene().clips_end(ids@, from as int),
    {
        let mut end: usize = from;
        while end < ids.len() && self.doc.nodes[ids[end]].clipped
            invariant
                from <= end <= ids@.len(),
                document::ids_below(ids@, self.scene().nodes.len() as int),
                self.scene().clips_end(ids@, from as int) == self.scene().clips_end(
                    ids@,
                    end as int,
                ),
            decreases ids@.len() - end,
        {
            end = end + 1;
        }
        end
    }

    /// Whether a node between `from` and `end` is switched on.
    fn any_visible(&self, ids: &Vec<NodeId>, from: usize, end: usize) -> (r: bool)
        requires
            self.scene().wf(),
            from <= end <= ids@.len(),
            document::ids_below(ids@, self.scene().nodes.len() as int),
        ensures
            r == self.scene().any_visible(ids@.subrange(from as int, end as int)),
    {
        let ghost part = ids@.subrange(from as int, end as int);
        let mut i: usize = from;
        while i < end
            invariant
                from <= i <= end <= ids@.len(),
                part == ids@.subrange(from as int, end as int),
                self.scene().wf(),
                document::ids_below(ids@, self.scene().nodes.len() as int),
                forall|k: int| 0 <= k < i - from ==> !self.visible@[#[trigger] part[k] as int],
            decreases end - i,
        {
            if self.visible[ids[i]] {
                assert(part[i - from] == ids@[i as int]);
                return true;
            }
            i = i + 1;
        }
        false
    }

    /// Plans a node by itself.
    fn plan_isolated(&self, id: NodeId, steps: &mut Vec<Step>)
        requires
            self.scene().wf(),
            id < self.scene().nodes.len(),
            self.can_go_on(old(steps)@),
        ensures
            self.adds(old(steps)@, final(steps)@, self.scene().isolated(id)),
        decreases id, 4int,
    {
        let node = &self.doc.nodes[id];
        assert(node@ == self.scene().nodes[id as int]);
        match &node.kind {
            NodeKind::Layer(_) => {
                proof {
                    after_one_more(self.scene().nodes, steps@, Step::Layer(id));
                }
                steps.push(Step::Layer(id));
            },
            NodeKind::Group { children, .. } => {
                proof {
                    after_one_more(self.scene().nodes, steps@, Step::Clear);
                    assert(node@.children() == children@);
                    assert(document::ids_below(self.scene().nodes[id as int].children(), id as int));
                }
                steps.push(Step::Clear);
                self.plan_stack(children, Ghost(id as int), steps);
                proof {
                    let before = after_steps(self.scene().nodes, old(steps)@)->0;
                    let drawn = self.scene().stacked(id as int, children@, Picture::Clear);
                    assert(before.push(Picture::Clear).drop_last() =~= before);
                    assert(before.push(drawn).drop_last() =~= before);
                    after_one_more(self.scene().nodes, steps@, Step::Mask(id));
                    assert(node@.masks.len() == node.masks@.len());
                }
                if node.masks.len() > 0 {
                    steps.push(Step::Mask(id));
                }
            },
            NodeKind::Unsupported { .. } => {
                proof {
                    after_one_more(self.scene().nodes, steps@, Step::Clear);
                }
                steps.push(Step::Clear);
            },
        }
    }

    /// Plans the clipped nodes between `from` and `end` over the topmost row.
    fn plan_clips(
        &self,
        ids: &Vec<NodeId>,
        from: usize,
        end: usize,
        Ghost(limit): Ghost<int>,
        steps: &mut Vec<Step>,
    )
        requires
            self.scene().wf(),
            from <= end <= ids@.len(),
            0 <= limit <= self.scene().nodes.len(),
            document::ids_below(ids@, limit),
            self.can_go_on(old(steps)@),
        ensures
            self.replaces(
                old(steps)@,
                final(steps)@,
                self.scene().with_clips(
                    limit,
                    self.top(old(steps)@),
                    ids@.subrange(from as int, end as int),
                ),
            ),
        decreases limit, 1int,
    {
        let ghost first = self.top(steps@);
        let ghost below = after_steps(self.scene().nodes, steps@)->0.drop_last();
        let mut i: usize = from;
        assert(ids@.subrange(from as int, from as int) =~= seq![]);
        assert(below.push(first) =~= after_steps(self.scene().nodes, steps@)->0);
        while i < end
            invariant
                from <= i <= end <= ids@.len(),
                self.scene().wf(),
                0 <= limit <= self.scene().nodes.len(),
                document::ids_below(ids@, limit),
                after_steps(self.scene().nodes, steps@) == Some(
                    below.push(
                        self.scene().with_clips(
                            limit,
                            first,
                            ids@.subrange(from as int, i as int),
                        ),
                    ),
                ),
            decreases end - i,
        {
            let clip = ids[i];
            proof {
                let now = ids@.subrange(from as int, i + 1);
                assert(now.drop_last() =~= ids@.subrange(from as int, i as int));
                assert(now.last() == clip);
            }
            if self.shows(clip) {
                let ghost before = after_steps(self.scene().nodes, steps@)->0;
                self.plan_isolated(clip, steps);
                proof {
                    after_one_more(self.scene().nodes, steps@, Step::Atop(clip));
                    let over = after_steps(self.scene().nodes, steps@)->0;
                    assert(over == before.push(self.scene().isolated(clip)));
                    assert(over.take(over.len() - 2) =~= below);
                }
                steps.push(Step::Atop(clip));
            }
            i = i + 1;
        }
    }

    /// Plans a pass-through group over the topmost row.
    fn plan_pass_through(&self, id: NodeId, children: &Vec<NodeId>, steps: &mut Vec<Step>)
        requires
            self.scene().wf(),
            id < self.scene().nodes.len(),
            self.scene().nodes[id as int].kind is Group,
            self.scene().nodes[id as int].children() == children@,
            self.can_go_on(old(steps)@),
        ensures
            self.replaces(
                old(steps)@,
                final(steps)@,
                self.scene().passed_through(id, self.top(old(steps)@)),
            ),
        decreases id, 4int,
    {
        let node = &self.doc.nodes[id];
        assert(node@ == self.scene().nodes[id as int]);
        assert(document::ids_below(self.scene().nodes[id as int].children(), id as int));
        if node.opacity == 255 && node.masks.len() == 0 {
            self.plan_stack(children, Ghost(id as int), steps);
            return;
        }
        let ghost before = after_steps(self.scene().nodes, steps@)->0;
        proof {
            after_one_more(self.scene().nodes, steps@, Step::Copy);
        }
        steps.push(Step::Copy);
        self.plan_stack(children, Ghost(id as int), steps);
        proof {
            after_one_more(self.scene().nodes, steps@, Step::Mix(id));
            let drawn = after_steps(self.scene().nodes, steps@)->0;
            assert(before.push(before.last()).drop_last() =~= before);
            assert(drawn.take(drawn.len() - 2) =~= before.drop_last());
        }
        steps.push(Step::Mix(id));
    }

    /// Plans the node at `i`, with the clipped nodes up to `end`, over the topmost row.
    fn plan_element(
        &self,
        ids: &Vec<NodeId>,
        i: usize,
        end: usize,
        Ghost(limit): Ghost<int>,
        steps: &mut Vec<Step>,
    )
        requires
            self.scene().wf(),
            i < end <= ids@.len(),
            0 <= limit <= self.scene().nodes.len(),
            document::ids_below(ids@, limit),
            self.can_go_on(old(steps)@),
        ensures
            self.replaces(
                old(steps)@,
                final(steps)@,
                self.scene().with_element(
                    limit,
                    ids@[i as int],
                    ids@.subrange(i + 1, end as int),
                    self.top(old(steps)@),
                ),
            ),
        decreases limit, 2int,
    {
        let id = ids[i];
        let ghost before = after_steps(self.scene().nodes, steps@)->0;
        assert(before.drop_last().push(before.last()) =~= before);
        if !self.shows(id) {
            return;
        }
        assert(self.doc.nodes@[id as int]@ == self.scene().nodes[id as int]);
        if let NodeKind::Group { children, pass_through, .. } = &self.doc.nodes[id].kind {
            if *pass_through && !self.any_visible(ids, i + 1, end) {
                self.plan_pass_through(id, children, steps);
                return;
            }
        }
        self.plan_isolated(id, steps);
        let ghost alone = after_steps(self.scene().nodes, steps@)->0;
        self.plan_clips(ids, i + 1, end, Ghost(limit), steps);
        proof {
            after_one_more(self.scene().nodes, steps@, Step::Over(id));
            let drawn = after_steps(self.scene().nodes, steps@)->0;
            assert(alone.drop_last() =~= before);
            assert(drawn.take(drawn.len() - 2) =~= before.drop_last());
        }
        steps.push(Step::Over(id));
    }

    /// Plans the nodes `ids` over the topmost row.
    fn plan_stack(&self, ids: &Vec<NodeId>, Ghost(limit): Ghost<int>, steps: &mut Vec<Step>)
        requires
            self.scene().wf(),
            0 <= limit <= self.scene().nodes.len(),
            document::ids_below(ids@, limit),
            self.can_go_on(old(steps)@),
        ensures
            self.replaces(
                old(steps)@,
                final(steps)@,
                self.scene().stacked(limit, ids@, self.top(old(steps)@)),
            ),
        decreases limit, 3int,
    {
        let ghost first = self.top(steps@);
        let ghost below = after_steps(self.scene().nodes, steps@)->0.drop_last();
        let ghost all = self.scene().stacked(limit, ids@, first);
        let mut i: usize = 0;
        assert(below.push(first) =~= after_steps(self.scene().nodes, steps@)->0);
        assert(ids@.skip(0) =~= ids@);
        while i < ids.len()
            invariant
                i <= ids@.len(),
                self.scene().wf(),
                0 <= limit <= self.scene().nodes.len(),
                document::ids_below(ids@, limit),
                self.can_go_on(steps@),
                after_steps(self.scene().nodes, steps@)->0.drop_last() == below,
                all == self.scene().stacked(limit, ids@.skip(i as int), self.top(steps@)),
            decreases ids@.len() - i,
        {
            let end = self.clips_end(ids, i + 1);
            proof {
                let rest = ids@.skip(i as int);
                self.scene().clips_end_bounds(ids@, i + 1);
                clips_end_of_rest(self.scene(), ids@, i as int, 1);
                assert(rest.skip(end - i) =~= ids@.skip(end as int));
                assert(rest.subrange(1, end - i) =~= ids@.subrange(i + 1, end as int));
                assert(rest[0] == ids@[i as int]);
            }
            let ghost rows = after_steps(self.scene().nodes, steps@)->0;
            self.plan_element(ids, i, end, Ghost(limit), steps);
            proof {
                let now = after_steps(self.scene().nodes, steps@)->0;
                assert(now.drop_last() =~= rows.drop_last());
            }
            i = end;
        }
        proof {
            assert(ids@.skip(i as int) =~= seq![]);
            let rows = after_steps(self.scene().nodes, steps@)->0;
            assert(below.push(rows.last()) =~= rows);
        }
    }
}

/// Where clipped nodes end does not depend on what comes before them.
proof fn clips_end_of_rest(s: Scene, ids: Seq<NodeId>, i: int, from: int)
    requires
        0 <= i,
        0 <= from,
        i + from <= ids.len(),
    ensures
        s.clips_end(ids.skip(i), from) + i == s.clips_end(ids, i + from),
    decreases ids.len() - from,
{
    if i + from < ids.len() {
        assert(ids.skip(i)[from] == ids[i + from]);
        if s.nodes[ids[i + from] as int].clipped {
            clips_end_of_rest(s, ids, i, from + 1);
        }
    }
}

/// The steps that draw row `y` of a document on one transparent row.
pub fn plan_row(doc: &Document, visible: &[bool], y: i32) -> (steps: Vec<Step>)
    requires
        doc@.wf(),
        visible@.len() == doc@.nodes.len(),
    ensures
        after_steps(doc@.nodes, steps@) == Some(seq![picture(doc@, visible@, y)]),
{
    let view = RowView { doc, visible, y };
    let mut steps: Vec<Step> = Vec::new();
    view.plan_stack(&doc.root, Ghost(doc@.nodes.len() as int), &mut steps);
    assert(seq![Picture::Clear].drop_last() =~= seq![]);
    steps
}

/// Whether a node has a part in a picture.
pub open spec fn mentions(p: Picture, id: NodeId) -> bool
    decreases p,
{
    match p {
        Picture::Clear => false,
        Picture::Layer { node } => node == id,
        Picture::Masked { row, node } => node == id || mentions(*row, id),
        Picture::Over { under, over, node } => node == id || mentions(*under, id) || mentions(
            *over,
            id,
        ),
        Picture::Atop { under, over, node } => node == id || mentions(*under, id) || mentions(
            *over,
            id,
        ),
        Picture::Mixed { under, over, node } => node == id || mentions(*under, id) || mentions(
            *over,
            id,
        ),
    }
}

impl Scene {
    /// Only nodes that show have a part in a node that shows.
    proof fn isolated_shows(self, id: NodeId, other: NodeId)
        requires
            self.shows(id),
            mentions(self.isolated(id), other),
        ensures
            self.shows(other),
        decreases id, 4int, 0int,
    {
        match self.nodes[id as int].kind {
            node::KindView::Group { children, .. } => {
                if mentions(self.stacked(id as int, children, Picture::Clear), other) {
                    self.stacked_shows(id as int, children, Picture::Clear, other);
                }
            },
            _ => {},
        }
    }

    /// Only nodes that show have a part in what clipped nodes add.
    proof fn clips_show(self, limit: int, under: Picture, clips: Seq<NodeId>, other: NodeId)
        requires
            mentions(self.with_clips(limit, under, clips), other),
            !mentions(under, other),
        ensures
            self.shows(other),
        decreases limit, 1int, clips.len(),
    {
        if clips.len() > 0 {
            let before = self.with_clips(limit, under, clips.drop_last());
            let clip = clips.last();
            if mentions(before, other) {
                self.clips_show(limit, under, clips.drop_last(), other);
            } else if clip < limit && self.shows(clip) && mentions(self.isolated(clip), other) {
                self.isolated_shows(clip, other);
            }
        }
    }

    /// Only nodes that show have a part in what a node and its clipped nodes add.
    proof fn element_shows(
        self,
        limit: int,
        id: NodeId,
        clips: Seq<NodeId>,
        under: Picture,
        other: NodeId,
    )
        requires
            mentions(self.with_element(limit, id, clips, under), other),
            !mentions(under, other),
        ensures
            self.shows(other),
        decreases limit, 2int, 0int,
    {
        if id < limit && self.shows(id) && other != id {
            if self.passes_through(id) && !self.any_visible(clips) {
                self.stacked_shows(id as int, self.nodes[id as int].children(), under, other);
            } else if mentions(self.isolated(id), other) {
                self.isolated_shows(id, other);
            } else {
                self.clips_show(limit, self.isolated(id), clips, other);
            }
        }
    }

    /// A node that is switched off, or that the row does not cross, has no part in a picture.
    pub proof fn stacked_shows(
        self,
        limit: int,
        ids: Seq<NodeId>,
        under: Picture,
        other: NodeId,
    )
        requires
            mentions(self.stacked(limit, ids, under), other),
            !mentions(under, other),
        ensures
            self.shows(other),
        decreases limit, 3int, ids.len(),
    {
        if ids.len() > 0 {
            let end = self.clips_end(ids, 1);
            self.clips_end_bounds(ids, 1);
            let next = self.with_element(limit, ids[0], ids.subrange(1, end), under);
            if mentions(next, other) {
                self.element_shows(limit, ids[0], ids.subrange(1, end), under, other);
            } else {
                self.stacked_shows(limit, ids.skip(end), next, other);
            }
        }
    }

    /// A node that does not show hides the nodes that are clipped to it.
    pub proof fn hidden_base_hides_its_clips(self, limit: int, ids: Seq<NodeId>, under: Picture)
        requires
            ids.len() > 0,
            !self.shows(ids[0]),
        ensures
            self.stacked(limit, ids, under) == self.stacked(
                limit,
                ids.skip(self.clips_end(ids, 1)),
                under,
            ),
    {
        let clips = ids.subrange(1, self.clips_end(ids, 1));
        assert(self.with_element(limit, ids[0], clips, under) == under);
    }
}

/// A node that is switched off, or that the row does not cross, has no part in the row of a
/// document.
pub proof fn only_shown_nodes_are_drawn(
    doc: document::DocumentView,
    visible: Seq<bool>,
    y: i32,
    id: NodeId,
)
    requires
        mentions(picture(doc, visible, y), id),
    ensures
        (Scene { nodes: doc.nodes, visible, y }).shows(id),
{
    (Scene { nodes: doc.nodes, visible, y }).stacked_shows(
        doc.nodes.len() as int,
        doc.root,
        Picture::Clear,
        id,
    );
}

/// What each step makes of the rows on the stack.
pub proof fn steps_do_what_they_say(
    nodes: Seq<node::NodeView>,
    rows: Seq<Picture>,
    a: Picture,
    b: Picture,
    id: NodeId,
)
    requires
        id < nodes.len(),
    ensures
        after_step(nodes, Step::Clear, rows) == Some(rows.push(Picture::Clear)),
        after_step(nodes, Step::Copy, rows.push(a)) == Some(rows.push(a).push(a)),
        nodes[id as int].kind is Layer ==> after_step(nodes, Step::Layer(id), rows) == Some(
            rows.push(Picture::Layer { node: id }),
        ),
        after_step(nodes, Step::Mask(id), rows.push(a)) == Some(
            rows.push(Picture::Masked { row: Box::new(a), node: id }),
        ),
        after_step(nodes, Step::Over(id), rows.push(a).push(b)) == Some(
            rows.push(Picture::Over { under: Box::new(a), over: Box::new(b), node: id }),
        ),
        after_step(nodes, Step::Atop(id), rows.push(a).push(b)) == Some(
            rows.push(Picture::Atop { under: Box::new(a), over: Box::new(b), node: id }),
        ),
        after_step(nodes, Step::Mix(id), rows.push(a).push(b)) == Some(
            rows.push(Picture::Mixed { under: Box::new(a), over: Box::new(b), node: id }),
        ),
        after_steps(nodes, seq![]) == Some(seq![Picture::Clear]),
{
    let two = rows.push(a).push(b);
    assert(rows.push(a).drop_last() =~= rows);
    assert(two.take(two.len() - 2) =~= rows);
}

} // verus!
