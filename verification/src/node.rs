//! One element of the layer tree.
use vstd::prelude::*;

use crate::blend;
use crate::blend::BlendMode;
use crate::bounds::Bounds;
use crate::bytes;
use crate::channel;
use crate::channel::{Channel, Compression};
use crate::layers;
use crate::layers::{LayerRecord, MaskInfo};
use crate::text;

verus! {

/// The place of a node among the nodes of its document.
pub type NodeId = usize;

/// A mask of a node.
#[derive(Debug)]
pub struct Mask {
    /// Where the mask has values. It may reach beyond the canvas.
    pub rect: Bounds,
    /// The value outside of the rectangle.
    pub default: u8,
    pub invert: bool,
    pub channel: Channel,
}

/// What a mask records.
#[verifier::ext_equal]
pub struct MaskView {
    pub rect: Bounds,
    pub default: u8,
    pub invert: bool,
    pub channel: channel::ChannelView,
}

impl View for Mask {
    type V = MaskView;

    open spec fn view(&self) -> MaskView {
        MaskView {
            rect: self.rect,
            default: self.default,
            invert: self.invert,
            channel: self.channel@,
        }
    }
}

/// What a list of masks records.
pub open spec fn mask_views(s: Seq<Mask>) -> Seq<MaskView> {
    s.map_values(|m: Mask| m@)
}

/// The pixels of a layer.
#[derive(Debug)]
pub struct Pixels {
    pub rect: Bounds,
    /// The channels of the color mode, from the first on.
    pub color: [Option<Channel>; 4],
    pub alpha: Option<Channel>,
}

/// What the pixels of a layer record.
#[verifier::ext_equal]
pub struct PixelsView {
    pub rect: Bounds,
    pub color: Seq<Option<channel::ChannelView>>,
    pub alpha: Option<channel::ChannelView>,
}

/// What an optional channel records.
pub open spec fn channel_view(c: Option<Channel>) -> Option<channel::ChannelView> {
    match c {
        Some(c) => Some(c@),
        None => None,
    }
}

impl View for Pixels {
    type V = PixelsView;

    open spec fn view(&self) -> PixelsView {
        PixelsView {
            rect: self.rect,
            color: self.color@.map_values(|c: Option<Channel>| channel_view(c)),
            alpha: channel_view(self.alpha),
        }
    }
}

/// What a node is.
#[derive(Debug)]
pub enum NodeKind {
    Layer(Box<Pixels>),
    Group {
        /// From bottom to top.
        children: Vec<NodeId>,
        pass_through: bool,
        expanded: bool,
    },
    /// Something that cannot be drawn, such as an adjustment layer.
    Unsupported { reason: String },
}

/// What a node is, in mathematical terms.
#[verifier::ext_equal]
pub enum KindView {
    Layer(PixelsView),
    Group { children: Seq<NodeId>, pass_through: bool, expanded: bool },
    Unsupported { reason: Seq<char> },
}

impl View for NodeKind {
    type V = KindView;

    open spec fn view(&self) -> KindView {
        match *self {
            NodeKind::Layer(pixels) => KindView::Layer(pixels@),
            NodeKind::Group { children, pass_through, expanded } => KindView::Group {
                children: children@,
                pass_through,
                expanded,
            },
            NodeKind::Unsupported { reason } => KindView::Unsupported { reason: reason@ },
        }
    }
}

/// One element of the layer tree.
#[derive(Debug)]
pub struct Node {
    pub name: String,
    pub visible: bool,
    /// From 0 to 255, where 255 is opaque.
    pub opacity: u8,
    /// From 0 to 255, where 255 is opaque.
    pub fill_opacity: u8,
    pub blend: BlendMode,
    pub clipped: bool,
    pub has_effects: bool,
    pub masks: Vec<Mask>,
    pub bounds: Bounds,
    pub kind: NodeKind,
}

/// What a node records.
#[verifier::ext_equal]
pub struct NodeView {
    pub name: Seq<char>,
    pub visible: bool,
    pub opacity: u8,
    pub fill_opacity: u8,
    pub blend: BlendMode,
    pub clipped: bool,
    pub has_effects: bool,
    pub masks: Seq<MaskView>,
    pub bounds: Bounds,
    pub kind: KindView,
}

impl View for Node {
    type V = NodeView;

    open spec fn view(&self) -> NodeView {
        NodeView {
            name: self.name@,
            visible: self.visible,
            opacity: self.opacity,
            fill_opacity: self.fill_opacity,
            blend: self.blend,
            clipped: self.clipped,
            has_effects: self.has_effects,
            masks: mask_views(self.masks@),
            bounds: self.bounds,
            kind: self.kind@,
        }
    }
}

impl NodeView {
    /// The children of a group. Nothing else has any.
    pub open spec fn children(self) -> Seq<NodeId> {
        match self.kind {
            KindView::Group { children, .. } => children,
            _ => seq![],
        }
    }
}

/// The last channel with this id.
pub open spec fn last_channel(s: Seq<(i16, channel::ChannelView)>, id: int) -> Option<
    channel::ChannelView,
>
    decreases s.len(),
{
    if s.len() == 0 {
        None
    } else if s.last().0 == id {
        Some(s.last().1)
    } else {
        last_channel(s.drop_last(), id)
    }
}

/// The compression of the last channel that cannot be unpacked.
pub open spec fn last_unsupported(s: Seq<(i16, channel::ChannelView)>) -> Option<u16>
    decreases s.len(),
{
    if s.len() == 0 {
        None
    } else {
        match s.last().1.compression {
            Compression::Unsupported(c) => Some(c),
            _ => last_unsupported(s.drop_last()),
        }
    }
}

/// The mask that a channel gives. A mask that is switched off or cannot be unpacked is left out.
pub open spec fn mask_from(info: Option<MaskInfo>, c: channel::ChannelView) -> Seq<MaskView> {
    match info {
        Some(info) => if info.disabled || c.compression is Unsupported {
            seq![]
        } else {
            seq![
                MaskView {
                    rect: Bounds::of(info.rect),
                    default: info.default,
                    invert: info.invert,
                    channel: c,
                },
            ]
        },
        None => seq![],
    }
}

/// The masks that the channels give, in their order.
pub open spec fn masks_from(
    s: Seq<(i16, channel::ChannelView)>,
    user: Option<MaskInfo>,
    real_mask: Option<MaskInfo>,
) -> Seq<MaskView>
    decreases s.len(),
{
    if s.len() == 0 {
        seq![]
    } else {
        let before = masks_from(s.drop_last(), user, real_mask);
        if s.last().0 == -2 {
            before + mask_from(user, s.last().1)
        } else if s.last().0 == -3 {
            before + mask_from(real_mask, s.last().1)
        } else {
            before
        }
    }
}

/// The color channels among `s`.
pub open spec fn colors_from(s: Seq<(i16, channel::ChannelView)>) -> Seq<
    Option<channel::ChannelView>,
> {
    Seq::new(4, |c: int| last_channel(s, c))
}

/// Why the layer cannot be drawn, where it cannot.
pub open spec fn reason_for(rec: layers::LayerView) -> Option<Seq<char>> {
    if rec.damaged {
        Some("データが壊れています"@)
    } else {
        match (rec.adjustment, last_unsupported(rec.channels)) {
            (Some(name), _) => Some(name + "レイヤーは未対応"@),
            (None, Some(c)) => Some("圧縮方式 "@ + text::decimal_text(c as nat) + " は未対応"@),
            (None, None) => None,
        }
    }
}

/// What a record stands for, and where it is drawn. `group` holds the children of a group and the
/// rectangle that they take.
pub open spec fn kind_of(
    rec: layers::LayerView,
    group: Option<(Seq<NodeId>, Bounds)>,
    canvas: Bounds,
) -> (KindView, Bounds) {
    match (group, reason_for(rec)) {
        (Some((children, bounds)), _) => (
            KindView::Group {
                children,
                pass_through: rec.blend == bytes::key4('p', 'a', 's', 's'),
                expanded: rec.divider == 1,
            },
            bounds,
        ),
        (None, Some(reason)) => (KindView::Unsupported { reason }, Bounds::none()),
        (None, None) => (
            KindView::Layer(
                PixelsView {
                    rect: Bounds::of(rec.bounds),
                    color: colors_from(rec.channels),
                    alpha: last_channel(rec.channels, -1),
                },
            ),
            Bounds::of(rec.bounds).common(canvas),
        ),
    }
}

/// The node of a record.
pub open spec fn node_of(
    rec: layers::LayerView,
    group: Option<(Seq<NodeId>, Bounds)>,
    canvas: Bounds,
) -> NodeView {
    NodeView {
        name: rec.name,
        visible: rec.visible,
        opacity: rec.opacity,
        fill_opacity: rec.fill_opacity,
        blend: blend::mode_of(rec.blend),
        clipped: rec.clipped,
        has_effects: rec.has_effects,
        masks: masks_from(rec.channels, rec.user_mask, rec.real_mask),
        bounds: kind_of(rec, group, canvas).1,
        kind: kind_of(rec, group, canvas).0,
    }
}

/// Adds the mask that a channel gives.
fn push_mask(masks: &mut Vec<Mask>, info: Option<MaskInfo>, channel: Channel)
    ensures
        mask_views(final(masks)@) == mask_views(old(masks)@) + mask_from(info, channel@),
{
    let info = match info {
        Some(info) => info,
        None => {
            assert(mask_views(masks@) =~= mask_views(masks@) + mask_from(None, channel@));
            return;
        },
    };
    if info.disabled || channel.unsupported().is_some() {
        assert(mask_views(masks@) =~= mask_views(masks@) + mask_from(Some(info), channel@));
        return;
    }
    masks.push(
        Mask {
            rect: Bounds::from(info.rect),
            default: info.default,
            invert: info.invert,
            channel,
        },
    );
    assert(mask_views(masks@) =~= mask_views(old(masks)@) + mask_from(Some(info), channel@));
}

/// The channels of a layer, sorted out.
struct Parts {
    color: [Option<Channel>; 4],
    alpha: Option<Channel>,
    masks: Vec<Mask>,
    unsupported: Option<u16>,
}

impl Parts {
    /// Whether these are the parts that the channels give.
    spec fn come_from(
        &self,
        s: Seq<(i16, channel::ChannelView)>,
        user: Option<MaskInfo>,
        real_mask: Option<MaskInfo>,
    ) -> bool {
        &&& self.color@.map_values(|c: Option<Channel>| channel_view(c)) == colors_from(s)
        &&& channel_view(self.alpha) == last_channel(s, -1)
        &&& mask_views(self.masks@) == masks_from(s, user, real_mask)
        &&& self.unsupported == last_unsupported(s)
    }
}

/// Sorts out the channels of a layer.
fn sort_channels(
    channels: Vec<(i16, Channel)>,
    user: Option<MaskInfo>,
    real_mask: Option<MaskInfo>,
) -> (p: Parts)
    ensures
        p.come_from(layers::channel_views(channels@), user, real_mask),
{
    let ghost all = layers::channel_views(channels@);
    let mut p = Parts {
        color: [None, None, None, None],
        alpha: None,
        masks: Vec::new(),
        unsupported: None,
    };
    proof {
        assert(all.take(0) =~= seq![]);
        assert(p.color@.map_values(|c: Option<Channel>| channel_view(c)) =~= colors_from(
            all.take(0),
        ));
        assert(mask_views(p.masks@) =~= seq![]);
    }
    for entry in it: channels
        invariant
            all == layers::channel_views(channels@),
            it.seq() == channels@,
            p.come_from(all.take(it.index() as int), user, real_mask),
    {
        let (id, channel) = entry;
        let ghost done = all.take(it.index() as int);
        let ghost now = all.take(it.index() + 1);
        proof {
            assert(now.drop_last() =~= done);
            assert(now.last() == (id, channel@));
        }
        let ghost before = p.color@;
        if let Some(c) = channel.unsupported() {
            p.unsupported = Some(c);
        }
        if 0 <= id && id <= 3 {
            p.color[id as usize] = Some(channel);
        } else if id == -1 {
            p.alpha = Some(channel);
        } else if id == -2 {
            push_mask(&mut p.masks, user, channel);
        } else if id == -3 {
            push_mask(&mut p.masks, real_mask, channel);
        }
        proof {
            let colors = before.map_values(|c: Option<Channel>| channel_view(c));
            assert forall|k: int| 0 <= k < 4 implies channel_view(#[trigger] p.color@[k])
                == last_channel(now, k) by {
                assert(colors[k] == colors_from(done)[k]);
            }
            assert(p.color@.map_values(|c: Option<Channel>| channel_view(c)) =~= colors_from(now));
        }
    }
    assert(all.take(all.len() as int) =~= all);
    p
}

/// Why the layer cannot be drawn, where it cannot.
fn reason_of(
    damaged: bool,
    adjustment: Option<&'static str>,
    unsupported: Option<u16>,
) -> (r: Option<String>)
    ensures
        match r {
            Some(s) => if damaged {
                s@ == "データが壊れています"@
            } else {
                match (adjustment, unsupported) {
                    (Some(name), _) => s@ == name@ + "レイヤーは未対応"@,
                    (None, Some(c)) => s@ == "圧縮方式 "@ + text::decimal_text(c as nat)
                        + " は未対応"@,
                    (None, None) => false,
                }
            },
            None => !damaged && adjustment is None && unsupported is None,
        },
{
    if damaged {
        return Some("データが壊れています".to_owned());
    }
    match (adjustment, unsupported) {
        (Some(name), _) => {
            let mut s = name.to_owned();
            s.append("レイヤーは未対応");
            Some(s)
        },
        (None, Some(c)) => Some(
            text::join3("圧縮方式 ", text::decimal(c as u64).as_str(), " は未対応"),
        ),
        (None, None) => None,
    }
}

/// What a group of nodes is: its children, and the rectangle that they take.
pub open spec fn group_view(group: Option<(Vec<NodeId>, Bounds)>) -> Option<(Seq<NodeId>, Bounds)> {
    match group {
        Some((children, bounds)) => Some((children@, bounds)),
        None => None,
    }
}

/// The node of a record.
pub fn make_node(
    rec: LayerRecord,
    group: Option<(Vec<NodeId>, Bounds)>,
    canvas: Bounds,
) -> (node: Node)
    ensures
        node@ == node_of(rec@, group_view(group), canvas),
        node.name@ == rec.name@,
        node.visible == rec.visible,
        node.opacity == rec.opacity,
        node.fill_opacity == rec.fill_opacity,
        node.clipped == rec.clipped,
        node.has_effects == rec.has_effects,
        node.blend == blend::mode_of(rec.blend@),
{
    let expanded = rec.divider == 1;
    let rect = Bounds::from(rec.bounds);
    let parts = sort_channels(rec.channels, rec.user_mask, rec.real_mask);
    let (kind, bounds) = match group {
        Some((children, bounds)) => {
            let pass_through = bytes::is_key(&rec.blend, 'p', 'a', 's', 's');
            (NodeKind::Group { children, pass_through, expanded }, bounds)
        },
        None => match reason_of(rec.damaged, rec.adjustment, parts.unsupported) {
            Some(reason) => (NodeKind::Unsupported { reason }, Bounds::default()),
            None => (
                NodeKind::Layer(Box::new(Pixels { rect, color: parts.color, alpha: parts.alpha })),
                rect.intersect(canvas),
            ),
        },
    };
    let blend = BlendMode::from_key(&rec.blend);
    Node {
        name: rec.name,
        visible: rec.visible,
        opacity: rec.opacity,
        fill_opacity: rec.fill_opacity,
        blend,
        clipped: rec.clipped,
        has_effects: rec.has_effects,
        masks: parts.masks,
        bounds,
        kind,
    }
}

/// A node has what its record says of it.
pub proof fn nodes_have_what_records_say(
    rec: layers::LayerView,
    group: Option<(Seq<NodeId>, Bounds)>,
    canvas: Bounds,
)
    ensures
        ({
            let n = node_of(rec, group, canvas);
            &&& n.name == rec.name
            &&& n.visible == rec.visible
            &&& n.opacity == rec.opacity
            &&& n.fill_opacity == rec.fill_opacity
            &&& n.clipped == rec.clipped
            &&& n.has_effects == rec.has_effects
            &&& n.blend == blend::mode_of(rec.blend)
        }),
{
}

/// A channel is found by its id: it is the last one that has it, and none is found where none has
/// it.
pub proof fn channels_are_found_by_id(s: Seq<(i16, channel::ChannelView)>, id: int)
    ensures
        match last_channel(s, id) {
            Some(c) => exists|k: int|
                0 <= k < s.len() && (#[trigger] s[k]).0 == id && s[k].1 == c && forall|j: int|
                    k < j < s.len() ==> (#[trigger] s[j]).0 != id,
            None => forall|j: int| 0 <= j < s.len() ==> (#[trigger] s[j]).0 != id,
        },
    decreases s.len(),
{
    if s.len() > 0 {
        let n = s.len() - 1;
        assert(s.last() == s[n]);
        if s[n].0 != id {
            let before = s.drop_last();
            channels_are_found_by_id(before, id);
            assert forall|j: int| 0 <= j < n implies #[trigger] s[j] == before[j] by {}
            if let Some(c) = last_channel(before, id) {
                let k = choose|k: int|
                    0 <= k < before.len() && (#[trigger] before[k]).0 == id && before[k].1 == c
                        && forall|j: int| k < j < before.len() ==> (#[trigger] before[j]).0 != id;
                assert(s[k].0 == id);
                assert forall|j: int| k < j < s.len() implies (#[trigger] s[j]).0 != id by {
                    if j < n {
                        assert(before[j].0 != id);
                    }
                }
            } else {
                assert forall|j: int| 0 <= j < s.len() implies (#[trigger] s[j]).0 != id by {
                    if j < n {
                        assert(before[j].0 != id);
                    }
                }
            }
        }
    }
}

/// Whether a channel cannot be unpacked.
pub open spec fn packed_otherwise(c: (i16, channel::ChannelView)) -> bool {
    c.1.compression is Unsupported
}

/// A channel that cannot be unpacked is found if and only if there is one.
proof fn unsupported_is_found(s: Seq<(i16, channel::ChannelView)>)
    ensures
        last_unsupported(s) is Some <==> exists|k: int|
            0 <= k < s.len() && #[trigger] packed_otherwise(s[k]),
    decreases s.len(),
{
    if s.len() > 0 {
        let before = s.drop_last();
        unsupported_is_found(before);
        assert(s.last() == s[s.len() - 1]);
        if packed_otherwise(s.last()) {
            assert(packed_otherwise(s[s.len() - 1]));
        } else if exists|k: int| 0 <= k < before.len() && #[trigger] packed_otherwise(before[k]) {
            let k = choose|k: int| 0 <= k < before.len() && #[trigger] packed_otherwise(before[k]);
            assert(packed_otherwise(s[k]));
        } else if exists|k: int| 0 <= k < s.len() && #[trigger] packed_otherwise(s[k]) {
            let k = choose|k: int| 0 <= k < s.len() && #[trigger] packed_otherwise(s[k]);
            assert(packed_otherwise(before[k]));
        }
    }
}

/// A record that is no folder is a layer with its rectangle, its color channels by their ids from 0
/// to 3 and its alpha channel by the id -1, drawn where it lies on the canvas; unless channel data
/// is lost, it is an adjustment, or a channel cannot be unpacked. Then it is drawn nowhere.
pub proof fn records_become_layers(rec: layers::LayerView, canvas: Bounds)
    ensures
        ({
            let n = node_of(rec, None, canvas);
            let lacking = rec.damaged || rec.adjustment is Some || exists|k: int|
                0 <= k < rec.channels.len() && #[trigger] packed_otherwise(rec.channels[k]);
            if lacking {
                n.kind is Unsupported && n.bounds.empty()
            } else {
                &&& n.kind matches KindView::Layer(p) && {
                    &&& p.rect.x0 == rec.bounds.left
                    &&& p.rect.y0 == rec.bounds.top
                    &&& p.rect.x1 == rec.bounds.right
                    &&& p.rect.y1 == rec.bounds.bottom
                    &&& p.color.len() == 4
                    &&& forall|c: int|
                        0 <= c < 4 ==> #[trigger] p.color[c] == last_channel(rec.channels, c)
                    &&& p.alpha == last_channel(rec.channels, -1)
                }
                &&& forall|x: int, y: int| #[trigger]
                    n.bounds.contains(x, y) <==> canvas.contains(x, y) && rec.bounds.left <= x
                        < rec.bounds.right && rec.bounds.top <= y < rec.bounds.bottom
            }
        }),
{
    unsupported_is_found(rec.channels);
}

/// A folder becomes a group with its children and the rectangle that they take. It passes through
/// where its blend key is `pass`, and is open where the divider says so.
pub proof fn folders_become_groups(
    rec: layers::LayerView,
    children: Seq<NodeId>,
    bounds: Bounds,
    canvas: Bounds,
)
    ensures
        ({
            let n = node_of(rec, Some((children, bounds)), canvas);
            &&& n.bounds == bounds
            &&& n.kind == (KindView::Group {
                children,
                pass_through: rec.blend == seq![112u8, 97u8, 115u8, 115u8],
                expanded: rec.divider == 1,
            })
        }),
{
    assert(bytes::key4('p', 'a', 's', 's') =~= seq![112u8, 97u8, 115u8, 115u8]);
}

/// What one more channel adds to the masks: a mask with the rectangle, the value outside and the
/// inversion that the record gives for it, where the channel is that of a mask that is switched on
/// and can be unpacked; and else nothing.
pub proof fn masks_come_with_their_channels(
    s: Seq<(i16, channel::ChannelView)>,
    id: i16,
    c: channel::ChannelView,
    user: Option<MaskInfo>,
    second: Option<MaskInfo>,
)
    ensures
        masks_from(seq![], user, second) == Seq::<MaskView>::empty(),
        ({
            let before = masks_from(s, user, second);
            let after = masks_from(s.push((id, c)), user, second);
            let info = if id == -2 {
                user
            } else if id == -3 {
                second
            } else {
                None
            };
            match info {
                Some(m) => if m.disabled || c.compression is Unsupported {
                    after == before
                } else {
                    &&& after.len() == before.len() + 1
                    &&& after.drop_last() == before
                    &&& after.last().rect.x0 == m.rect.left
                    &&& after.last().rect.y0 == m.rect.top
                    &&& after.last().rect.x1 == m.rect.right
                    &&& after.last().rect.y1 == m.rect.bottom
                    &&& after.last().default == m.default
                    &&& after.last().invert == m.invert
                    &&& after.last().channel == c
                },
                None => after == before,
            }
        }),
{
    let more = s.push((id, c));
    assert(more.drop_last() =~= s);
    assert(more.last() == (id, c));
    let before = masks_from(s, user, second);
    let after = masks_from(more, user, second);
    if id == -2 {
        assert(after == before + mask_from(user, c));
        assert(mask_from(user, c).len() == 0 ==> after =~= before);
        assert(mask_from(user, c).len() == 1 ==> after.drop_last() =~= before);
    } else if id == -3 {
        assert(after == before + mask_from(second, c));
        assert(mask_from(second, c).len() == 0 ==> after =~= before);
        assert(mask_from(second, c).len() == 1 ==> after.drop_last() =~= before);
    }
}

} // verus!
