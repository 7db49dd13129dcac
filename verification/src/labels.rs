//! What the window says about a file and its layers.
use vstd::prelude::*;

use crate::node;
use crate::node::{Node, NodeId, NodeKind};
use crate::text;

verus! {

/// An opacity in whole percent.
pub open spec fn percent(opacity: u8) -> nat {
    ((200 * opacity + 255) / 510) as nat
}

/// The percentage is the whole number that is nearest to the opacity.
pub proof fn percent_is_nearest(opacity: u8, other: int)
    requires
        other != percent(opacity),
    ensures
        ({
            let exact = 100 * opacity;
            let d = exact - 255 * percent(opacity);
            let e = exact - 255 * other;
            (if d < 0 {
                -d
            } else {
                d
            }) < if e < 0 {
                -e
            } else {
                e
            }
        }),
{
}

/// The name of a layer in the list. A clipped layer is marked.
pub open spec fn label_text(n: node::NodeView) -> Seq<char> {
    if n.clipped {
        "↳ "@ + n.name
    } else {
        n.name
    }
}

/// What is noted beside the name of a layer.
pub open spec fn tag_texts(n: node::NodeView) -> Seq<Seq<char>> {
    let opacity = if n.opacity < 255 {
        seq![text::decimal_text(percent(n.opacity)) + "%"@]
    } else {
        seq![]
    };
    let effects = if n.has_effects {
        seq!["fx 未対応"@]
    } else {
        seq![]
    };
    let reason = match n.kind {
        node::KindView::Unsupported { reason } => seq![reason],
        _ => seq![],
    };
    opacity + effects + reason
}

/// The notes on one line.
pub open spec fn joined(s: Seq<Seq<char>>) -> Seq<char>
    decreases s.len(),
{
    if s.len() == 0 {
        seq![]
    } else if s.len() == 1 {
        s[0]
    } else {
        joined(s.drop_last()) + " / "@ + s.last()
    }
}

/// The name of a layer in the list.
pub fn layer_label(n: &Node) -> (s: String)
    ensures
        s@ == label_text(n@),
{
    if n.clipped {
        let mut s = "↳ ".to_owned();
        s.append(n.name.as_str());
        s
    } else {
        n.name.as_str().to_owned()
    }
}

/// Adds a note to those that stand on the line.
fn add_tag(line: &mut String, any: bool, tag: &str, Ghost(tags): Ghost<Seq<Seq<char>>>)
    requires
        any == (tags.len() > 0),
        old(line)@ == joined(tags),
    ensures
        final(line)@ == joined(tags.push(tag@)),
{
    if any {
        line.append(" / ");
    }
    line.append(tag);
    proof {
        let all = tags.push(tag@);
        assert(all.drop_last() =~= tags);
        assert(line@ =~= joined(all));
    }
}

/// What is noted beside the name of a layer, on one line.
pub fn layer_tags(n: &Node) -> (s: String)
    ensures
        s@ == joined(tag_texts(n@)),
{
    let mut line = String::new();
    let mut any = false;
    let ghost mut tags: Seq<Seq<char>> = seq![];
    if n.opacity < 255 {
        let value: u64 = (200 * n.opacity as u64 + 255) / 510;
        let mut tag = text::decimal(value);
        tag.append("%");
        add_tag(&mut line, any, tag.as_str(), Ghost(tags));
        any = true;
        proof {
            tags = tags.push(tag@);
        }
    }
    if n.has_effects {
        add_tag(&mut line, any, "fx 未対応", Ghost(tags));
        any = true;
        proof {
            tags = tags.push("fx 未対応"@);
        }
    }
    if let NodeKind::Unsupported { reason } = &n.kind {
        add_tag(&mut line, any, reason.as_str(), Ghost(tags));
        proof {
            tags = tags.push(reason@);
        }
    }
    assert(tags =~= tag_texts(n@));
    line
}

/// The nodes `ids` of one group as the list shows them, from top to bottom, each with whether it
/// can be seen: it is switched on, and its group can be seen.
pub fn list_rows(ids: &Vec<NodeId>, visible: &[bool], group_seen: bool) -> (r: Vec<(NodeId, bool)>)
    requires
        forall|i: int| 0 <= i < ids@.len() ==> (#[trigger] ids@[i]) < visible@.len(),
    ensures
        r@ == Seq::new(
            ids@.len(),
            |i: int|
                {
                    let id = ids@[ids@.len() - 1 - i];
                    (id, group_seen && visible@[id as int])
                },
        ),
{
    let n: usize = ids.len();
    let mut r: Vec<(NodeId, bool)> = Vec::new();
    let mut i: usize = 0;
    while i < n
        invariant
            i <= n == ids@.len(),
            forall|k: int| 0 <= k < ids@.len() ==> (#[trigger] ids@[k]) < visible@.len(),
            r@ =~= Seq::new(
                i as nat,
                |k: int|
                    {
                        let id = ids@[ids@.len() - 1 - k];
                        (id, group_seen && visible@[id as int])
                    },
            ),
        decreases n - i,
    {
        let id = ids[n - 1 - i];
        r.push((id, group_seen && visible[id]));
        i = i + 1;
    }
    r
}

/// The title of the window for a file.
pub fn window_title(file_name: Option<&str>) -> (s: String)
    ensures
        match file_name {
            Some(name) => s@ == name@ + " - PSD Viewer"@,
            None => s@ == "PSD Viewer"@,
        },
{
    match file_name {
        Some(name) => {
            let mut s = name.to_owned();
            s.append(" - PSD Viewer");
            s
        },
        None => "PSD Viewer".to_owned(),
    }
}

/// What the user is told when a file cannot be opened.
pub fn open_error(path: &str, reason: &str) -> (s: String)
    ensures
        s@ == path@ + ": "@ + reason@,
{
    text::join3(path, ": ", reason)
}

/// Every layer is listed under its name, and a mark before it tells that it is clipped.
pub proof fn labels_end_with_the_name(n: node::NodeView)
    ensures
        ({
            let label = label_text(n);
            let before = label.len() - n.name.len();
            &&& 0 <= before
            &&& label.skip(before) == n.name
            &&& n.clipped ==> label.take(before) == "↳ "@
            &&& !n.clipped ==> before == 0
        }),
{
    let mark = "↳ "@;
    if n.clipped {
        assert(label_text(n).skip(mark.len() as int) =~= n.name);
        assert(label_text(n).take(mark.len() as int) =~= mark);
    } else {
        assert(n.name.skip(0) =~= n.name);
    }
}

/// Nothing is noted beside a layer that is shown in full.
pub proof fn full_layers_have_no_notes(n: node::NodeView)
    ensures
        tag_texts(n).len() == 0 <==> n.opacity == 255 && !n.has_effects && !(n.kind is Unsupported),
{
}

/// An opacity that is not full is noted first, in percent.
pub proof fn opacities_are_noted(n: node::NodeView)
    requires
        n.opacity < 255,
    ensures
        tag_texts(n)[0].last() == '%',
        crate::fonts::digits_value(tag_texts(n)[0].drop_last()) == Some(percent(n.opacity) as int),
{
    reveal_strlit("%");
    let digits = text::decimal_text(percent(n.opacity));
    crate::fonts::numbers_are_read_back(percent(n.opacity));
    assert((digits + "%"@).drop_last() =~= digits);
}

/// The reason why a layer is not shown is noted last.
pub proof fn reasons_are_noted(n: node::NodeView)
    ensures
        n.kind matches node::KindView::Unsupported { reason } ==> tag_texts(n).len() > 0
            && tag_texts(n).last() == reason,
{
}

/// All the notes stand on the line, in their order, with a stroke between two of them.
pub proof fn notes_are_joined(a: Seq<Seq<char>>, b: Seq<Seq<char>>)
    requires
        a.len() > 0,
        b.len() > 0,
    ensures
        joined(a + b) == joined(a) + " / "@ + joined(b),
        a.len() == 1 ==> joined(a) == a[0],
    decreases b.len(),
{
    let all = a + b;
    assert(all.last() == b.last());
    if b.len() == 1 {
        assert(all.drop_last() =~= a);
        assert(joined(all) =~= joined(a) + " / "@ + joined(b));
    } else {
        assert(all.drop_last() =~= a + b.drop_last());
        notes_are_joined(a, b.drop_last());
        assert(joined(all) =~= joined(a) + " / "@ + joined(b));
    }
}

} // verus!
