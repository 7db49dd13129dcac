//! Files that are dropped on the window.
use vstd::prelude::*;

verus! {

/// Something that happens while files are dragged. `P` is the path of a file.
#[derive(Debug)]
pub enum DropEvent<P> {
    /// Files are over the window, or are not any more.
    Hover(bool),
    /// Files were dropped.
    Files(Vec<P>),
}

/// The receiver of these events.
#[derive(Debug)]
pub struct DropInbox {
    over: bool,
}

/// The file that is opened after the events: the first of those that were dropped last, or `first`
/// where none were.
pub open spec fn dropped_after<P>(first: Option<P>, events: Seq<DropEvent<P>>) -> Option<P>
    decreases events.len(),
{
    if events.len() == 0 {
        first
    } else {
        match events.last() {
            DropEvent::Files(files) => if files@.len() > 0 {
                Some(files@[0])
            } else {
                None
            },
            DropEvent::Hover(_) => dropped_after(first, events.drop_last()),
        }
    }
}

/// Whether files are over the window after the events.
pub open spec fn over_after<P>(over: bool, events: Seq<DropEvent<P>>) -> bool
    decreases events.len(),
{
    if events.len() == 0 {
        over
    } else {
        match events.last() {
            DropEvent::Hover(h) => h,
            DropEvent::Files(_) => over_after(over, events.drop_last()),
        }
    }
}

/// The first of the files.
fn first_of<P>(files: Vec<P>) -> (r: Option<P>)
    ensures
        r == if files@.len() > 0 {
            Some(files@[0])
        } else {
            None
        },
{
    let mut files = files;
    if files.len() > 0 {
        Some(files.swap_remove(0))
    } else {
        None
    }
}

impl DropInbox {
    /// Whether files are known to be over the window.
    pub closed spec fn is_over(&self) -> bool {
        self.over
    }

    /// Nothing is over the window.
    pub fn new() -> (b: DropInbox)
        ensures
            !b.is_over(),
    {
        DropInbox { over: false }
    }

    /// Takes the events since the last frame. The result is the file to open: `first` is one that
    /// the window itself has received.
    pub fn poll<P>(&mut self, first: Option<P>, events: Vec<DropEvent<P>>) -> (r: Option<P>)
        ensures
            r == dropped_after(first, events@),
            final(self).is_over() == over_after(old(self).is_over(), events@),
    {
        let ghost all = events@;
        let ghost start = first;
        let mut dropped = first;
        assert(all.take(0) =~= seq![]);
        for event in it: events
            invariant
                all == events@,
                it.seq() == events@,
                start == first,
                dropped == dropped_after(start, all.take(it.index() as int)),
                self.over == over_after(old(self).over, all.take(it.index() as int)),
        {
            proof {
                assert(all.take(it.index() + 1).drop_last() =~= all.take(it.index() as int));
                assert(all.take(it.index() + 1).last() == event);
            }
            match event {
                DropEvent::Hover(h) => {
                    self.over = h;
                },
                DropEvent::Files(files) => {
                    dropped = first_of(files);
                },
            }
        }
        assert(all.take(all.len() as int) =~= all);
        dropped
    }

    /// Whether files are over the window. `seen` is what the window itself knows.
    pub fn hovering(&self, seen: bool) -> (r: bool)
        ensures
            r == (self.is_over() || seen),
    {
        self.over || seen
    }
}

/// The file that is opened is the first of those that were dropped last, whatever came before, and
/// whatever moved over the window after. Where nothing was dropped, it is the one that the window
/// itself has received.
pub proof fn the_last_drop_counts<P>(
    first: Option<P>,
    over: bool,
    a: Seq<DropEvent<P>>,
    drop: DropEvent<P>,
    b: Seq<DropEvent<P>>,
)
    requires
        drop is Files,
        forall|i: int| 0 <= i < b.len() ==> (#[trigger] b[i]) is Hover,
    ensures
        drop matches DropEvent::Files(files) && dropped_after(first, a.push(drop) + b) == if files@.len()
            > 0 {
            Some(files@[0])
        } else {
            None
        },
        dropped_after(first, b) == first,
        over_after(over, a + b) == if b.len() > 0 {
            b.last() == DropEvent::<P>::Hover(true)
        } else {
            over_after(over, a)
        },
        over_after(over, a.push(drop)) == over_after(over, a),
    decreases b.len(),
{
    assert(a.push(drop).drop_last() =~= a);
    if b.len() == 0 {
        assert(a.push(drop) + b =~= a.push(drop));
        assert(a + b =~= a);
    } else {
        let before = b.drop_last();
        assert forall|i: int| 0 <= i < before.len() implies (#[trigger] before[i]) is Hover by {
            assert(before[i] == b[i]);
        }
        assert(b.last() == b[b.len() - 1]);
        the_last_drop_counts(first, over, a, drop, before);
        assert((a.push(drop) + b).drop_last() =~= a.push(drop) + before);
        assert((a + b).drop_last() =~= a + before);
    }
}

} // verus!
