//! Reading a pipe to its end, or until no data comes for some time.
use vstd::prelude::*;

verus! {

/// What has happened at the pipe.
#[derive(Clone, Copy, Debug)]
pub enum PipeEvent<'a> {
    /// The wait for data is over. The number is positive where there is something to read, which
    /// may be the end; else the time ran out or the wait failed.
    Waited(i32),
    /// Bytes were read. There are none at the end.
    Read(&'a [u8]),
    /// Reading was interrupted.
    Interrupted,
    /// Reading failed.
    Failed,
}

/// What has happened at the pipe, in mathematical terms.
pub enum PipeEventView {
    Waited(int),
    Read(Seq<u8>),
    Interrupted,
    Failed,
}

impl View for PipeEvent<'_> {
    type V = PipeEventView;

    open spec fn view(&self) -> PipeEventView {
        match self {
            PipeEvent::Waited(n) => PipeEventView::Waited(*n as int),
            PipeEvent::Read(chunk) => PipeEventView::Read(chunk@),
            PipeEvent::Interrupted => PipeEventView::Interrupted,
            PipeEvent::Failed => PipeEventView::Failed,
        }
    }
}

/// What is done next.
#[derive(Clone, Copy, Debug, PartialEq, Eq, Structural)]
pub enum PipeAction {
    /// Waits for data.
    Wait,
    /// Reads some bytes.
    Read,
    /// Stops, with nothing to show.
    GiveUp,
    /// Stops, with all the bytes that were read.
    Done,
}

/// What is done after an event.
pub open spec fn reply(event: PipeEventView) -> PipeAction {
    match event {
        PipeEventView::Waited(n) => if n > 0 {
            PipeAction::Read
        } else {
            PipeAction::GiveUp
        },
        PipeEventView::Read(chunk) => if chunk.len() == 0 {
            PipeAction::Done
        } else {
            PipeAction::Wait
        },
        PipeEventView::Interrupted => PipeAction::Wait,
        PipeEventView::Failed => PipeAction::GiveUp,
    }
}

/// The bytes that an event brings.
pub open spec fn brought(event: PipeEventView) -> Seq<u8> {
    match event {
        PipeEventView::Read(chunk) => chunk,
        _ => seq![],
    }
}

/// The bytes that have come with the events.
pub open spec fn collected(events: Seq<PipeEventView>) -> Seq<u8>
    decreases events.len(),
{
    if events.len() == 0 {
        seq![]
    } else {
        collected(events.drop_last()) + brought(events.last())
    }
}

/// The bytes that have been read from a pipe. At first there are none, and data is waited for.
#[derive(Debug)]
pub struct Pipe {
    bytes: Vec<u8>,
}

impl View for Pipe {
    type V = Seq<u8>;

    closed spec fn view(&self) -> Seq<u8> {
        self.bytes@
    }
}

impl Pipe {
    /// Nothing has been read.
    pub fn new() -> (p: Pipe)
        ensures
            p@ == Seq::<u8>::empty(),
    {
        Pipe { bytes: Vec::new() }
    }

    /// Takes an event in and says what is done next.
    pub fn handle(&mut self, event: PipeEvent<'_>) -> (action: PipeAction)
        ensures
            action == reply(event@),
            final(self)@ == old(self)@ + brought(event@),
    {
        match event {
            PipeEvent::Waited(n) => if n > 0 {
                PipeAction::Read
            } else {
                PipeAction::GiveUp
            },
            PipeEvent::Read(chunk) => {
                self.bytes.extend_from_slice(chunk);
                assert(self.bytes@ =~= old(self).bytes@ + chunk@);
                if chunk.len() == 0 {
                    PipeAction::Done
                } else {
                    PipeAction::Wait
                }
            },
            PipeEvent::Interrupted => PipeAction::Wait,
            PipeEvent::Failed => PipeAction::GiveUp,
        }
    }

    /// The bytes that have been read.
    pub fn into_bytes(self) -> (bytes: Vec<u8>)
        ensures
            bytes@ == self@,
    {
        self.bytes
    }
}

/// The events of a pipe into which the chunks are written one after the other and which is then
/// closed.
pub open spec fn written(chunks: Seq<Seq<u8>>) -> Seq<PipeEventView>
    decreases chunks.len(),
{
    if chunks.len() == 0 {
        seq![PipeEventView::Waited(1), PipeEventView::Read(seq![])]
    } else {
        seq![PipeEventView::Waited(1), PipeEventView::Read(chunks[0])] + written(chunks.skip(1))
    }
}

/// The chunks as one.
pub open spec fn joined(chunks: Seq<Seq<u8>>) -> Seq<u8>
    decreases chunks.len(),
{
    if chunks.len() == 0 {
        seq![]
    } else {
        chunks[0] + joined(chunks.skip(1))
    }
}

/// What comes with two lists of events is what comes with the first and then with the second.
pub proof fn bytes_come_in_order(a: Seq<PipeEventView>, b: Seq<PipeEventView>)
    ensures
        collected(a + b) == collected(a) + collected(b),
    decreases b.len(),
{
    if b.len() == 0 {
        assert(a + b =~= a);
        assert(collected(a) + collected(b) =~= collected(a));
    } else {
        bytes_come_in_order(a, b.drop_last());
        assert((a + b).drop_last() =~= a + b.drop_last());
        assert(collected(a + b) =~= collected(a) + collected(b));
    }
}

/// A pipe that is closed gives all that was written into it, and the reading ends exactly then.
pub proof fn closed_pipes_are_read_in_full(chunks: Seq<Seq<u8>>)
    requires
        forall|i: int| 0 <= i < chunks.len() ==> (#[trigger] chunks[i]).len() > 0,
    ensures
        collected(written(chunks)) == joined(chunks),
        written(chunks).len() == 2 * chunks.len() + 2,
        reply(written(chunks).last()) == PipeAction::Done,
        forall|i: int|
            0 <= i < written(chunks).len() - 1 ==> reply(#[trigger] written(chunks)[i]) == if i % 2
                == 0 {
                PipeAction::Read
            } else {
                PipeAction::Wait
            },
    decreases chunks.len(),
{
    reveal_with_fuel(collected, 3);
    if chunks.len() == 0 {
        let events = written(chunks);
        assert(events.drop_last() =~= seq![PipeEventView::Waited(1)]);
        assert(events.drop_last().drop_last() =~= seq![]);
        assert(collected(events) =~= seq![]);
    } else {
        let rest = chunks.skip(1);
        assert forall|i: int| 0 <= i < rest.len() implies (#[trigger] rest[i]).len() > 0 by {
            assert(rest[i] == chunks[i + 1]);
        }
        closed_pipes_are_read_in_full(rest);
        let first = seq![PipeEventView::Waited(1), PipeEventView::Read(chunks[0])];
        assert(first.drop_last() =~= seq![PipeEventView::Waited(1)]);
        assert(first.drop_last().drop_last() =~= seq![]);
        assert(collected(first) =~= chunks[0]);
        bytes_come_in_order(first, written(rest));
        assert forall|i: int| 0 <= i < written(chunks).len() - 1 implies reply(
            #[trigger] written(chunks)[i],
        ) == if i % 2 == 0 {
            PipeAction::Read
        } else {
            PipeAction::Wait
        } by {
            if i >= 2 {
                assert(written(chunks)[i] == written(rest)[i - 2]);
            }
        }
    }
}

/// An interruption loses nothing.
pub proof fn interruptions_lose_nothing(a: Seq<PipeEventView>, b: Seq<PipeEventView>)
    ensures
        collected(a.push(PipeEventView::Interrupted) + b) == collected(a + b),
        reply(PipeEventView::Interrupted) == PipeAction::Wait,
{
    let broken = a.push(PipeEventView::Interrupted);
    assert(broken.drop_last() =~= a);
    assert(collected(broken) =~= collected(a));
    bytes_come_in_order(broken, b);
    bytes_come_in_order(a, b);
}

} // verus!
