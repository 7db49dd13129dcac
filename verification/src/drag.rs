//! A drag as the compositor reports it, and how each report is answered.
use vstd::prelude::*;

use std::collections::HashMap;

verus! {

/// A report of the compositor. A number stands for each offer of data.
#[derive(Debug)]
pub enum DragEvent {
    /// An offer is made.
    Offer { id: u32 },
    /// An offer holds data of a type.
    Type { id: u32, mime: String },
    /// A drag enters the window, with its offer.
    Enter { offer: Option<u32> },
    /// The drag leaves the window.
    Leave,
    /// The data is dropped.
    Drop,
    /// The clipboard has an offer.
    Selection { offer: Option<u32> },
}

/// What is done.
#[derive(Clone, Copy, Debug, PartialEq, Eq, Structural)]
pub enum DragAction {
    /// The offer is destroyed.
    Destroy(u32),
    /// The compositor is told whether the offer is accepted, as a list of files.
    Accept { id: u32, accepted: bool },
    /// The window is told whether files are over it.
    Hover(bool),
    /// The files of the offer are received. Then it is finished and destroyed.
    Receive(u32),
}

/// The state of a drag.
pub struct Drag {
    /// The offers that are known, and whether each of them holds a list of files.
    offers: HashMap<u32, bool>,
    /// The offer of the drag over the window, and whether it was accepted.
    current: Option<(u32, bool)>,
}

/// The state of a drag, in mathematical terms.
#[verifier::ext_equal]
pub struct DragView {
    pub offers: Map<u32, bool>,
    pub current: Option<(u32, bool)>,
}

impl View for Drag {
    type V = DragView;

    closed spec fn view(&self) -> DragView {
        DragView { offers: self.offers@, current: self.current }
    }
}

impl DragView {
    /// Whether the offer holds a list of files.
    pub open spec fn has_files(self, id: u32) -> bool {
        self.offers.contains_key(id) && self.offers[id]
    }

    /// Without the offer.
    pub open spec fn forget(self, id: u32) -> DragView {
        DragView { offers: self.offers.remove(id), ..self }
    }

    /// Without the offer of the drag, which is destroyed.
    pub open spec fn released(self) -> (DragView, Seq<DragAction>) {
        match self.current {
            Some((id, _)) => (
                DragView { current: None, ..self.forget(id) },
                seq![DragAction::Destroy(id)],
            ),
            None => (self, seq![]),
        }
    }

    /// The state after a report, and what is done.
    pub open spec fn after(self, event: DragEvent) -> (DragView, Seq<DragAction>) {
        match event {
            DragEvent::Offer { id } => (
                DragView { offers: self.offers.insert(id, false), ..self },
                seq![],
            ),
            DragEvent::Type { id, mime } => (
                DragView {
                    offers: self.offers.insert(
                        id,
                        self.has_files(id) || mime@ == "text/uri-list"@,
                    ),
                    ..self
                },
                seq![],
            ),
            DragEvent::Enter { offer } => {
                let (rest, actions) = self.released();
                match offer {
                    Some(id) => {
                        let accepted = rest.has_files(id);
                        let answered = actions.push(DragAction::Accept { id, accepted });
                        (
                            DragView { current: Some((id, accepted)), ..rest },
                            if accepted {
                                answered.push(DragAction::Hover(true))
                            } else {
                                answered
                            },
                        )
                    },
                    None => (rest, actions),
                }
            },
            DragEvent::Leave => {
                let (rest, actions) = self.released();
                (rest, actions.push(DragAction::Hover(false)))
            },
            DragEvent::Drop => match self.current {
                Some((id, true)) => (
                    DragView { current: None, ..self.forget(id) },
                    seq![DragAction::Receive(id), DragAction::Hover(false)],
                ),
                _ => {
                    let (rest, actions) = self.released();
                    (rest, actions.push(DragAction::Hover(false)))
                },
            },
            DragEvent::Selection { offer: Some(id) } => (
                self.forget(id),
                seq![DragAction::Destroy(id)],
            ),
            DragEvent::Selection { offer: None } => (self, seq![]),
        }
    }
}

impl Drag {
    /// Nothing is offered.
    pub fn new() -> (d: Drag)
        ensures
            d@ == (DragView { offers: Map::empty(), current: None }),
    {
        Drag { offers: HashMap::new(), current: None }
    }

    /// Whether the offer holds a list of files.
    fn has_files(&self, id: u32) -> (r: bool)
        ensures
            r == self@.has_files(id),
    {
        broadcast use vstd::std_specs::hash::group_hash_axioms;

        match self.offers.get(&id) {
            Some(files) => *files,
            None => false,
        }
    }

    /// Forgets and destroys the offer of the drag.
    fn release(&mut self, actions: &mut Vec<DragAction>)
        requires
            old(actions)@ == Seq::<DragAction>::empty(),
        ensures
            final(self)@ == old(self)@.released().0,
            final(actions)@ == old(self)@.released().1,
    {
        broadcast use vstd::std_specs::hash::group_hash_axioms;

        if let Some((id, _)) = self.current {
            self.current = None;
            self.offers.remove(&id);
            actions.push(DragAction::Destroy(id));
        }
        assert(self@.offers =~= old(self)@.released().0.offers);
        assert(actions@ =~= old(self)@.released().1);
    }

    /// Takes a report. The result is what is done, in this order.
    pub fn handle(&mut self, event: DragEvent) -> (actions: Vec<DragAction>)
        ensures
            final(self)@ == old(self)@.after(event).0,
            actions@ == old(self)@.after(event).1,
    {
        broadcast use vstd::std_specs::hash::group_hash_axioms;

        let mut actions: Vec<DragAction> = Vec::new();
        match event {
            DragEvent::Offer { id } => {
                self.offers.insert(id, false);
            },
            DragEvent::Type { id, mime } => {
                let files = self.has_files(id) || mime == "text/uri-list".to_owned();
                self.offers.insert(id, files);
            },
            DragEvent::Enter { offer } => {
                self.release(&mut actions);
                if let Some(id) = offer {
                    let accepted = self.has_files(id);
                    actions.push(DragAction::Accept { id, accepted });
                    self.current = Some((id, accepted));
                    if accepted {
                        actions.push(DragAction::Hover(true));
                    }
                }
            },
            DragEvent::Leave => {
                self.release(&mut actions);
                actions.push(DragAction::Hover(false));
            },
            DragEvent::Drop => {
                match self.current {
                    Some((id, true)) => {
                        self.current = None;
                        self.offers.remove(&id);
                        actions.push(DragAction::Receive(id));
                    },
                    _ => self.release(&mut actions),
                }
                actions.push(DragAction::Hover(false));
            },
            DragEvent::Selection { offer } => {
                if let Some(id) = offer {
                    self.offers.remove(&id);
                    actions.push(DragAction::Destroy(id));
                }
            },
        }
        assert(actions@ =~= old(self)@.after(event).1);
        actions
    }
}

/// An offer is accepted only when its drag enters, and only where it holds a list of files.
pub proof fn only_files_are_accepted(before: DragView, event: DragEvent, id: u32)
    requires
        before.after(event).1.contains(DragAction::Accept { id, accepted: true }),
    ensures
        event == (DragEvent::Enter { offer: Some(id) }),
        before.released().0.has_files(id),
        before.after(event).0.current == Some((id, true)),
{
}

/// Files are received only when the drag that was accepted is dropped, and the offer is forgotten
/// then, so that it is neither received nor destroyed again on account of the drag.
pub proof fn only_accepted_offers_are_received(before: DragView, event: DragEvent, id: u32)
    requires
        before.after(event).1.contains(DragAction::Receive(id)),
    ensures
        event is Drop,
        before.current == Some((id, true)),
        before.after(event).0.current is None,
        !before.after(event).0.offers.contains_key(id),
{
}

/// When a drag leaves or is dropped, the window is told last that nothing is over it.
pub proof fn drags_end_without_hover(before: DragView, event: DragEvent)
    requires
        event is Leave || event is Drop,
    ensures
        before.after(event).1.len() > 0,
        before.after(event).1.last() == DragAction::Hover(false),
        before.after(event).0.current is None,
{
}

/// A drag of files is received: an offer that holds a list of files, perhaps beside other types, is
/// accepted when it enters, the window is told so, and its files are received when it is dropped.
pub proof fn dragged_files_are_received(
    before: DragView,
    id: u32,
    kind: DragEvent,
    other: DragEvent,
)
    requires
        before.current matches Some((current, _)) ==> current != id,
        kind matches DragEvent::Type { id: of, mime } && of == id && mime@ == "text/uri-list"@,
        other matches DragEvent::Type { id: of, mime } && of == id,
    ensures
        ({
            let offered = before.after(DragEvent::Offer { id }).0.after(kind).0.after(other).0;
            let entered = offered.after(DragEvent::Enter { offer: Some(id) });
            let dropped = entered.0.after(DragEvent::Drop);
            &&& entered.1.contains(DragAction::Accept { id, accepted: true })
            &&& entered.1.last() == DragAction::Hover(true)
            &&& dropped.1 == seq![DragAction::Receive(id), DragAction::Hover(false)]
            &&& dropped.0.current is None
        }),
{
    let offered = before.after(DragEvent::Offer { id }).0.after(kind).0.after(other).0;
    let entered = offered.after(DragEvent::Enter { offer: Some(id) });
    let n = offered.released().1.len() as int;
    assert(entered.1[n] == (DragAction::Accept { id, accepted: true }));
}

/// A drag of anything else is refused: an offer without a list of files is not accepted, the window
/// is told of nothing, and the offer is destroyed when it is dropped or leaves.
pub proof fn other_drags_are_refused(before: DragView, id: u32, kind: DragEvent, end: DragEvent)
    requires
        before.current matches Some((current, _)) ==> current != id,
        kind matches DragEvent::Type { id: of, mime } && of == id && mime@ != "text/uri-list"@,
        end is Leave || end is Drop,
    ensures
        ({
            let offered = before.after(DragEvent::Offer { id }).0.after(kind).0;
            let entered = offered.after(DragEvent::Enter { offer: Some(id) });
            let ended = entered.0.after(end);
            &&& entered.1.last() == (DragAction::Accept { id, accepted: false })
            &&& !entered.1.contains(DragAction::Hover(true))
            &&& ended.1 == seq![DragAction::Destroy(id), DragAction::Hover(false)]
            &&& ended.0.current is None
            &&& !ended.0.offers.contains_key(id)
        }),
{
}

/// No offer is left over: when another drag enters, that of the drag before it is destroyed and
/// forgotten, and an offer of the clipboard is destroyed at once.
pub proof fn offers_are_not_left_over(before: DragView, old_id: u32, accepted: bool, id: u32)
    requires
        before.current == Some((old_id, accepted)),
        old_id != id,
    ensures
        ({
            let entered = before.after(DragEvent::Enter { offer: Some(id) });
            let cleared = before.after(DragEvent::Selection { offer: Some(id) });
            &&& entered.1[0] == DragAction::Destroy(old_id)
            &&& !entered.0.offers.contains_key(old_id)
            &&& entered.0.current matches Some((now, _)) && now == id
            &&& cleared.1 == seq![DragAction::Destroy(id)]
            &&& !cleared.0.offers.contains_key(id)
            &&& cleared.0.current == before.current
        }),
{
}

} // verus!
