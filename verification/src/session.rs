//! The window's bookkeeping: when a preview is rendered and when files are made.

use vstd::prelude::*;

verus! {

/// What is under way.
#[derive(Clone, Copy, Debug, PartialEq, Eq, Structural)]
pub struct Session {
    /// Settings changed since the last render was asked for.
    pub dirty: bool,
    /// A render is under way.
    pub in_flight: bool,
    /// Files are being made.
    pub generating: bool,
}

/// What happens.
#[derive(Clone, Copy, Debug, PartialEq, Eq, Structural)]
pub enum Event {
    /// A setting changed, or an image was opened.
    Edited,
    /// A render came back.
    Rendered,
    /// The files are made, or could not be.
    Generated,
    /// The window is drawn; tells whether an image is open.
    Frame { image: bool },
    /// A render was handed over, or could not be.
    Sent { taken: bool },
    /// Files are asked for; tells whether an image is open.
    Asked { image: bool },
}

/// What is to be done.
#[derive(Clone, Copy, Debug, PartialEq, Eq, Structural)]
pub enum Action {
    Nothing,
    Render,
    Generate,
}

/// The bookkeeping after an event.
pub open spec fn next_session(s: Session, e: Event) -> Session {
    match e {
        Event::Edited => Session { dirty: true, ..s },
        Event::Rendered => Session { in_flight: false, ..s },
        Event::Generated => Session { generating: false, ..s },
        Event::Frame { image } => s,
        Event::Sent { taken } => if taken {
            Session { dirty: false, in_flight: true, ..s }
        } else {
            s
        },
        Event::Asked { image } => if image && !s.generating {
            Session { generating: true, ..s }
        } else {
            s
        },
    }
}

/// What an event calls for: a render once settings changed and none is under way, files if
/// none are being made; neither without an image.
pub open spec fn action_for(s: Session, e: Event) -> Action {
    match e {
        Event::Frame { image } => if image && s.dirty && !s.in_flight {
            Action::Render
        } else {
            Action::Nothing
        },
        Event::Asked { image } => if image && !s.generating {
            Action::Generate
        } else {
            Action::Nothing
        },
        _ => Action::Nothing,
    }
}

impl Session {
    /// Nothing under way.
    pub fn new() -> (s: Session)
        ensures
            s == (Session { dirty: false, in_flight: false, generating: false }),
    {
        Session { dirty: false, in_flight: false, generating: false }
    }

    /// Takes note of an event and tells what is to be done.
    pub fn step(&mut self, e: Event) -> (a: Action)
        ensures
            *final(self) == next_session(*old(self), e),
            a == action_for(*old(self), e),
    {
        match e {
            Event::Edited => {
                self.dirty = true;
                Action::Nothing
            },
            Event::Rendered => {
                self.in_flight = false;
                Action::Nothing
            },
            Event::Generated => {
                self.generating = false;
                Action::Nothing
            },
            Event::Frame { image } => if image && self.dirty && !self.in_flight {
                Action::Render
            } else {
                Action::Nothing
            },
            Event::Sent { taken } => {
                if taken {
                    self.dirty = false;
                    self.in_flight = true;
                }
                Action::Nothing
            },
            Event::Asked { image } => if image && !self.generating {
                self.generating = true;
                Action::Generate
            } else {
                Action::Nothing
            },
        }
    }

    /// Whether the window has to be drawn again by itself.
    pub fn busy(&self) -> (b: bool)
        ensures
            b == (self.in_flight || self.generating),
    {
        self.in_flight || self.generating
    }

    /// Whether files can be asked for.
    pub fn can_generate(&self, image: bool) -> (b: bool)
        ensures
            b == (action_for(*self, Event::Asked { image }) == Action::Generate),
    {
        image && !self.generating
    }
}

/// The bookkeeping after the first `k` events.
pub open spec fn session_after(s: Session, events: Seq<Event>, k: int) -> Session
    decreases k,
{
    if k <= 0 {
        s
    } else {
        next_session(session_after(s, events, k - 1), events[k - 1])
    }
}

/// Only one render is under way at a time: none is called for while one is.
pub proof fn lemma_one_render(s: Session, e: Event)
    ensures
        action_for(s, e) == Action::Render ==> !s.in_flight && s.dirty,
        s.in_flight ==> action_for(s, e) != Action::Render,
        s.generating ==> action_for(s, e) != Action::Generate,
{
}

/// No change is lost: once a setting changed, the next frame with an image and no render
/// under way calls for one, unless one was handed over since.
pub proof fn lemma_change_kept(s: Session, events: Seq<Event>, i: int, k: int)
    requires
        0 <= i < k <= events.len(),
        events[i] == Event::Edited,
        forall|j: int| i < j < k ==> #[trigger] events[j] != (Event::Sent { taken: true }),
        !session_after(s, events, k).in_flight,
    ensures
        action_for(session_after(s, events, k), Event::Frame { image: true }) == Action::Render,
{
    lemma_stays_dirty(s, events, i, k);
}

proof fn lemma_stays_dirty(s: Session, events: Seq<Event>, i: int, k: int)
    requires
        0 <= i < k <= events.len(),
        events[i] == Event::Edited,
        forall|j: int| i < j < k ==> #[trigger] events[j] != (Event::Sent { taken: true }),
    ensures
        session_after(s, events, k).dirty,
    decreases k,
{
    if k - 1 > i {
        lemma_stays_dirty(s, events, i, k - 1);
        assert(events[k - 1] != (Event::Sent { taken: true }));
    }
}

/// A render is called for by just the frames with an image after a change, while none is under
/// way, and files by just the requests with an image while none are being made.
pub proof fn lemma_called_for(s: Session, image: bool)
    ensures
        image && s.dirty && !s.in_flight <==> action_for(s, Event::Frame { image })
            == Action::Render,
        image && !s.generating <==> action_for(s, Event::Asked { image }) == Action::Generate,
        action_for(s, Event::Frame { image }) != Action::Generate,
        action_for(s, Event::Asked { image }) != Action::Render,
        action_for(s, Event::Edited) == Action::Nothing,
        action_for(s, Event::Rendered) == Action::Nothing,
        action_for(s, Event::Generated) == Action::Nothing,
        action_for(s, Event::Sent { taken: image }) == Action::Nothing,
{
}

/// Renders and files are kept apart: what happens to one leaves the bookkeeping of the other
/// as it is.
pub proof fn lemma_kept_apart(s: Session, e: Event)
    ensures
        e is Asked || e is Generated ==> next_session(s, e).dirty == s.dirty && next_session(
            s,
            e,
        ).in_flight == s.in_flight,
        !(e is Asked || e is Generated) ==> next_session(s, e).generating == s.generating,
{
}

/// A render that is handed over is under way until it comes back, and files that are asked for
/// until they are made; a change while a render is under way calls for another one after it.
pub proof fn lemma_rounds(s: Session)
    ensures
        ({
            let sent = next_session(s, Event::Sent { taken: true });
            let back = next_session(sent, Event::Rendered);
            let again = next_session(next_session(sent, Event::Edited), Event::Rendered);
            &&& sent.in_flight && !sent.dirty
            &&& !back.in_flight && !back.dirty
            &&& !again.in_flight && again.dirty
            &&& next_session(s, Event::Sent { taken: false }) == s
        }),
        !s.generating ==> next_session(s, Event::Asked { image: true }).generating,
        next_session(s, Event::Asked { image: false }) == s,
        !next_session(s, Event::Generated).generating,
        next_session(s, Event::Edited).dirty,
{
}

} // verus!
