use vstd::prelude::*;
use crate::{ButtonLabel, MouseEvent};
use crate::tracker::Tracker;

verus! {

/// The three resting points of the session state machine.
#[derive(Clone, Copy, Debug, PartialEq, Eq, Structural)]
pub enum SessionState {
    Idle,
    Recording,
    Replaying,
}

/// One event arriving from the input-delivery thread, already reduced to
/// plain values: a pointer position, a click, or one of the three trigger
/// keys. Events that are none of these are not forwarded to the controller.
#[derive(Clone, Copy, Debug, PartialEq, Eq, Structural)]
pub enum InputEvent {
    PointerMove { x: i32, y: i32 },
    ButtonPress { button: ButtonLabel },
    ToggleKey,
    ReplayKey,
    ExitKey,
}

/// What the caller must do after a transition. Where a directive carries a
/// timeline, that timeline has been detached from the recorder: persisting
/// it comes first, and no later `append` can reach it. `SaveThenReplay`
/// orders the save strictly before the replay, so recording and replay are
/// never concurrent.
#[derive(Debug, PartialEq)]
pub enum Directive {
    NoAction,
    Save { timeline: Vec<MouseEvent> },
    SaveThenReplay { timeline: Vec<MouseEvent> },
    Replay,
    SaveThenExit { timeline: Vec<MouseEvent> },
    Exit,
}

/// The single-writer state holder: session state, last-seen pointer
/// position, and the recorder. All shared mutation goes through its
/// transition entry points, one atomic step per input event.
pub struct Controller {
    state: SessionState,
    last_x: i32,
    last_y: i32,
    tracker: Tracker,
}

/// What one transition step means: relates the controller before and after
/// `handle`, the event, its arrival time, and the directive handed back.
pub open spec fn transition(
    pre: Controller,
    ev: InputEvent,
    t: u64,
    post: Controller,
    d: Directive,
) -> bool {
    match pre.state() {
        SessionState::Recording => match ev {
            InputEvent::PointerMove { x, y } => {
                &&& post.state() == SessionState::Recording
                &&& post.pos() == (x, y)
                &&& post.recorded() == pre.recorded().push(
                    MouseEvent { x, y, button: None, time_us: t },
                )
                &&& d == Directive::NoAction
            },
            InputEvent::ButtonPress { button } => {
                &&& post.state() == SessionState::Recording
                &&& post.pos() == pre.pos()
                &&& post.recorded() == pre.recorded().push(
                    MouseEvent {
                        x: pre.pos().0,
                        y: pre.pos().1,
                        button: Some(button),
                        time_us: t,
                    },
                )
                &&& d == Directive::NoAction
            },
            InputEvent::ToggleKey => {
                &&& post.state() == SessionState::Idle
                &&& post.pos() == pre.pos()
                &&& post.recorded() == Seq::<MouseEvent>::empty()
                &&& d matches Directive::Save { timeline } && timeline@ == pre.recorded()
            },
            InputEvent::ReplayKey => {
                &&& post.state() == SessionState::Replaying
                &&& post.pos() == pre.pos()
                &&& post.recorded() == Seq::<MouseEvent>::empty()
                &&& d matches Directive::SaveThenReplay { timeline } && timeline@ == pre.recorded()
            },
            InputEvent::ExitKey => {
                &&& post.state() == SessionState::Idle
                &&& post.pos() == pre.pos()
                &&& post.recorded() == Seq::<MouseEvent>::empty()
                &&& d matches Directive::SaveThenExit { timeline } && timeline@ == pre.recorded()
            },
        },
        SessionState::Idle => match ev {
            InputEvent::ToggleKey => {
                &&& post.state() == SessionState::Recording
                &&& post.pos() == pre.pos()
                &&& post.recorded() == Seq::<MouseEvent>::empty()
                &&& d == Directive::NoAction
            },
            InputEvent::ReplayKey => {
                &&& post.state() == SessionState::Replaying
                &&& post.pos() == pre.pos()
                &&& post.recorded() == pre.recorded()
                &&& d == Directive::Replay
            },
            InputEvent::ExitKey => {
                &&& post == pre
                &&& d == Directive::Exit
            },
            _ => {
                // Moves and clicks outside a recording are dropped, not
                // buffered, and do not even update the tracked position.
                &&& post == pre
                &&& d == Directive::NoAction
            },
        },
        SessionState::Replaying => {
            &&& post == pre
            &&& d == Directive::NoAction
        },
    }
}

/// Mutual exclusion of recording and replay: a replay trigger that arrives
/// while recording detaches the live timeline into a save-then-replay
/// directive — persisted before the replayer can see a single sample — and
/// leaves the recorder empty, so no later append can land in it; recording
/// is over before the replay starts.
pub proof fn lemma_replay_excludes_recording(
    pre: Controller,
    t: u64,
    post: Controller,
    d: Directive,
)
    requires
        pre.state() == SessionState::Recording,
        transition(pre, InputEvent::ReplayKey, t, post, d),
    ensures
        post.state() == SessionState::Replaying,
        post.recorded() == Seq::<MouseEvent>::empty(),
        d matches Directive::SaveThenReplay { timeline } && timeline@ == pre.recorded(),
{
}

impl Controller {
    pub closed spec fn state(&self) -> SessionState {
        self.state
    }

    /// The last pointer position seen while recording.
    pub closed spec fn pos(&self) -> (i32, i32) {
        (self.last_x, self.last_y)
    }

    /// The samples of the live timeline, in insertion order.
    pub closed spec fn recorded(&self) -> Seq<MouseEvent> {
        self.tracker@
    }

    /// A fresh controller: idle, position (0, 0), empty timeline.
    pub fn new() -> (c: Controller)
        ensures
            c.state() == SessionState::Idle,
            c.pos() == (0i32, 0i32),
            c.recorded() == Seq::<MouseEvent>::empty(),
    {
        Controller { state: SessionState::Idle, last_x: 0, last_y: 0, tracker: Tracker::new() }
    }

    pub fn current_state(&self) -> (s: SessionState)
        ensures
            s == self.state(),
    {
        self.state
    }

    /// Drives the state machine by one input event, arrived `time_us`
    /// microseconds after the session started. The directive tells the
    /// caller what outside work follows; any timeline it carries is already
    /// detached, so a later event can never append to it.
    pub fn handle(&mut self, ev: InputEvent, time_us: u64) -> (d: Directive)
        ensures
            transition(*old(self), ev, time_us, *final(self), d),
    {
        match self.state {
            SessionState::Recording => match ev {
                InputEvent::PointerMove { x, y } => {
                    self.last_x = x;
                    self.last_y = y;
                    self.tracker.add_event(x, y, None, time_us);
                    Directive::NoAction
                },
                InputEvent::ButtonPress { button } => {
                    self.tracker.add_event(self.last_x, self.last_y, Some(button), time_us);
                    Directive::NoAction
                },
                InputEvent::ToggleKey => {
                    self.state = SessionState::Idle;
                    let timeline = self.tracker.take();
                    Directive::Save { timeline }
                },
                InputEvent::ReplayKey => {
                    self.state = SessionState::Replaying;
                    let timeline = self.tracker.take();
                    Directive::SaveThenReplay { timeline }
                },
                InputEvent::ExitKey => {
                    self.state = SessionState::Idle;
                    let timeline = self.tracker.take();
                    Directive::SaveThenExit { timeline }
                },
            },
            SessionState::Idle => match ev {
                InputEvent::ToggleKey => {
                    self.state = SessionState::Recording;
                    // A recording always starts on a fresh timeline.
                    self.tracker = Tracker::new();
                    Directive::NoAction
                },
                InputEvent::ReplayKey => {
                    self.state = SessionState::Replaying;
                    Directive::Replay
                },
                InputEvent::ExitKey => Directive::Exit,
                _ => Directive::NoAction,
            },
            SessionState::Replaying => Directive::NoAction,
        }
    }

    /// Called when a replay has run to completion: the session returns to
    /// `Idle`; nothing else changes.
    pub fn replay_finished(&mut self)
        ensures
            final(self).state() == SessionState::Idle,
            final(self).pos() == old(self).pos(),
            final(self).recorded() == old(self).recorded(),
    {
        self.state = SessionState::Idle;
    }
}

} // verus!
