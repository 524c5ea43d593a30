//! The life of one server's session: when to connect, how long to wait, and when to end.
use crate::clock::{doubled, next_backoff};
use vstd::prelude::*;

verus! {

/// What a server's task is doing.
#[derive(Debug, Clone, Copy, PartialEq, Eq, Structural)]
pub enum Phase {
    /// A connection is being made.
    Connecting,
    /// The next attempt is waited for.
    Pausing,
    /// The session is up, and its device types are being read.
    Serving,
    /// Nothing more will happen.
    Ended,
}

/// What happens to a server's task.
///
/// Stopping and removing are different things. A server is stopped when the process ends, and
/// when it is merely being restarted with new settings. It is removed when it is gone.
#[derive(Debug, Clone, Copy, PartialEq, Eq, Structural)]
pub enum SessionEvent {
    /// The task shall stop.
    Stopped,
    /// The server is gone.
    Removed,
    /// The session is up.
    Connected,
    /// The connection could not be made.
    ConnectFailed,
    /// The pause is over.
    Waited,
    /// The device types have changed.
    DeviceTypesChanged,
    /// There will be no more device types.
    DeviceTypesClosed,
    /// A reader has given up.
    ReaderExited,
    /// A reader has ended because the task is being stopped.
    ReaderStopped,
}

/// What is to be done next.
#[derive(Debug, Clone, Copy, PartialEq, Eq, Structural)]
pub enum SessionStep {
    /// Connect, after closing the session where `close` is set.
    Connect { close: bool },
    /// Wait, after closing the session where `close` is set.
    Pause { close: bool, secs: u64 },
    /// Resolve the device types and read them.
    Serve,
    /// End, after closing the session where `close` is set. `gone` tells that the server is to be
    /// reported as gone.
    ///
    /// Its retained registrations are left in place: thin-edge's entity store is persistent and
    /// append-only, and clearing a registration makes the agent auto-register the entity again
    /// from a default payload — without type and external id, which renames the managed object and
    /// strips what the OPC UA user interface keys on. A known entity is never forgotten, so no
    /// object is resurrected either.
    End { close: bool, gone: bool },
    /// Nothing: the event does not belong to the phase.
    Nothing,
}

/// The supervision of one server.
#[derive(Debug, Clone, Copy, PartialEq, Eq, Structural)]
pub struct ServerSession {
    pub phase: Phase,
    /// Seconds to wait after the next failure.
    pub backoff: u64,
    /// The longest time to wait, in seconds.
    pub max_backoff: u64,
}

/// What follows an event.
pub open spec fn session_next(s: ServerSession, event: SessionEvent) -> (
    ServerSession,
    SessionStep,
) {
    let serving = s.phase == Phase::Serving;
    let ended = ServerSession { phase: Phase::Ended, ..s };
    match (s.phase, event) {
        (Phase::Ended, _) => (s, SessionStep::Nothing),
        (_, SessionEvent::Stopped) => (ended, SessionStep::End { close: serving, gone: false }),
        (_, SessionEvent::Removed) => (ended, SessionStep::End { close: serving, gone: true }),
        (Phase::Connecting, SessionEvent::Connected) => (
            ServerSession { phase: Phase::Serving, backoff: 1, ..s },
            SessionStep::Serve,
        ),
        (Phase::Connecting, SessionEvent::ConnectFailed) => (
            ServerSession { phase: Phase::Pausing, ..s },
            SessionStep::Pause { close: false, secs: s.backoff },
        ),
        (Phase::Pausing, SessionEvent::Waited) => (
            ServerSession {
                phase: Phase::Connecting,
                backoff: doubled(s.backoff, s.max_backoff),
                ..s
            },
            SessionStep::Connect { close: false },
        ),
        (Phase::Serving, SessionEvent::DeviceTypesChanged) => (
            ServerSession { phase: Phase::Connecting, ..s },
            SessionStep::Connect { close: true },
        ),
        (Phase::Serving, SessionEvent::DeviceTypesClosed) => (
            ended,
            SessionStep::End { close: true, gone: false },
        ),
        (Phase::Serving, SessionEvent::ReaderExited) => (
            ServerSession { phase: Phase::Pausing, ..s },
            SessionStep::Pause { close: true, secs: s.backoff },
        ),
        (Phase::Serving, SessionEvent::ReaderStopped) => (
            ServerSession { phase: Phase::Connecting, ..s },
            SessionStep::Connect { close: true },
        ),
        _ => (s, SessionStep::Nothing),
    }
}

impl ServerSession {
    pub fn new(max_backoff: u64) -> (r: Self)
        ensures
            r == (ServerSession { phase: Phase::Connecting, backoff: 1, max_backoff }),
    {
        ServerSession { phase: Phase::Connecting, backoff: 1, max_backoff }
    }

    /// Takes an event and tells what is to be done.
    pub fn step(&mut self, event: SessionEvent) -> (r: SessionStep)
        ensures
            (*final(self), r) == session_next(*old(self), event),
    {
        let serving: bool = self.phase == Phase::Serving;
        match (self.phase, event) {
            (Phase::Ended, _) => SessionStep::Nothing,
            (_, SessionEvent::Stopped) => {
                self.phase = Phase::Ended;
                SessionStep::End { close: serving, gone: false }
            },
            (_, SessionEvent::Removed) => {
                self.phase = Phase::Ended;
                SessionStep::End { close: serving, gone: true }
            },
            (Phase::Connecting, SessionEvent::Connected) => {
                self.phase = Phase::Serving;
                self.backoff = 1;
                SessionStep::Serve
            },
            (Phase::Connecting, SessionEvent::ConnectFailed) => {
                self.phase = Phase::Pausing;
                SessionStep::Pause { close: false, secs: self.backoff }
            },
            (Phase::Pausing, SessionEvent::Waited) => {
                self.phase = Phase::Connecting;
                self.backoff = next_backoff(self.backoff, self.max_backoff);
                SessionStep::Connect { close: false }
            },
            (Phase::Serving, SessionEvent::DeviceTypesChanged) => {
                self.phase = Phase::Connecting;
                SessionStep::Connect { close: true }
            },
            (Phase::Serving, SessionEvent::DeviceTypesClosed) => {
                self.phase = Phase::Ended;
                SessionStep::End { close: true, gone: false }
            },
            (Phase::Serving, SessionEvent::ReaderExited) => {
                self.phase = Phase::Pausing;
                SessionStep::Pause { close: true, secs: self.backoff }
            },
            (Phase::Serving, SessionEvent::ReaderStopped) => {
                self.phase = Phase::Connecting;
                SessionStep::Connect { close: true }
            },
            _ => SessionStep::Nothing,
        }
    }
}

// Laws -------------------------------------------------------------------------------

/// The session after a series of events.
pub open spec fn session_after(s: ServerSession, events: Seq<SessionEvent>) -> ServerSession
    decreases events.len(),
{
    if events.len() == 0 {
        s
    } else {
        session_next(session_after(s, events.drop_last()), events.last()).0
    }
}

/// However a server behaves, no pause is longer than the configured one, or than the first.
pub proof fn law_pauses_are_bounded(max_backoff: u64, events: Seq<SessionEvent>)
    ensures
        ({
            let s = session_after(
                ServerSession { phase: Phase::Connecting, backoff: 1, max_backoff },
                events,
            );
            s.max_backoff == max_backoff && (s.backoff <= max_backoff || s.backoff <= 1)
        }),
    decreases events.len(),
{
    if events.len() > 0 {
        law_pauses_are_bounded(max_backoff, events.drop_last());
    }
}

/// A server that is stopped or removed ends at once, from whatever it was doing, and its session
/// is closed where there is one. It is reported as gone only when it was removed.
pub proof fn law_stopping_ends_the_task(s: ServerSession, removed: bool)
    requires
        s.phase != Phase::Ended,
    ensures
        ({
            let event = if removed {
                SessionEvent::Removed
            } else {
                SessionEvent::Stopped
            };
            let (after, step) = session_next(s, event);
            after.phase == Phase::Ended && step == (SessionStep::End {
                close: s.phase == Phase::Serving,
                gone: removed,
            })
        }),
{
}

/// What has ended stays ended, and asks for nothing more.
pub proof fn law_the_end_is_final(s: ServerSession, event: SessionEvent)
    requires
        s.phase == Phase::Ended,
    ensures
        session_next(s, event) == (s, SessionStep::Nothing),
{
}

/// Whether a step closes the session.
pub open spec fn closes(step: SessionStep) -> bool {
    match step {
        SessionStep::Connect { close } => close,
        SessionStep::Pause { close, .. } => close,
        SessionStep::End { close, .. } => close,
        _ => false,
    }
}

/// A session is closed exactly when it is left, so none is left open and none closed twice.
pub proof fn law_sessions_are_closed_when_left(s: ServerSession, event: SessionEvent)
    ensures
        closes(session_next(s, event).1) <==> s.phase == Phase::Serving && session_next(
            s,
            event,
        ).0.phase != Phase::Serving,
{
}

/// A connection that works starts the waiting over.
pub proof fn law_success_resets_the_pause(s: ServerSession)
    requires
        s.phase == Phase::Connecting,
    ensures
        session_next(s, SessionEvent::Connected).0.backoff == 1,
{
}

/// A connection that cannot be made is tried again after the wait that is due, and each wait is
/// twice the one before, up to the longest.
pub proof fn law_failed_connections_are_tried_again(s: ServerSession)
    requires
        s.phase == Phase::Connecting,
    ensures
        ({
            let (pausing, step) = session_next(s, SessionEvent::ConnectFailed);
            let (again, next) = session_next(pausing, SessionEvent::Waited);
            &&& step == (SessionStep::Pause { close: false, secs: s.backoff })
            &&& pausing.phase == Phase::Pausing
            &&& next == (SessionStep::Connect { close: false })
            &&& again.phase == Phase::Connecting
            &&& s.backoff + s.backoff <= s.max_backoff ==> again.backoff == s.backoff + s.backoff
            &&& s.backoff + s.backoff > s.max_backoff ==> again.backoff == s.max_backoff
        }),
{
}

/// A session that is up serves its device types; when they change it is made anew at once.
pub proof fn law_changed_device_types_make_the_session_anew(s: ServerSession)
    ensures
        s.phase == Phase::Connecting ==> session_next(s, SessionEvent::Connected).1
            == SessionStep::Serve && session_next(s, SessionEvent::Connected).0.phase
            == Phase::Serving,
        s.phase == Phase::Serving ==> session_next(s, SessionEvent::DeviceTypesChanged).1 == (
        SessionStep::Connect { close: true }) && session_next(
            s,
            SessionEvent::DeviceTypesChanged,
        ).0.phase == Phase::Connecting,
        s.phase == Phase::Serving ==> session_next(s, SessionEvent::DeviceTypesClosed).1 == (
        SessionStep::End { close: true, gone: false }) && session_next(
            s,
            SessionEvent::DeviceTypesClosed,
        ).0.phase == Phase::Ended,
{
}

/// A reader that gives up costs the session, which is made anew after the wait that is due; one
/// that was stopped costs it without a wait.
pub proof fn law_lost_readers_make_the_session_anew(s: ServerSession)
    requires
        s.phase == Phase::Serving,
    ensures
        session_next(s, SessionEvent::ReaderExited) == (
            ServerSession { phase: Phase::Pausing, ..s },
            SessionStep::Pause { close: true, secs: s.backoff },
        ),
        session_next(s, SessionEvent::ReaderStopped) == (
            ServerSession { phase: Phase::Connecting, ..s },
            SessionStep::Connect { close: true },
        ),
{
}

/// An event that does not belong to the phase changes nothing.
pub proof fn law_events_out_of_place_change_nothing(s: ServerSession, event: SessionEvent)
    requires
        event != SessionEvent::Stopped,
        event != SessionEvent::Removed,
        s.phase == Phase::Connecting ==> event != SessionEvent::Connected && event
            != SessionEvent::ConnectFailed,
        s.phase == Phase::Pausing ==> event != SessionEvent::Waited,
        s.phase == Phase::Serving ==> event == SessionEvent::Connected || event
            == SessionEvent::ConnectFailed || event == SessionEvent::Waited,
    ensures
        session_next(s, event) == (s, SessionStep::Nothing),
{
}

} // verus!
