//! The decisions of the daemon's event loop: how it starts, what it does with
//! each container event, and when it ends.

use vstd::prelude::*;
use crate::registry::strings_view;

verus! {

/// Seconds to wait before the handshake with the container runtime is tried
/// again; there is no bound on the number of tries.
pub const CONNECT_RETRY_SECS: u64 = 60;

/// What a container event asks of the registry.
#[derive(Debug, Clone, Copy, PartialEq, Eq, Structural)]
pub enum EventKind {
    /// The container started: its hostnames are derived and stored.
    Start,
    /// The container stopped or died: its record is dropped.
    Stop,
    /// Any other action.
    Ignored,
}

/// The kind of an event with the action `action`.
pub open spec fn event_kind_of(action: Seq<char>) -> EventKind {
    if action == "start"@ {
        EventKind::Start
    } else if action == "stop"@ || action == "die"@ {
        EventKind::Stop
    } else {
        EventKind::Ignored
    }
}

/// The kind of an event with the action `action`: `start` starts a
/// container, `stop` and `die` stop it, and the rest are ignored.
pub fn classify_action(action: &str) -> (r: EventKind)
    ensures
        r == event_kind_of(action@),
{
    let a = action.to_owned();
    if a == "start".to_owned() {
        EventKind::Start
    } else if a == "stop".to_owned() || a == "die".to_owned() {
        EventKind::Stop
    } else {
        EventKind::Ignored
    }
}

/// Where the daemon stands.
#[derive(Debug, Clone, Copy, PartialEq, Eq, Structural)]
pub enum Phase {
    /// Waiting for the handshake with the runtime to succeed.
    Connecting,
    /// Registering the containers that already run, then writing the file once.
    InitialSync,
    /// Following the live event feed.
    Streaming,
    /// The event feed ended.
    Terminated,
}

/// What the daemon learned from the outside.
#[derive(Debug, Clone, Copy, PartialEq, Eq, Structural)]
pub enum Input {
    /// The runtime answered the handshake.
    HandshakeSucceeded,
    /// The handshake failed.
    HandshakeFailed,
    /// The running containers were registered and the file written.
    InventorySynced,
    /// A container event of this kind arrived.
    Event(EventKind),
    /// The runtime closed the event feed.
    StreamEnded,
}

/// What the daemon does next.
#[derive(Debug, Clone, Copy, PartialEq, Eq, Structural)]
pub enum Command {
    /// Wait this many seconds, then try the handshake again.
    WaitAndRetry(u64),
    /// Register every running container, then write the hosts file.
    RegisterAllAndSync,
    /// Subscribe to start, stop and die events of containers.
    Subscribe,
    /// Derive the hostnames of the event's container, store them, write the file.
    RegisterAndSync,
    /// Drop the event's container, write the file.
    RemoveAndSync,
    /// Nothing to do.
    Nothing,
    /// End the run.
    Exit,
}

/// The next phase and command, for each phase and input.
pub open spec fn step_spec(phase: Phase, input: Input) -> (Phase, Command) {
    match (phase, input) {
        (Phase::Connecting, Input::HandshakeSucceeded) => (Phase::InitialSync, Command::RegisterAllAndSync),
        (Phase::Connecting, Input::HandshakeFailed) => (
            Phase::Connecting,
            Command::WaitAndRetry(CONNECT_RETRY_SECS),
        ),
        (Phase::InitialSync, Input::InventorySynced) => (Phase::Streaming, Command::Subscribe),
        (Phase::Streaming, Input::Event(EventKind::Start)) => (Phase::Streaming, Command::RegisterAndSync),
        (Phase::Streaming, Input::Event(EventKind::Stop)) => (Phase::Streaming, Command::RemoveAndSync),
        (Phase::Streaming, Input::StreamEnded) => (Phase::Terminated, Command::Exit),
        _ => (phase, Command::Nothing),
    }
}

/// The next phase and command of the daemon.
pub fn step(phase: Phase, input: Input) -> (r: (Phase, Command))
    ensures
        r == step_spec(phase, input),
{
    match (phase, input) {
        (Phase::Connecting, Input::HandshakeSucceeded) => (Phase::InitialSync, Command::RegisterAllAndSync),
        (Phase::Connecting, Input::HandshakeFailed) => (
            Phase::Connecting,
            Command::WaitAndRetry(CONNECT_RETRY_SECS),
        ),
        (Phase::InitialSync, Input::InventorySynced) => (Phase::Streaming, Command::Subscribe),
        (Phase::Streaming, Input::Event(EventKind::Start)) => (Phase::Streaming, Command::RegisterAndSync),
        (Phase::Streaming, Input::Event(EventKind::Stop)) => (Phase::Streaming, Command::RemoveAndSync),
        (Phase::Streaming, Input::StreamEnded) => (Phase::Terminated, Command::Exit),
        _ => (phase, Command::Nothing),
    }
}

/// The filters of the event subscription: event types `start`, `stop` and
/// `die`, of resources of type `container`.
pub fn build_event_filters() -> (r: Vec<(String, Vec<String>)>)
    ensures
        r@.len() == 2,
        r@[0].0@ == "event"@,
        strings_view(r@[0].1@) == seq!["start"@, "stop"@, "die"@],
        r@[1].0@ == "type"@,
        strings_view(r@[1].1@) == seq!["container"@],
{
    let mut events: Vec<String> = Vec::new();
    events.push("start".to_owned());
    events.push("stop".to_owned());
    events.push("die".to_owned());
    let mut types: Vec<String> = Vec::new();
    types.push("container".to_owned());
    let mut r: Vec<(String, Vec<String>)> = Vec::new();
    r.push(("event".to_owned(), events));
    r.push(("type".to_owned(), types));
    assert(strings_view(r@[0].1@) =~= seq!["start"@, "stop"@, "die"@]);
    assert(strings_view(r@[1].1@) =~= seq!["container"@]);
    r
}

} // verus!
