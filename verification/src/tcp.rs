//! The TCP relay of one port: what it does on each event of its listener and
//! of the connection it serves.
//!
//! The relay serves one client at a time. It accepts a client, connects to
//! the container's published port, copies bytes both ways until each side
//! has said all it had to say, and accepts the next client. A connection
//! that fails is given up; the relay itself never ends and never binds
//! again. The caller owns the sockets: it performs each action handed out
//! here and reports what came of it.

use vstd::prelude::*;

verus! {

/// One of the two directions of a relayed connection.
#[derive(Clone, Copy, Debug, PartialEq, Eq, Structural)]
pub enum Direction {
    /// From the client to the container.
    Upstream,
    /// From the container to the client.
    Downstream,
}

/// How far one direction of a connection has come.
#[derive(Clone, Copy, Debug, PartialEq, Eq, Structural)]
pub enum Flow {
    /// Bytes are being copied.
    Copying,
    /// The source is at its end; the write half of the sink is being shut
    /// down.
    Closing,
    /// The sink has been told that nothing more will come.
    Closed,
}

/// What the relay is busy with.
#[derive(Clone, Copy, Debug, PartialEq, Eq, Structural)]
pub enum TcpPhase {
    /// Waiting for a client on the listener.
    Accepting,
    /// A client is there; the connection to the container is being opened.
    Connecting,
    /// Both connections are open.
    Relaying { upstream: Flow, downstream: Flow },
}

/// What the caller reports to the relay.
#[derive(Clone, Copy, Debug, PartialEq, Eq, Structural)]
pub enum TcpEvent {
    /// The listener handed over a client.
    Accepted,
    /// The listener failed to hand over a client.
    AcceptFailed,
    /// The connection to the container is open.
    Connected,
    /// The container's port could not be reached.
    ConnectFailed,
    /// The source of a direction has reached its end.
    Eof(Direction),
    /// Reading or writing failed in a direction.
    CopyFailed(Direction),
    /// The write half of the sink of a direction is shut down.
    HalfClosed(Direction),
    /// Shutting down the write half of the sink of a direction failed.
    HalfCloseFailed(Direction),
}

/// What the caller does next for the relay.
#[derive(Clone, Copy, Debug, PartialEq, Eq, Structural)]
pub enum TcpAction {
    /// Drop the connections of the last client, if any are left, and accept
    /// the next client on the listener.
    Accept,
    /// Open a connection to this port on `127.0.0.1`.
    Connect { port: u16 },
    /// Copy bytes in both directions at once.
    Relay,
    /// Shut down the write half of the connection that the direction copies
    /// into, and leave the other direction alone.
    HalfClose(Direction),
    /// Nothing new: go on with what is under way.
    Continue,
}

/// The TCP relay of one port.
#[derive(Clone, Copy, Debug, PartialEq, Eq, Structural)]
pub struct TcpRelay {
    /// The container's published port on `127.0.0.1`.
    pub public_port: u16,
    pub phase: TcpPhase,
}

/// The flow of one direction of a connection.
pub open spec fn flow_of(upstream: Flow, downstream: Flow, direction: Direction) -> Flow {
    match direction {
        Direction::Upstream => upstream,
        Direction::Downstream => downstream,
    }
}

/// The phase of a connection one of whose directions has a new flow.
pub open spec fn with_flow(upstream: Flow, downstream: Flow, direction: Direction, flow: Flow)
    -> TcpPhase {
    match direction {
        Direction::Upstream => TcpPhase::Relaying { upstream: flow, downstream },
        Direction::Downstream => TcpPhase::Relaying { upstream, downstream: flow },
    }
}

/// The event reports on something that the relay is waiting for.
pub open spec fn awaited(phase: TcpPhase, event: TcpEvent) -> bool {
    match phase {
        TcpPhase::Accepting => event == TcpEvent::Accepted || event == TcpEvent::AcceptFailed,
        TcpPhase::Connecting => event == TcpEvent::Connected || event == TcpEvent::ConnectFailed,
        TcpPhase::Relaying { upstream, downstream } => match event {
            TcpEvent::Eof(d) | TcpEvent::CopyFailed(d) => flow_of(upstream, downstream, d)
                == Flow::Copying,
            TcpEvent::HalfClosed(d) | TcpEvent::HalfCloseFailed(d) => flow_of(
                upstream,
                downstream,
                d,
            ) == Flow::Closing,
            _ => false,
        },
    }
}

/// The event reports a failure.
pub open spec fn is_failure(event: TcpEvent) -> bool {
    match event {
        TcpEvent::AcceptFailed
        | TcpEvent::ConnectFailed
        | TcpEvent::CopyFailed(_)
        | TcpEvent::HalfCloseFailed(_) => true,
        _ => false,
    }
}

/// The relay's phase after an event, and the action that it hands out.
///
/// An event that the relay is not waiting for changes nothing. Any failure
/// ends the serving of the current client, and the next one is accepted. A
/// direction that reaches its end has the write half of its sink shut down
/// while the other direction goes on; the connection is over when both
/// directions are closed.
pub open spec fn tcp_step(relay: TcpRelay, event: TcpEvent) -> (TcpRelay, TcpAction) {
    let accepting = TcpRelay { public_port: relay.public_port, phase: TcpPhase::Accepting };
    if !awaited(relay.phase, event) {
        (relay, TcpAction::Continue)
    } else if is_failure(event) {
        (accepting, TcpAction::Accept)
    } else {
        match (relay.phase, event) {
            (TcpPhase::Accepting, _) => (
                TcpRelay { public_port: relay.public_port, phase: TcpPhase::Connecting },
                TcpAction::Connect { port: relay.public_port },
            ),
            (TcpPhase::Connecting, _) => (
                TcpRelay {
                    public_port: relay.public_port,
                    phase: TcpPhase::Relaying {
                        upstream: Flow::Copying,
                        downstream: Flow::Copying,
                    },
                },
                TcpAction::Relay,
            ),
            (TcpPhase::Relaying { upstream, downstream }, TcpEvent::Eof(d)) => (
                TcpRelay {
                    public_port: relay.public_port,
                    phase: with_flow(upstream, downstream, d, Flow::Closing),
                },
                TcpAction::HalfClose(d),
            ),
            (TcpPhase::Relaying { upstream, downstream }, TcpEvent::HalfClosed(d)) => {
                let phase = with_flow(upstream, downstream, d, Flow::Closed);
                if phase == (TcpPhase::Relaying {
                    upstream: Flow::Closed,
                    downstream: Flow::Closed,
                }) {
                    (accepting, TcpAction::Accept)
                } else {
                    (TcpRelay { public_port: relay.public_port, phase }, TcpAction::Continue)
                }
            },
            _ => (relay, TcpAction::Continue),
        }
    }
}

/// The relay after a run of events.
pub open spec fn tcp_run(relay: TcpRelay, events: Seq<TcpEvent>) -> TcpRelay
    decreases events.len(),
{
    if events.len() == 0 {
        relay
    } else {
        tcp_step(tcp_run(relay, events.drop_last()), events.last()).0
    }
}

/// No failure ends the relay or makes it bind again: whatever fails, the
/// client that was being served is given up and the next one is accepted on
/// the same listener.
pub proof fn lemma_failure_means_next_client(relay: TcpRelay, event: TcpEvent)
    requires
        awaited(relay.phase, event),
        is_failure(event),
    ensures
        tcp_step(relay, event) == (
            TcpRelay { public_port: relay.public_port, phase: TcpPhase::Accepting },
            TcpAction::Accept,
        ),
{
}

/// The end of input is passed on: when a direction that is copying reaches
/// the end of its source, the write half of its sink is shut down, and the
/// other direction is left as it is.
pub proof fn lemma_end_of_input_is_passed_on(relay: TcpRelay, direction: Direction)
    requires
        relay.phase matches TcpPhase::Relaying { upstream, downstream } && flow_of(
            upstream,
            downstream,
            direction,
        ) == Flow::Copying,
    ensures
        tcp_step(relay, TcpEvent::Eof(direction)).1 == TcpAction::HalfClose(direction),
        tcp_step(relay, TcpEvent::Eof(direction)).0.phase matches TcpPhase::Relaying {
            upstream,
            downstream,
        } && flow_of(upstream, downstream, direction) == Flow::Closing,
        relay.phase matches TcpPhase::Relaying { upstream: up, downstream: down } && tcp_step(
            relay,
            TcpEvent::Eof(direction),
        ).0.phase matches TcpPhase::Relaying { upstream, downstream } && (direction
            == Direction::Upstream ==> downstream == down) && (direction == Direction::Downstream
            ==> upstream == up),
{
}

/// A write half is shut down for no other reason than the end of the input
/// that was copied into it.
pub proof fn lemma_half_close_only_at_end_of_input(
    relay: TcpRelay,
    event: TcpEvent,
    direction: Direction,
)
    requires
        tcp_step(relay, event).1 == TcpAction::HalfClose(direction),
    ensures
        event == TcpEvent::Eof(direction),
        relay.phase matches TcpPhase::Relaying { upstream, downstream } && flow_of(
            upstream,
            downstream,
            direction,
        ) == Flow::Copying,
{
}

/// A connection that is being relayed is given up only when something
/// failed or when both directions are closed.
pub proof fn lemma_connection_ends_failed_or_complete(relay: TcpRelay, event: TcpEvent)
    requires
        relay.phase is Relaying,
        tcp_step(relay, event).0.phase is Accepting,
    ensures
        is_failure(event) || (event matches TcpEvent::HalfClosed(d)
            && relay.phase matches TcpPhase::Relaying { upstream, downstream } && match d {
            Direction::Upstream => upstream == Flow::Closing && downstream == Flow::Closed,
            Direction::Downstream => downstream == Flow::Closing && upstream == Flow::Closed,
        }),
        tcp_step(relay, event).1 == TcpAction::Accept,
{
}

/// How far a flow has come, counted in reports.
pub open spec fn flow_progress(flow: Flow) -> int {
    match flow {
        Flow::Copying => 0,
        Flow::Closing => 1,
        Flow::Closed => 2,
    }
}

/// How many reports a connection has behind it.
pub open spec fn connection_progress(phase: TcpPhase) -> int {
    match phase {
        TcpPhase::Relaying { upstream, downstream } => flow_progress(upstream) + flow_progress(
            downstream,
        ),
        _ => 4,
    }
}

/// Each report that is waited for and is no failure takes a connection one
/// step further, and the fourth one ends it.
proof fn lemma_connection_progress(relay: TcpRelay, events: Seq<TcpEvent>, n: int)
    requires
        relay.phase == (TcpPhase::Relaying { upstream: Flow::Copying, downstream: Flow::Copying }),
        events.len() <= 4,
        0 <= n <= events.len(),
        forall|i: int|
            0 <= i < events.len() ==> !is_failure(#[trigger] events[i]) && awaited(
                tcp_run(relay, events.subrange(0, i)).phase,
                events[i],
            ),
    ensures
        connection_progress(tcp_run(relay, events.subrange(0, n)).phase) == n,
        n < 4 ==> tcp_run(relay, events.subrange(0, n)).phase is Relaying,
        n == 4 ==> tcp_run(relay, events.subrange(0, n)).phase is Accepting,
        n > 0 ==> tcp_run(relay, events.subrange(0, n)) == tcp_step(
            tcp_run(relay, events.subrange(0, n - 1)),
            events[n - 1],
        ).0,
        n == 4 ==> tcp_step(tcp_run(relay, events.subrange(0, n - 1)), events[n - 1]).1
            == TcpAction::Accept,
    decreases n,
{
    if n > 0 {
        lemma_connection_progress(relay, events, n - 1);
        assert(events.subrange(0, n).drop_last() =~= events.subrange(0, n - 1));
        assert(events.subrange(0, n).last() == events[n - 1]);
        assert(!is_failure(events[n - 1]) && awaited(
            tcp_run(relay, events.subrange(0, n - 1)).phase,
            events[n - 1],
        ));
    }
}

/// A connection without failures takes four reports, the end of input and
/// the half-close of each direction, in whatever order they come in; with
/// the fourth the next client is accepted, and not before.
pub proof fn lemma_complete_connection(relay: TcpRelay, events: Seq<TcpEvent>)
    requires
        relay.phase == (TcpPhase::Relaying { upstream: Flow::Copying, downstream: Flow::Copying }),
        events.len() <= 4,
        forall|i: int|
            0 <= i < events.len() ==> !is_failure(#[trigger] events[i]) && awaited(
                tcp_run(relay, events.subrange(0, i)).phase,
                events[i],
            ),
    ensures
        tcp_run(relay, events).phase is Accepting <==> events.len() == 4,
        events.len() == 4 ==> tcp_step(tcp_run(relay, events.drop_last()), events.last()).1
            == TcpAction::Accept,
{
    lemma_connection_progress(relay, events, events.len() as int);
    assert(events.subrange(0, events.len() as int) =~= events);
    if events.len() == 4 {
        assert(events.subrange(0, 3) =~= events.drop_last());
    }
}

/// The relay keeps its port: every connection it opens goes to the
/// published port it was made for.
pub proof fn lemma_port_is_fixed(relay: TcpRelay, events: Seq<TcpEvent>, event: TcpEvent)
    ensures
        tcp_run(relay, events).public_port == relay.public_port,
        tcp_step(tcp_run(relay, events), event).1 matches TcpAction::Connect { port } ==> port
            == relay.public_port,
    decreases events.len(),
{
    if events.len() > 0 {
        lemma_port_is_fixed(relay, events.drop_last(), events.last());
    }
}

impl TcpRelay {
    /// The relay for a published port, and its first action: accept a
    /// client.
    pub fn new(public_port: u16) -> (started: (TcpRelay, TcpAction))
        ensures
            started.0 == (TcpRelay { public_port, phase: TcpPhase::Accepting }),
            started.1 == TcpAction::Accept,
    {
        (TcpRelay { public_port, phase: TcpPhase::Accepting }, TcpAction::Accept)
    }

    /// Whether the relay is waiting for a report like this one.
    pub fn awaits(&self, event: TcpEvent) -> (yes: bool)
        ensures
            yes == awaited(self.phase, event),
    {
        match self.phase {
            TcpPhase::Accepting => match event {
                TcpEvent::Accepted | TcpEvent::AcceptFailed => true,
                _ => false,
            },
            TcpPhase::Connecting => match event {
                TcpEvent::Connected | TcpEvent::ConnectFailed => true,
                _ => false,
            },
            TcpPhase::Relaying { upstream, downstream } => match event {
                TcpEvent::Eof(d) | TcpEvent::CopyFailed(d) => match d {
                    Direction::Upstream => upstream == Flow::Copying,
                    Direction::Downstream => downstream == Flow::Copying,
                },
                TcpEvent::HalfClosed(d) | TcpEvent::HalfCloseFailed(d) => match d {
                    Direction::Upstream => upstream == Flow::Closing,
                    Direction::Downstream => downstream == Flow::Closing,
                },
                _ => false,
            },
        }
    }

    /// Takes a report and hands out the next action.
    pub fn step(&mut self, event: TcpEvent) -> (action: TcpAction)
        ensures
            (*final(self), action) == tcp_step(*old(self), event),
    {
        if !self.awaits(event) {
            return TcpAction::Continue;
        }
        match event {
            TcpEvent::AcceptFailed
            | TcpEvent::ConnectFailed
            | TcpEvent::CopyFailed(_)
            | TcpEvent::HalfCloseFailed(_) => {
                self.phase = TcpPhase::Accepting;
                TcpAction::Accept
            },
            TcpEvent::Accepted => {
                self.phase = TcpPhase::Connecting;
                TcpAction::Connect { port: self.public_port }
            },
            TcpEvent::Connected => {
                self.phase = TcpPhase::Relaying {
                    upstream: Flow::Copying,
                    downstream: Flow::Copying,
                };
                TcpAction::Relay
            },
            TcpEvent::Eof(d) => {
                match self.phase {
                    TcpPhase::Relaying { upstream, downstream } => {
                        self.phase = match d {
                            Direction::Upstream => TcpPhase::Relaying {
                                upstream: Flow::Closing,
                                downstream,
                            },
                            Direction::Downstream => TcpPhase::Relaying {
                                upstream,
                                downstream: Flow::Closing,
                            },
                        };
                        TcpAction::HalfClose(d)
                    },
                    _ => TcpAction::Continue,
                }
            },
            TcpEvent::HalfClosed(d) => {
                match self.phase {
                    TcpPhase::Relaying { upstream, downstream } => {
                        let other = match d {
                            Direction::Upstream => downstream,
                            Direction::Downstream => upstream,
                        };
                        if other == Flow::Closed {
                            self.phase = TcpPhase::Accepting;
                            TcpAction::Accept
                        } else {
                            self.phase = match d {
                                Direction::Upstream => TcpPhase::Relaying {
                                    upstream: Flow::Closed,
                                    downstream,
                                },
                                Direction::Downstream => TcpPhase::Relaying {
                                    upstream,
                                    downstream: Flow::Closed,
                                },
                            };
                            TcpAction::Continue
                        }
                    },
                    _ => TcpAction::Continue,
                }
            },
        }
    }
}

} // verus!
