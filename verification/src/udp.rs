//! The UDP relay of one port: where each datagram goes.
//!
//! Datagrams carry no connection, so the relay keeps one: each client gets
//! an egress socket of its own, and the two together are a session. What a
//! client sends goes to the container through the socket of its session;
//! what arrives on that socket is the container's answer to that client and
//! goes back to it, and to nobody else. The sessions are few. When all are
//! taken, a new client takes over the session that has been silent for the
//! longest time, with a fresh socket, so that a late answer to the old
//! client is lost rather than misdelivered.
//!
//! The caller owns the sockets, one client-facing socket and one egress
//! socket for each slot, and reports each datagram and each failure here.

use vstd::prelude::*;

verus! {

/// Address of a client: an IPv4 address, as a number, and a port.
#[derive(Clone, Copy, Debug, PartialEq, Eq, Structural)]
pub struct PeerAddr {
    pub ip: u32,
    pub port: u16,
}

/// A client and the slot of the egress socket that carries its datagrams.
#[derive(Clone, Copy, Debug, PartialEq, Eq, Structural)]
pub struct Session {
    pub peer: PeerAddr,
    pub slot: usize,
}

/// What the caller reports to the relay.
#[derive(Clone, Copy, Debug, PartialEq, Eq, Structural)]
pub enum UdpEvent {
    /// The client-facing socket received a datagram from this client.
    FromClient { peer: PeerAddr },
    /// The egress socket of this slot received a datagram.
    FromContainer { slot: usize },
    /// Binding, sending or receiving failed.
    Failed,
}

/// What the caller does with the datagram, or after the failure, that it
/// reported.
#[derive(Clone, Copy, Debug, PartialEq, Eq, Structural)]
pub enum UdpAction {
    /// Send the datagram to this port on `127.0.0.1` through the egress
    /// socket of the slot. If `fresh`, bind a new socket into the slot
    /// first, in place of the one that may be there.
    Forward { slot: usize, fresh: bool, port: u16 },
    /// Send the datagram to this client through the client-facing socket.
    Reply { peer: PeerAddr },
    /// Drop the datagram.
    Discard,
    /// Close every egress socket and go on serving.
    Reset,
}

/// The relay as a value. The sessions stand in the order in which their
/// clients were last heard, the one that has been silent longest first.
pub struct UdpTable {
    pub public_port: u16,
    pub capacity: usize,
    pub sessions: Seq<Session>,
}

/// No more sessions than the relay has room for; no client and no slot in
/// two sessions; the slots in use are the first ones.
pub open spec fn well_formed(table: UdpTable) -> bool {
    &&& table.sessions.len() <= table.capacity
    &&& forall|i: int, j: int|
        0 <= i < j < table.sessions.len() ==> (#[trigger] table.sessions[i]).peer != (
        #[trigger] table.sessions[j]).peer
    &&& forall|i: int, j: int|
        0 <= i < j < table.sessions.len() ==> (#[trigger] table.sessions[i]).slot != (
        #[trigger] table.sessions[j]).slot
    &&& forall|i: int|
        0 <= i < table.sessions.len() ==> (#[trigger] table.sessions[i]).slot
            < table.sessions.len()
}

/// The session at position `i` belongs to the client.
pub open spec fn peer_at(sessions: Seq<Session>, peer: PeerAddr, i: int) -> bool {
    0 <= i < sessions.len() && sessions[i].peer == peer
}

/// The session at position `i` uses the slot.
pub open spec fn slot_at(sessions: Seq<Session>, slot: usize, i: int) -> bool {
    0 <= i < sessions.len() && sessions[i].slot == slot
}

/// The sessions after the client of the one at position `i` was heard: that
/// session is now the last.
pub open spec fn touched(sessions: Seq<Session>, i: int) -> Seq<Session> {
    sessions.remove(i).push(sessions[i])
}

/// The relay after an event, and what is done with the datagram.
///
/// A datagram of a client with a session goes out through the socket of
/// that session. A new client gets the next free slot, or, when none is
/// free, the slot of the client that has been silent longest; either way
/// with a fresh socket. A datagram from the container goes to the client
/// whose session uses the slot it arrived on, and is dropped if there is no
/// such session. A failure ends all sessions.
pub open spec fn udp_step(table: UdpTable, event: UdpEvent) -> (UdpTable, UdpAction) {
    let sessions = table.sessions;
    match event {
        UdpEvent::FromClient { peer } => {
            if exists|i: int| peer_at(sessions, peer, i) {
                let i = choose|i: int| peer_at(sessions, peer, i);
                (
                    UdpTable { sessions: touched(sessions, i), ..table },
                    UdpAction::Forward {
                        slot: sessions[i].slot,
                        fresh: false,
                        port: table.public_port,
                    },
                )
            } else if sessions.len() < table.capacity {
                let slot = sessions.len() as usize;
                (
                    UdpTable { sessions: sessions.push(Session { peer, slot }), ..table },
                    UdpAction::Forward { slot, fresh: true, port: table.public_port },
                )
            } else if sessions.len() > 0 {
                let slot = sessions[0].slot;
                (
                    UdpTable {
                        sessions: sessions.remove(0).push(Session { peer, slot }),
                        ..table
                    },
                    UdpAction::Forward { slot, fresh: true, port: table.public_port },
                )
            } else {
                (table, UdpAction::Discard)
            }
        },
        UdpEvent::FromContainer { slot } => {
            if exists|i: int| slot_at(sessions, slot, i) {
                let i = choose|i: int| slot_at(sessions, slot, i);
                (table, UdpAction::Reply { peer: sessions[i].peer })
            } else {
                (table, UdpAction::Discard)
            }
        },
        UdpEvent::Failed => (UdpTable { sessions: Seq::empty(), ..table }, UdpAction::Reset),
    }
}

/// Whatever happens, the table stays well formed.
pub proof fn lemma_step_keeps_well_formed(table: UdpTable, event: UdpEvent)
    requires
        well_formed(table),
    ensures
        well_formed(udp_step(table, event).0),
        udp_step(table, event).0.capacity == table.capacity,
        udp_step(table, event).0.public_port == table.public_port,
        udp_step(table, event).1 matches UdpAction::Forward { slot, .. } ==> slot < table.capacity,
{
    let sessions = table.sessions;
    let after = udp_step(table, event).0.sessions;
    match event {
        UdpEvent::FromClient { peer } => {
            if exists|i: int| peer_at(sessions, peer, i) {
                let i = choose|i: int| peer_at(sessions, peer, i);
                lemma_touched(sessions, i);
            } else if sessions.len() < table.capacity {
                assert forall|a: int, b: int| 0 <= a < b < after.len() implies (#[trigger] after[a]).peer
                    != (#[trigger] after[b]).peer && after[a].slot != after[b].slot by {
                    if b == sessions.len() {
                        assert(!peer_at(sessions, peer, a));
                    }
                }
            } else if sessions.len() > 0 {
                let last = sessions.len() - 1;
                assert forall|a: int| 0 <= a < last implies #[trigger] after[a] == sessions[a + 1] by {}
                assert forall|a: int, b: int| 0 <= a < b < after.len() implies (#[trigger] after[a]).peer
                    != (#[trigger] after[b]).peer && after[a].slot != after[b].slot by {
                    assert(after[a] == sessions[a + 1]);
                    if b == last {
                        assert(!peer_at(sessions, peer, a + 1));
                    } else {
                        assert(after[b] == sessions[b + 1]);
                    }
                }
                assert forall|a: int| 0 <= a < after.len() implies (#[trigger] after[a]).slot
                    < after.len() by {
                    if a < last {
                        assert(after[a] == sessions[a + 1]);
                    }
                }
            }
        },
        _ => {},
    }
}

/// Hearing a client again moves its session to the end and changes nothing
/// else.
pub proof fn lemma_touched(sessions: Seq<Session>, i: int)
    requires
        0 <= i < sessions.len(),
    ensures
        touched(sessions, i).len() == sessions.len(),
        touched(sessions, i)[sessions.len() - 1] == sessions[i],
        forall|k: int| 0 <= k < i ==> #[trigger] touched(sessions, i)[k] == sessions[k],
        forall|k: int|
            i <= k < sessions.len() - 1 ==> #[trigger] touched(sessions, i)[k] == sessions[k + 1],
{
}

/// The relay after a run of events.
pub open spec fn udp_run(table: UdpTable, events: Seq<UdpEvent>) -> UdpTable
    decreases events.len(),
{
    if events.len() == 0 {
        table
    } else {
        udp_step(udp_run(table, events.drop_last()), events.last()).0
    }
}

/// The number of datagrams in a run that come from clients other than the
/// given one.
pub open spec fn datagrams_of_others(events: Seq<UdpEvent>, peer: PeerAddr) -> nat
    decreases events.len(),
{
    if events.len() == 0 {
        0
    } else {
        let earlier = datagrams_of_others(events.drop_last(), peer);
        match events.last() {
            UdpEvent::FromClient { peer: other } => if other != peer {
                earlier + 1
            } else {
                earlier
            },
            _ => earlier,
        }
    }
}

/// An answer goes to the client whose session uses the slot it arrived on,
/// and an answer is sent to a client for no other reason.
pub proof fn lemma_reply_goes_to_owner(table: UdpTable, slot: usize, peer: PeerAddr)
    requires
        well_formed(table),
    ensures
        udp_step(table, UdpEvent::FromContainer { slot }).0 == table,
        udp_step(table, UdpEvent::FromContainer { slot }).1 == (UdpAction::Reply { peer })
            <==> table.sessions.contains(Session { peer, slot }),
{
    let sessions = table.sessions;
    if sessions.contains(Session { peer, slot }) {
        let k = choose|k: int| 0 <= k < sessions.len() && sessions[k] == (Session { peer, slot });
        assert(slot_at(sessions, slot, k));
        let i = choose|i: int| slot_at(sessions, slot, i);
        assert(i == k);
    }
    if udp_step(table, UdpEvent::FromContainer { slot }).1 == (UdpAction::Reply { peer }) {
        let i = choose|i: int| slot_at(sessions, slot, i);
        assert(sessions[i] == (Session { peer, slot }));
    }
}

/// A datagram of a client is forwarded through a slot that is then this
/// client's own, unless the relay has no room at all.
pub proof fn lemma_datagram_gets_session(table: UdpTable, peer: PeerAddr)
    requires
        well_formed(table),
        table.capacity > 0,
    ensures
        udp_step(table, UdpEvent::FromClient { peer }).1 matches UdpAction::Forward {
            slot,
            fresh,
            port,
        } && port == table.public_port && udp_step(
            table,
            UdpEvent::FromClient { peer },
        ).0.sessions.last() == (Session { peer, slot }) && udp_step(
            table,
            UdpEvent::FromClient { peer },
        ).0.sessions.len() > 0 && (fresh <==> !exists|i: int| peer_at(table.sessions, peer, i)),
{
    let sessions = table.sessions;
    if exists|i: int| peer_at(sessions, peer, i) {
        let i = choose|i: int| peer_at(sessions, peer, i);
        lemma_touched(sessions, i);
    }
}

/// A session outlives the datagrams of other clients as long as they are
/// fewer than the relay has sessions. After a client was heard, let any run
/// of datagrams and answers follow, without a failure and with fewer
/// datagrams of other clients than the capacity: then what arrives on the
/// client's slot still goes to this client.
pub proof fn lemma_answer_reaches_its_client(
    table: UdpTable,
    peer: PeerAddr,
    later: Seq<UdpEvent>,
)
    requires
        well_formed(table),
        table.capacity > 0,
        forall|k: int| 0 <= k < later.len() ==> (#[trigger] later[k]) != UdpEvent::Failed,
        datagrams_of_others(later, peer) < table.capacity,
    ensures
        udp_step(table, UdpEvent::FromClient { peer }).1 matches UdpAction::Forward { slot, .. }
            && udp_step(
            udp_run(udp_step(table, UdpEvent::FromClient { peer }).0, later),
            UdpEvent::FromContainer { slot },
        ).1 == (UdpAction::Reply { peer }),
{
    lemma_datagram_gets_session(table, peer);
    lemma_step_keeps_well_formed(table, UdpEvent::FromClient { peer });
    let first = udp_step(table, UdpEvent::FromClient { peer });
    let slot = first.0.sessions.last().slot;
    lemma_session_survives(first.0, peer, slot, later);
    let end = udp_run(first.0, later);
    lemma_reply_goes_to_owner(end, slot, peer);
    let i = choose|i: int|
        session_within(
            end.sessions,
            Session { peer, slot },
            i,
            datagrams_of_others(later, peer),
        );
    assert(end.sessions[i] == (Session { peer, slot }));
    assert(end.sessions.contains(Session { peer, slot }));
}

/// The session of the client stands at position `i`, with at most `behind`
/// sessions after it.
pub open spec fn session_within(
    sessions: Seq<Session>,
    session: Session,
    i: int,
    behind: nat,
) -> bool {
    &&& 0 <= i < sessions.len()
    &&& sessions[i] == session
    &&& sessions.len() - 1 - i <= behind
}

/// Along a run without failures the session of a client falls back by at
/// most one place for each datagram of another client, and is not given up
/// before it is the first of a full table.
proof fn lemma_session_survives(table: UdpTable, peer: PeerAddr, slot: usize, later: Seq<UdpEvent>)
    requires
        well_formed(table),
        table.sessions.len() > 0,
        table.sessions.last() == (Session { peer, slot }),
        forall|k: int| 0 <= k < later.len() ==> (#[trigger] later[k]) != UdpEvent::Failed,
        datagrams_of_others(later, peer) < table.capacity,
    ensures
        well_formed(udp_run(table, later)),
        udp_run(table, later).capacity == table.capacity,
        exists|i: int|
            session_within(
                udp_run(table, later).sessions,
                Session { peer, slot },
                i,
                datagrams_of_others(later, peer),
            ),
    decreases later.len(),
{
    let session = Session { peer, slot };
    if later.len() == 0 {
        assert(session_within(table.sessions, session, table.sessions.len() - 1, 0));
    } else {
        let init = later.drop_last();
        let event = later.last();
        assert forall|k: int| 0 <= k < init.len() implies (#[trigger] init[k])
            != UdpEvent::Failed by {
            assert(init[k] == later[k]);
        }
        assert(event == later[later.len() - 1]);
        lemma_session_survives(table, peer, slot, init);
        let before = udp_run(table, init);
        let sessions = before.sessions;
        let behind = datagrams_of_others(init, peer);
        let now = datagrams_of_others(later, peer);
        let i = choose|i: int| session_within(sessions, session, i, behind);
        lemma_step_keeps_well_formed(before, event);
        let after = udp_step(before, event).0.sessions;
        match event {
            UdpEvent::FromClient { peer: other } => {
                if exists|j: int| peer_at(sessions, other, j) {
                    let j = choose|j: int| peer_at(sessions, other, j);
                    lemma_touched(sessions, j);
                    if other == peer {
                        assert(j == i);
                        assert(session_within(after, session, after.len() - 1, now));
                    } else if j < i {
                        assert(session_within(after, session, i - 1, now));
                    } else {
                        assert(j != i);
                        assert(session_within(after, session, i, now));
                    }
                } else if sessions.len() < before.capacity {
                    assert(!peer_at(sessions, other, i));
                    assert(session_within(after, session, i, now));
                } else {
                    assert(!peer_at(sessions, other, i));
                    assert(i > 0);
                    assert(after[i - 1] == sessions[i]);
                    assert(session_within(after, session, i - 1, now));
                }
            },
            _ => {
                assert(session_within(after, session, i, now));
            },
        }
    }
}

/// How many sessions a relay keeps unless told otherwise.
pub const DEFAULT_SESSIONS: usize = 16;

/// The UDP relay of one port.
pub struct UdpRelay {
    public_port: u16,
    capacity: usize,
    sessions: Vec<Session>,
}

impl View for UdpRelay {
    type V = UdpTable;

    closed spec fn view(&self) -> UdpTable {
        UdpTable {
            public_port: self.public_port,
            capacity: self.capacity,
            sessions: self.sessions@,
        }
    }
}

impl UdpRelay {
    #[verifier::type_invariant]
    spec fn keeps_well_formed(&self) -> bool {
        well_formed(self@)
    }

    /// The relay for a published port, with room for `capacity` sessions
    /// and none of them taken.
    pub fn new(public_port: u16, capacity: usize) -> (relay: UdpRelay)
        ensures
            relay@ == (UdpTable { public_port, capacity, sessions: Seq::empty() }),
            well_formed(relay@),
    {
        UdpRelay { public_port, capacity, sessions: Vec::new() }
    }

    /// The container's published port.
    pub fn public_port(&self) -> (port: u16)
        ensures
            port == self@.public_port,
    {
        self.public_port
    }

    /// How many sessions the relay has room for.
    pub fn capacity(&self) -> (capacity: usize)
        ensures
            capacity == self@.capacity,
    {
        self.capacity
    }

    /// How many sessions are taken.
    pub fn session_count(&self) -> (count: usize)
        ensures
            count == self@.sessions.len(),
            count <= self@.capacity,
    {
        proof {
            use_type_invariant(self);
        }
        self.sessions.len()
    }

    /// Position of the session of a client.
    fn find_peer(&self, peer: PeerAddr) -> (found: Option<usize>)
        ensures
            match found {
                Some(i) => peer_at(self@.sessions, peer, i as int),
                None => !exists|i: int| peer_at(self@.sessions, peer, i),
            },
    {
        let mut i: usize = 0;
        while i < self.sessions.len()
            invariant
                i <= self.sessions@.len(),
                forall|j: int| 0 <= j < i ==> !peer_at(self@.sessions, peer, j),
            decreases self.sessions.len() - i,
        {
            if self.sessions[i].peer == peer {
                return Some(i);
            }
            i += 1;
        }
        None
    }

    /// Position of the session that uses a slot.
    fn find_slot(&self, slot: usize) -> (found: Option<usize>)
        ensures
            match found {
                Some(i) => slot_at(self@.sessions, slot, i as int),
                None => !exists|i: int| slot_at(self@.sessions, slot, i),
            },
    {
        let mut i: usize = 0;
        while i < self.sessions.len()
            invariant
                i <= self.sessions@.len(),
                forall|j: int| 0 <= j < i ==> !slot_at(self@.sessions, slot, j),
            decreases self.sessions.len() - i,
        {
            if self.sessions[i].slot == slot {
                return Some(i);
            }
            i += 1;
        }
        None
    }

    /// Takes a report and says what to do with the datagram.
    pub fn step(&mut self, event: UdpEvent) -> (action: UdpAction)
        ensures
            (final(self)@, action) == udp_step(old(self)@, event),
            well_formed(final(self)@),
    {
        proof {
            use_type_invariant(&*self);
            lemma_step_keeps_well_formed(self@, event);
        }
        let ghost before = self@.sessions;
        match event {
            UdpEvent::FromClient { peer } => {
                match self.find_peer(peer) {
                    Some(i) => {
                        proof {
                            let c = choose|c: int| peer_at(before, peer, c);
                            assert(c == i);
                        }
                        let mut sessions: Vec<Session> = Vec::new();
                        std::mem::swap(&mut self.sessions, &mut sessions);
                        let session = sessions.remove(i);
                        sessions.push(session);
                        assert(sessions@ =~= touched(before, i as int));
                        self.sessions = sessions;
                        UdpAction::Forward {
                            slot: session.slot,
                            fresh: false,
                            port: self.public_port,
                        }
                    },
                    None => {
                        if self.sessions.len() < self.capacity {
                            let slot: usize = self.sessions.len();
                            let mut sessions: Vec<Session> = Vec::new();
                            std::mem::swap(&mut self.sessions, &mut sessions);
                            sessions.push(Session { peer, slot });
                            self.sessions = sessions;
                            UdpAction::Forward { slot, fresh: true, port: self.public_port }
                        } else if self.sessions.len() > 0 {
                            let mut sessions: Vec<Session> = Vec::new();
                            std::mem::swap(&mut self.sessions, &mut sessions);
                            let oldest = sessions.remove(0);
                            sessions.push(Session { peer, slot: oldest.slot });
                            self.sessions = sessions;
                            UdpAction::Forward {
                                slot: oldest.slot,
                                fresh: true,
                                port: self.public_port,
                            }
                        } else {
                            UdpAction::Discard
                        }
                    },
                }
            },
            UdpEvent::FromContainer { slot } => {
                match self.find_slot(slot) {
                    Some(i) => {
                        proof {
                            let c = choose|c: int| slot_at(before, slot, c);
                            assert(c == i);
                        }
                        UdpAction::Reply { peer: self.sessions[i].peer }
                    },
                    None => UdpAction::Discard,
                }
            },
            UdpEvent::Failed => {
                self.sessions = Vec::new();
                UdpAction::Reset
            },
        }
    }
}

} // verus!
