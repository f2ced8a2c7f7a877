//! The proxy manager: which relays run for which container.

use crate::connection::{
    first_allocation, is_private_ip, AcquireAction, AddressAllocator, Protocol, RetryPolicy,
};
use crate::info::{ProxyPort, ProxyableContainer};
use crate::tcp::{TcpPhase, TcpRelay};
use crate::text::same_text;
use crate::udp::{well_formed, UdpRelay, UdpTable, DEFAULT_SESSIONS};
use tokio::task::{JoinError, JoinHandle};
use vstd::prelude::*;

verus! {

/// Handle of a spawned task of the `tokio` runtime. Opaque here: the manager
/// keeps such handles and cancels them, it never looks inside.
#[verifier::external_type_specification]
#[verifier::external_body]
#[verifier::reject_recursive_types(T)]
pub struct ExJoinHandle<T>(JoinHandle<T>);

/// What awaiting a `JoinHandle` can fail with. Declared because the handle's
/// type names it; no value of it occurs here.
#[verifier::external_type_specification]
#[verifier::external_body]
pub struct ExJoinError(JoinError);

/// Cancels a relay task: `JoinHandle::abort`, which asks the runtime to stop
/// the task at its next suspension point and does nothing to a task that has
/// ended. It gives no result, and nothing is claimed of it.
#[verifier::external_body]
fn abort_relay(handle: &JoinHandle<()>) {
    handle.abort()
}

/// The ports of a container that get a relay: those whose private port
/// differs from the public port, in their order. Where the two are equal the
/// published port already is what a relay would offer.
pub open spec fn relayed_ports(ports: Seq<ProxyPort>) -> Seq<ProxyPort>
    decreases ports.len(),
{
    if ports.len() == 0 {
        Seq::empty()
    } else if ports.last().private_port != ports.last().public_port {
        relayed_ports(ports.drop_last()).push(ports.last())
    } else {
        relayed_ports(ports.drop_last())
    }
}

/// The relays of a container: those of its group, or none.
pub open spec fn group_of<H>(registry: Map<Seq<char>, Seq<H>>, id: Seq<char>) -> Seq<H> {
    if registry.contains_key(id) {
        registry[id]
    } else {
        Seq::empty()
    }
}

/// The registry after relays were started for a container: they become its
/// group, unless the container has one already or there are no relays.
pub open spec fn registered<H>(
    registry: Map<Seq<char>, Seq<H>>,
    id: Seq<char>,
    handles: Seq<H>,
) -> Map<Seq<char>, Seq<H>> {
    if registry.contains_key(id) || handles.len() == 0 {
        registry
    } else {
        registry.insert(id, handles)
    }
}

/// A container is in the registry only with at least one relay.
pub open spec fn every_group_runs<H>(registry: Map<Seq<char>, Seq<H>>) -> bool {
    forall|id: Seq<char>| registry.contains_key(id) ==> (#[trigger] registry[id]).len() > 0
}

/// Creating a container twice is creating it once: after relays were
/// started for a container, starting relays for it again changes nothing,
/// and the container has the relays of the first time and no others.
pub proof fn lemma_created_twice<H>(
    registry: Map<Seq<char>, Seq<H>>,
    id: Seq<char>,
    first: Seq<H>,
    second: Seq<H>,
)
    requires
        first.len() > 0,
    ensures
        registered(registered(registry, id, first), id, second) == registered(registry, id, first),
        registered(registry, id, first).contains_key(id),
        !registry.contains_key(id) ==> group_of(
            registered(registered(registry, id, first), id, second),
            id,
        ) == first,
{
}

/// Starting relays keeps every other container as it is and never leaves a
/// container without relays in the registry.
pub proof fn lemma_registered_keeps_groups<H>(
    registry: Map<Seq<char>, Seq<H>>,
    id: Seq<char>,
    handles: Seq<H>,
    other: Seq<char>,
)
    requires
        every_group_runs(registry),
    ensures
        every_group_runs(registered(registry, id, handles)),
        other != id ==> group_of(registered(registry, id, handles), other) == group_of(
            registry,
            other,
        ),
        other != id ==> registered(registry, id, handles).contains_key(other)
            == registry.contains_key(other),
{
}

/// Removing a container that has no relays changes nothing; removing one
/// that has some leaves none of them, and removing it again changes nothing
/// more. The other containers keep theirs.
pub proof fn lemma_removed<H>(registry: Map<Seq<char>, Seq<H>>, id: Seq<char>, other: Seq<char>)
    requires
        every_group_runs(registry),
    ensures
        !registry.contains_key(id) ==> registry.remove(id) == registry,
        !registry.remove(id).contains_key(id),
        group_of(registry.remove(id), id).len() == 0,
        registry.remove(id).remove(id) == registry.remove(id),
        every_group_runs(registry.remove(id)),
        other != id ==> group_of(registry.remove(id), other) == group_of(registry, other),
{
    assert(registry.remove(id).remove(id) =~= registry.remove(id));
    if !registry.contains_key(id) {
        assert(registry.remove(id) =~= registry);
    }
}

/// A container that was removed can be created anew.
pub proof fn lemma_created_after_removed<H>(
    registry: Map<Seq<char>, Seq<H>>,
    id: Seq<char>,
    handles: Seq<H>,
)
    requires
        handles.len() > 0,
    ensures
        group_of(registered(registry.remove(id), id, handles), id) == handles,
{
}

/// The relays of the first ports of a container are the first relays of the
/// container.
proof fn lemma_relayed_ports_prefix(ports: Seq<ProxyPort>, n: int)
    requires
        0 <= n <= ports.len(),
    ensures
        relayed_ports(ports.subrange(0, n)).len() <= relayed_ports(ports).len(),
        forall|k: int|
            0 <= k < relayed_ports(ports.subrange(0, n)).len() ==> relayed_ports(ports)[k]
                == #[trigger] relayed_ports(ports.subrange(0, n))[k],
    decreases ports.len(),
{
    if n == ports.len() {
        assert(ports.subrange(0, n) =~= ports);
    } else {
        lemma_relayed_ports_prefix(ports.drop_last(), n);
        assert(ports.drop_last().subrange(0, n) =~= ports.subrange(0, n));
    }
}

/// What an event of the container runtime means for the relays of the
/// container it is about.
#[derive(Clone, Copy, Debug, PartialEq, Eq, Structural)]
pub enum Lifecycle {
    /// The container runs: its relays are to be started.
    Started,
    /// The container is gone or going: its relays are to be stopped.
    Stopped,
    /// Nothing that concerns the relays.
    Other,
}

/// The meaning of an action name of the container runtime: `start` starts
/// the relays; `kill`, `destroy` and `die` stop them; every other name is
/// passed over.
pub open spec fn lifecycle_named(action: Seq<char>) -> Lifecycle {
    if action == "start"@ {
        Lifecycle::Started
    } else if action == "kill"@ || action == "destroy"@ || action == "die"@ {
        Lifecycle::Stopped
    } else {
        Lifecycle::Other
    }
}

impl Lifecycle {
    /// Reads the action name of an event.
    pub fn from_action(action: &str) -> (lifecycle: Lifecycle)
        ensures
            lifecycle == lifecycle_named(action@),
    {
        if same_text(action, "start") {
            Lifecycle::Started
        } else if same_text(action, "kill") || same_text(action, "destroy") || same_text(
            action,
            "die",
        ) {
            Lifecycle::Stopped
        } else {
            Lifecycle::Other
        }
    }
}

/// The relay that serves a bound socket, by the protocol of its port.
pub enum PortRelay {
    Tcp(TcpRelay),
    Udp(UdpRelay),
}

/// What the relay task of one port starts from: the allocator that finds
/// its address, the first bind to try, and the relay that serves the socket
/// once it is bound.
pub struct RelayStart {
    pub allocator: AddressAllocator,
    pub bind: AcquireAction,
    pub relay: PortRelay,
}

/// Lays out the relay of one port mapping: it listens at a random loopback
/// address on the private port, with the protocol of the mapping, and
/// relays to the public port. The address is looked for without limit.
pub fn start_proxy(port: ProxyPort) -> (start: RelayStart)
    ensures
        start.allocator@ == first_allocation(
            RetryPolicy { backoff_millis: 500, max_attempts: None },
            start.allocator@.target,
        ),
        start.allocator@.target.port == port.private_port,
        start.allocator@.target.protocol == port.protocol,
        is_private_ip(start.allocator@.target.ip),
        start.bind == AcquireAction::Bind(start.allocator@.target),
        match port.protocol {
            Protocol::Tcp => start.relay matches PortRelay::Tcp(relay) && relay == (TcpRelay {
                public_port: port.public_port,
                phase: TcpPhase::Accepting,
            }),
            Protocol::Udp => start.relay matches PortRelay::Udp(relay) && relay@ == (UdpTable {
                public_port: port.public_port,
                capacity: DEFAULT_SESSIONS,
                sessions: Seq::empty(),
            }) && well_formed(relay@),
        },
{
    let (allocator, bind) = AddressAllocator::start(
        port.private_port,
        port.protocol,
        RetryPolicy::unbounded(),
    );
    let relay = match port.protocol {
        Protocol::Tcp => PortRelay::Tcp(TcpRelay::new(port.public_port).0),
        Protocol::Udp => PortRelay::Udp(UdpRelay::new(port.public_port, DEFAULT_SESSIONS)),
    };
    RelayStart { allocator, bind, relay }
}

/// The relays of one container.
struct RelayGroup {
    id: String,
    handles: Vec<JoinHandle<()>>,
}

/// Owns the relay tasks, grouped by the container they serve. A container
/// has at most one group, and a group at least one relay. Whoever changes
/// the registry holds the manager exclusively, so that creating and removing
/// never interleave.
pub struct ProxyManager {
    proxies: Vec<RelayGroup>,
}

impl ProxyManager {
    /// No container has two groups, and no group is empty.
    #[verifier::type_invariant]
    spec fn well_formed(&self) -> bool {
        &&& forall|a: int, b: int|
            0 <= a < b < self.proxies@.len() ==> (#[trigger] self.proxies@[a]).id@ != (
            #[trigger] self.proxies@[b]).id@
        &&& forall|a: int| 0 <= a < self.proxies@.len() ==> (#[trigger] self.proxies@[a]).handles@.len() > 0
    }

    /// `i` is the position of the group of the container `id`.
    spec fn holds_at(&self, id: Seq<char>, i: int) -> bool {
        0 <= i < self.proxies@.len() && self.proxies@[i].id@ == id
    }

    /// The registry: the relay handles of each container that has any.
    pub closed spec fn view(&self) -> Map<Seq<char>, Seq<JoinHandle<()>>> {
        Map::new(
            |id: Seq<char>| exists|i: int| self.holds_at(id, i),
            |id: Seq<char>| self.proxies@[choose|i: int| self.holds_at(id, i)].handles@,
        )
    }

    /// No container is in the registry without a relay.
    proof fn lemma_groups_run(&self)
        requires
            self.well_formed(),
        ensures
            every_group_runs(self@),
    {
        assert forall|id: Seq<char>| self@.contains_key(id) implies (#[trigger] self@[id]).len()
            > 0 by {
            let i = choose|i: int| self.holds_at(id, i);
            assert(self.proxies@[i].handles@.len() > 0);
        }
    }

    /// A manager without relays.
    pub fn new() -> (manager: ProxyManager)
        ensures
            manager@ == Map::<Seq<char>, Seq<JoinHandle<()>>>::empty(),
            every_group_runs(manager@),
    {
        let manager = ProxyManager { proxies: Vec::new() };
        assert(manager@ =~= Map::<Seq<char>, Seq<JoinHandle<()>>>::empty());
        manager
    }

    /// Starts the relays of a container, unless it has some already.
    ///
    /// `spawn` starts the relay task of one port of the container and hands
    /// back its handle. It is called once for each port whose private port
    /// differs from the public port, in their order, and the handles become
    /// the container's group. A container that is registered already, or
    /// none of whose ports gets a relay, changes nothing and spawns nothing.
    /// If `spawn` fails, the relays spawned so far for this container are
    /// cancelled, the registry stays as it was, and the error is returned.
    pub fn container_created<F, E>(&mut self, container: ProxyableContainer, spawn: F) -> (result:
        Result<(), E>) where F: Fn(&String, &ProxyPort) -> Result<JoinHandle<()>, E>
        requires
            forall|port: ProxyPort|
                container.ports@.contains(port) && port.private_port != port.public_port
                    ==> call_requires(spawn, (&container.id, &port)),
        ensures
            old(self)@.contains_key(container.id@) || relayed_ports(container.ports@).len() == 0
                ==> result is Ok,
            result is Ok ==> final(self)@ == registered(
                old(self)@,
                container.id@,
                group_of(final(self)@, container.id@),
            ),
            result is Ok && !old(self)@.contains_key(container.id@) ==> {
                &&& group_of(final(self)@, container.id@).len() == relayed_ports(
                    container.ports@,
                ).len()
                &&& forall|i: int|
                    0 <= i < relayed_ports(container.ports@).len() ==> call_ensures(
                        spawn,
                        (&container.id, &relayed_ports(container.ports@)[i]),
                        Ok::<JoinHandle<()>, E>(
                            #[trigger] group_of(final(self)@, container.id@)[i],
                        ),
                    )
            },
            result matches Err(error) ==> {
                &&& final(self)@ == old(self)@
                &&& !old(self)@.contains_key(container.id@)
                &&& exists|i: int|
                    0 <= i < relayed_ports(container.ports@).len() && call_ensures(
                        spawn,
                        (&container.id, &relayed_ports(container.ports@)[i]),
                        Err::<JoinHandle<()>, E>(error),
                    )
            },
            every_group_runs(final(self)@),
    {
        proof {
            use_type_invariant(&*self);
        }
        if self.position(&container.id).is_some() {
            return Ok(());
        }
        let ghost relayed = relayed_ports(container.ports@);
        let mut handles: Vec<JoinHandle<()>> = Vec::new();
        let mut i: usize = 0;
        while i < container.ports.len()
            invariant
                i <= container.ports@.len(),
                *self == *old(self),
                !old(self)@.contains_key(container.id@),
                relayed == relayed_ports(container.ports@),
                forall|port: ProxyPort|
                    container.ports@.contains(port) && port.private_port != port.public_port
                        ==> call_requires(spawn, (&container.id, &port)),
                handles@.len() == relayed_ports(container.ports@.subrange(0, i as int)).len(),
                forall|k: int|
                    0 <= k < handles@.len() ==> call_ensures(
                        spawn,
                        (&container.id, &relayed_ports(container.ports@.subrange(0, i as int))[k]),
                        Ok::<JoinHandle<()>, E>(#[trigger] handles@[k]),
                    ),
            decreases container.ports.len() - i,
        {
            let port = container.ports[i];
            let ghost seen = container.ports@.subrange(0, i as int);
            let ghost next = container.ports@.subrange(0, i + 1);
            proof {
                assert(next.drop_last() =~= seen);
                assert(next.last() == port);
                assert(container.ports@.contains(port));
            }
            if port.private_port != port.public_port {
                match spawn(&container.id, &port) {
                    Ok(handle) => {
                        handles.push(handle);
                    },
                    Err(error) => {
                        let mut k: usize = 0;
                        while k < handles.len()
                            invariant
                                k <= handles@.len(),
                            decreases handles.len() - k,
                        {
                            abort_relay(&handles[k]);
                            k += 1;
                        }
                        proof {
                            use_type_invariant(&*self);
                            self.lemma_groups_run();
                            lemma_relayed_ports_prefix(container.ports@, i + 1);
                            assert(relayed_ports(next).last() == port);
                            assert(relayed[relayed_ports(next).len() - 1] == port);
                        }
                        return Err(error);
                    },
                }
            }
            i += 1;
        }
        assert(container.ports@.subrange(0, i as int) =~= container.ports@);
        if handles.len() == 0 {
            return Ok(());
        }
        let ghost id = container.id@;
        let ghost spawned = handles@;
        proof {
            use_type_invariant(&*self);
            assert(forall|j: int| !self.holds_at(id, j));
        }
        let mut proxies: Vec<RelayGroup> = Vec::new();
        std::mem::swap(&mut self.proxies, &mut proxies);
        proxies.push(RelayGroup { id: container.id, handles });
        proof {
            let groups = proxies@;
            let last = groups.len() - 1;
            assert forall|a: int, b: int| 0 <= a < b < groups.len() implies (#[trigger] groups[a]).id@
                != (#[trigger] groups[b]).id@ by {
                assert(groups[a] == old(self).proxies@[a]);
                if b == last {
                    assert(!old(self).holds_at(id, a));
                } else {
                    assert(groups[b] == old(self).proxies@[b]);
                }
            }
            assert forall|a: int| 0 <= a < groups.len() implies (#[trigger] groups[a]).handles@.len()
                > 0 by {
                if a < last {
                    assert(groups[a] == old(self).proxies@[a]);
                }
            }
        }
        self.proxies = proxies;
        proof {
            let last = self.proxies@.len() - 1;
            assert(self.holds_at(id, last));
            assert forall|other: Seq<char>| #[trigger]
                self@.contains_key(other) == old(self)@.insert(id, spawned).contains_key(
                    other,
                ) by {
                if self@.contains_key(other) {
                    let j = choose|j: int| self.holds_at(other, j);
                    if j < last {
                        assert(old(self).holds_at(other, j));
                    }
                }
                if old(self)@.contains_key(other) {
                    let j = choose|j: int| old(self).holds_at(other, j);
                    assert(self.holds_at(other, j));
                }
            }
            assert forall|other: Seq<char>| #[trigger] self@.contains_key(other) implies self@[other]
                == old(self)@.insert(id, spawned)[other] by {
                let j = choose|j: int| self.holds_at(other, j);
                if other != id {
                    assert(old(self).holds_at(other, j));
                    let c = choose|c: int| old(self).holds_at(other, c);
                    assert(c == j);
                }
            }
            assert(self@ =~= old(self)@.insert(id, spawned));
        }
        Ok(())
    }

    /// Stops the relays of a container and forgets it: every relay task of
    /// its group is cancelled and the group leaves the registry. A container
    /// without relays is left as it is.
    pub fn container_removed(&mut self, container_id: &String)
        ensures
            final(self)@ == old(self)@.remove(container_id@),
            every_group_runs(final(self)@),
    {
        proof {
            use_type_invariant(&*self);
        }
        match self.position(container_id) {
            Some(i) => {
                let mut proxies: Vec<RelayGroup> = Vec::new();
                std::mem::swap(&mut self.proxies, &mut proxies);
                let group = proxies.remove(i);
                self.proxies = proxies;
                proof {
                    assert forall|id: Seq<char>| #[trigger]
                        self@.contains_key(id) == old(self)@.remove(container_id@).contains_key(
                            id,
                        ) by {
                        if self@.contains_key(id) {
                            let j = choose|j: int| self.holds_at(id, j);
                            let k = if j < i { j } else { j + 1 };
                            assert(old(self).holds_at(id, k));
                        }
                        if old(self)@.remove(container_id@).contains_key(id) {
                            let k = choose|k: int| old(self).holds_at(id, k);
                            let j = if k < i { k } else { k - 1 };
                            assert(self.holds_at(id, j));
                        }
                    }
                    assert forall|id: Seq<char>| #[trigger] self@.contains_key(id) implies self@[id]
                        == old(self)@.remove(container_id@)[id] by {
                        let j = choose|j: int| self.holds_at(id, j);
                        let k = if j < i { j } else { j + 1 };
                        assert(old(self).holds_at(id, k));
                        let c = choose|c: int| old(self).holds_at(id, c);
                        assert(c == k);
                    }
                    assert(self@ =~= old(self)@.remove(container_id@));
                }
                let mut k: usize = 0;
                while k < group.handles.len()
                    invariant
                        k <= group.handles@.len(),
                    decreases group.handles.len() - k,
                {
                    abort_relay(&group.handles[k]);
                    k += 1;
                }
            },
            None => {
                assert(self@ =~= old(self)@.remove(container_id@));
            },
        }
    }

    /// Whether relays run for the container.
    pub fn contains(&self, container_id: &String) -> (known: bool)
        ensures
            known == self@.contains_key(container_id@),
    {
        self.position(container_id).is_some()
    }

    /// The number of relays that run for the container.
    pub fn relay_count(&self, container_id: &String) -> (count: usize)
        ensures
            count == group_of(self@, container_id@).len(),
            count > 0 <==> self@.contains_key(container_id@),
    {
        proof {
            use_type_invariant(self);
        }
        match self.position(container_id) {
            Some(i) => {
                proof {
                    let c = choose|c: int| self.holds_at(container_id@, c);
                    assert(c == i);
                }
                self.proxies[i].handles.len()
            },
            None => 0,
        }
    }

    /// The ids of the first `n` groups.
    spec fn ids_before(&self, n: int) -> Set<Seq<char>> {
        Set::new(|id: Seq<char>| exists|i: int| 0 <= i < n && self.holds_at(id, i))
    }

    /// The first `n` groups belong to `n` containers.
    proof fn lemma_ids_before(&self, n: int)
        requires
            self.well_formed(),
            0 <= n <= self.proxies@.len(),
        ensures
            self.ids_before(n).finite(),
            self.ids_before(n).len() == n,
        decreases n,
    {
        if n == 0 {
            assert(self.ids_before(n) =~= Set::empty());
        } else {
            self.lemma_ids_before(n - 1);
            let id = self.proxies@[n - 1].id@;
            assert(self.holds_at(id, n - 1));
            assert(self.ids_before(n) =~= self.ids_before(n - 1).insert(id));
        }
    }

    /// The number of containers that relays run for.
    pub fn len(&self) -> (count: usize)
        ensures
            self@.dom().finite(),
            count == self@.dom().len(),
    {
        proof {
            use_type_invariant(self);
            self.lemma_ids_before(self.proxies@.len() as int);
            assert(self@.dom() =~= self.ids_before(self.proxies@.len() as int));
        }
        self.proxies.len()
    }

    /// Position of the group of a container.
    fn position(&self, container_id: &String) -> (found: Option<usize>)
        ensures
            match found {
                Some(i) => self.holds_at(container_id@, i as int),
                None => !self@.contains_key(container_id@),
            },
    {
        let mut i: usize = 0;
        while i < self.proxies.len()
            invariant
                i <= self.proxies@.len(),
                forall|j: int| 0 <= j < i ==> !self.holds_at(container_id@, j),
            decreases self.proxies.len() - i,
        {
            if self.proxies[i].id == *container_id {
                return Some(i);
            }
            i += 1;
        }
        None
    }
}

} // verus!
