//! Transport protocols, loopback addresses and the retrying bind.

use crate::text::same_text;
use rand::distributions::{Distribution, Uniform};
use vstd::prelude::*;

verus! {

/// Transport protocol of a published port.
#[derive(Clone, Copy, Debug, PartialEq, Eq, Structural)]
pub enum Protocol {
    Tcp,
    Udp,
}

/// The protocol that a name of the container runtime stands for: `tcp` or
/// `udp`, in lower case. Any other name stands for none that the proxy
/// relays.
pub open spec fn protocol_named(name: Seq<char>) -> Option<Protocol> {
    if name == "tcp"@ {
        Some(Protocol::Tcp)
    } else if name == "udp"@ {
        Some(Protocol::Udp)
    } else {
        None
    }
}

impl Protocol {
    /// Reads a protocol name of the container runtime.
    pub fn from_name(name: &str) -> (protocol: Option<Protocol>)
        ensures
            protocol == protocol_named(name@),
    {
        if same_text(name, "tcp") {
            Some(Protocol::Tcp)
        } else if same_text(name, "udp") {
            Some(Protocol::Udp)
        } else {
            None
        }
    }
}

/// First octet of every address the proxy listens on.
pub const LOOPBACK_NET: u8 = 127;

/// Exclusive upper bound of the three drawn octets.
pub const OCTET_BOUND: u8 = 255;

/// An address of the loopback range as the proxy draws it: `127.a.b.c` with
/// each of `a`, `b`, `c` below 255.
pub open spec fn is_private_ip(ip: [u8; 4]) -> bool {
    &&& ip[0] == LOOPBACK_NET
    &&& ip[1] < OCTET_BOUND
    &&& ip[2] < OCTET_BOUND
    &&& ip[3] < OCTET_BOUND
}

/// Draws one octet with `rand`: a sample of `Uniform::from(low..high)`,
/// taken from the thread-local generator. `Uniform::new` panics on an empty
/// range, hence the precondition; a sample lies in the half-open range.
/// Which of its values comes back is left open.
#[verifier::external_body]
fn sample_between(low: u8, high: u8) -> (octet: u8)
    requires
        low < high,
    ensures
        low <= octet < high,
{
    let mut rng = rand::thread_rng();
    Uniform::from(low..high).sample(&mut rng)
}

/// A random address in `127.0.0.0/8`. The last three octets are drawn
/// independently, each from `0..255`.
pub fn random_private_ip() -> (ip: [u8; 4])
    ensures
        is_private_ip(ip),
{
    let a: u8 = sample_between(0, OCTET_BOUND);
    let b: u8 = sample_between(0, OCTET_BOUND);
    let c: u8 = sample_between(0, OCTET_BOUND);
    [LOOPBACK_NET, a, b, c]
}

/// Milliseconds to wait after a failed bind before the next attempt, unless
/// the policy says otherwise.
pub const BIND_BACKOFF_MILLIS: u64 = 500;

/// How the allocator goes about a port that is taken.
#[derive(Clone, Copy, Debug, PartialEq, Eq, Structural)]
pub struct RetryPolicy {
    /// Milliseconds to wait after each failed bind.
    pub backoff_millis: u64,
    /// How many binds are tried before the allocator gives up; `None` for
    /// as many as it takes. At least one bind is tried in any case.
    pub max_attempts: Option<u32>,
}

impl RetryPolicy {
    /// The policy of the proxy: try for ever, half a second apart.
    pub fn unbounded() -> (policy: RetryPolicy)
        ensures
            policy == (RetryPolicy { backoff_millis: BIND_BACKOFF_MILLIS, max_attempts: None }),
    {
        RetryPolicy { backoff_millis: BIND_BACKOFF_MILLIS, max_attempts: None }
    }
}

/// Where a socket is to be bound, and of which kind: a listening TCP socket
/// or an unconnected UDP socket.
#[derive(Clone, Copy, Debug, PartialEq, Eq)]
pub struct BindTarget {
    pub ip: [u8; 4],
    pub port: u16,
    pub protocol: Protocol,
}

/// What the allocator is waiting for.
#[derive(Clone, Copy, Debug, PartialEq, Eq, Structural)]
pub enum AcquirePhase {
    /// A bind at the current target is under way.
    Binding,
    /// The last bind failed; the backoff is running.
    Waiting,
    /// The socket is bound.
    Bound,
    /// The last bind failed and the policy allows no other.
    GivenUp,
}

/// What the caller does next for the allocator.
#[derive(Clone, Copy, Debug, PartialEq, Eq)]
pub enum AcquireAction {
    /// Bind a socket at the target and report whether that succeeded.
    Bind(BindTarget),
    /// Log the failed bind, wait this long, then report back.
    Backoff { millis: u64 },
    /// Nothing more: the socket of the last bind is the result.
    Done,
    /// Nothing more: there is no socket, and there will be none.
    GiveUp,
}

/// The allocator as a value: its policy, its phase, the target of its
/// current or last bind, and the number of binds it has handed out. The
/// number stops counting at the largest that 32 bits hold.
pub struct Allocation {
    pub policy: RetryPolicy,
    pub phase: AcquirePhase,
    pub target: BindTarget,
    pub attempts: u32,
}

/// The allocation at its start: the first bind is under way.
pub open spec fn first_allocation(policy: RetryPolicy, target: BindTarget) -> Allocation {
    Allocation { policy, phase: AcquirePhase::Binding, target, attempts: 1 }
}

/// The policy allows no bind after those that were tried.
pub open spec fn exhausted(a: Allocation) -> bool {
    a.policy.max_attempts matches Some(most) && a.attempts >= most
}

/// The allocation after the caller reported on the pending action.
///
/// A bind that succeeded ends the allocation. One that failed starts the
/// backoff, or ends the allocation if the policy allows no other bind. When
/// the backoff is over, whatever is reported of it, a bind is tried at a
/// fresh address, at the same port and for the same protocol. An allocation
/// that has ended stays as it is.
pub open spec fn next_allocation(a: Allocation, succeeded: bool, fresh: [u8; 4]) -> Allocation {
    match a.phase {
        AcquirePhase::Binding => if succeeded {
            Allocation { phase: AcquirePhase::Bound, ..a }
        } else if exhausted(a) {
            Allocation { phase: AcquirePhase::GivenUp, ..a }
        } else {
            Allocation { phase: AcquirePhase::Waiting, ..a }
        },
        AcquirePhase::Waiting => Allocation {
            phase: AcquirePhase::Binding,
            target: BindTarget { ip: fresh, port: a.target.port, protocol: a.target.protocol },
            attempts: if a.attempts < u32::MAX {
                (a.attempts + 1) as u32
            } else {
                a.attempts
            },
            ..a
        },
        AcquirePhase::Bound => a,
        AcquirePhase::GivenUp => a,
    }
}

/// The action that an allocation is waiting for.
pub open spec fn pending_action(a: Allocation) -> AcquireAction {
    match a.phase {
        AcquirePhase::Binding => AcquireAction::Bind(a.target),
        AcquirePhase::Waiting => AcquireAction::Backoff { millis: a.policy.backoff_millis },
        AcquirePhase::Bound => AcquireAction::Done,
        AcquirePhase::GivenUp => AcquireAction::GiveUp,
    }
}

/// The allocation after a run of reports, each with the address drawn for
/// the step that took it.
pub open spec fn run(start: Allocation, reports: Seq<(bool, [u8; 4])>) -> Allocation
    decreases reports.len(),
{
    if reports.len() == 0 {
        start
    } else {
        next_allocation(run(start, reports.drop_last()), reports.last().0, reports.last().1)
    }
}

/// The time, in milliseconds, of all the backoffs handed out along a run.
pub open spec fn backoff_total(start: Allocation, reports: Seq<(bool, [u8; 4])>) -> nat
    decreases reports.len(),
{
    if reports.len() == 0 {
        0
    } else {
        let earlier = backoff_total(start, reports.drop_last());
        match pending_action(run(start, reports)) {
            AcquireAction::Backoff { millis } => earlier + millis as nat,
            _ => earlier,
        }
    }
}

/// The number of binds that were reported as failed along a run.
pub open spec fn failed_binds(start: Allocation, reports: Seq<(bool, [u8; 4])>) -> nat
    decreases reports.len(),
{
    if reports.len() == 0 {
        0
    } else {
        let earlier = failed_binds(start, reports.drop_last());
        if run(start, reports.drop_last()).phase == AcquirePhase::Binding && !reports.last().0 {
            earlier + 1
        } else {
            earlier
        }
    }
}

/// A run changes neither the port nor the protocol, and every address it
/// binds at is a loopback address of the drawn kind.
pub proof fn lemma_targets_stay_on_port(start: Allocation, reports: Seq<(bool, [u8; 4])>)
    requires
        is_private_ip(start.target.ip),
        forall|i: int| 0 <= i < reports.len() ==> is_private_ip((#[trigger] reports[i]).1),
    ensures
        run(start, reports).target.port == start.target.port,
        run(start, reports).target.protocol == start.target.protocol,
        is_private_ip(run(start, reports).target.ip),
    decreases reports.len(),
{
    if reports.len() > 0 {
        lemma_targets_stay_on_port(start, reports.drop_last());
    }
}

/// A run never changes the policy.
pub proof fn lemma_policy_is_kept(start: Allocation, reports: Seq<(bool, [u8; 4])>)
    ensures
        run(start, reports).policy == start.policy,
    decreases reports.len(),
{
    if reports.len() > 0 {
        lemma_policy_is_kept(start, reports.drop_last());
    }
}

/// Without a limit the allocator never gives up: whatever is reported, it
/// is bound or has a bind or a backoff under way.
pub proof fn lemma_unbounded_never_gives_up(start: Allocation, reports: Seq<(bool, [u8; 4])>)
    requires
        start.policy.max_attempts is None,
        start.phase != AcquirePhase::GivenUp,
    ensures
        run(start, reports).phase != AcquirePhase::GivenUp,
        pending_action(run(start, reports)) != AcquireAction::GiveUp,
    decreases reports.len(),
{
    if reports.len() > 0 {
        lemma_unbounded_never_gives_up(start, reports.drop_last());
        lemma_policy_is_kept(start, reports.drop_last());
    }
}

/// Each failed bind costs at most one backoff of the length that the policy
/// gives, and nothing else makes the allocator wait. As long as it does not
/// give up, and so for ever without a limit, each failed bind costs exactly
/// one: the backoffs of a run add up to the number of failed binds times the
/// backoff.
pub proof fn lemma_one_backoff_per_failed_bind(start: Allocation, reports: Seq<(bool, [u8; 4])>)
    requires
        start.phase != AcquirePhase::GivenUp,
    ensures
        backoff_total(start, reports) <= start.policy.backoff_millis * failed_binds(
            start,
            reports,
        ),
        run(start, reports).phase != AcquirePhase::GivenUp ==> backoff_total(start, reports)
            == start.policy.backoff_millis * failed_binds(start, reports),
        backoff_total(start, reports) == start.policy.backoff_millis * failed_binds(start, reports)
            - (if run(start, reports).phase == AcquirePhase::GivenUp {
            start.policy.backoff_millis as int
        } else {
            0
        }),
    decreases reports.len(),
{
    let backoff = start.policy.backoff_millis as int;
    if reports.len() > 0 {
        let init = reports.drop_last();
        lemma_one_backoff_per_failed_bind(start, init);
        lemma_policy_is_kept(start, init);
        lemma_policy_is_kept(start, reports);
        let n = failed_binds(start, init) as int;
        assert(backoff * (n + 1) == backoff * n + backoff) by (nonlinear_arith);
        assert(backoff * n >= 0) by (nonlinear_arith)
            requires
                backoff >= 0,
                n >= 0,
        ;
        if run(start, init).phase == AcquirePhase::GivenUp {
            assert(run(start, reports).phase == AcquirePhase::GivenUp);
        }
    } else {
        assert(backoff * 0 == 0) by (nonlinear_arith);
    }
}

/// The allocation ends well with the first bind that succeeds and with
/// nothing else: after a run it is bound exactly if it was bound before, or
/// one of the reports met a bind under way and said that it had succeeded.
pub proof fn lemma_bound_by_first_success(start: Allocation, reports: Seq<(bool, [u8; 4])>)
    ensures
        run(start, reports).phase == AcquirePhase::Bound <==> start.phase == AcquirePhase::Bound
            || exists|i: int|
            0 <= i < reports.len() && reports[i].0 && (#[trigger] run(
                start,
                reports.subrange(0, i),
            )).phase == AcquirePhase::Binding,
    decreases reports.len(),
{
    if reports.len() == 0 {
        assert(!exists|i: int|
            0 <= i < reports.len() && reports[i].0 && (#[trigger] run(
                start,
                reports.subrange(0, i),
            )).phase == AcquirePhase::Binding);
    } else {
        let init = reports.drop_last();
        let last = reports.len() - 1;
        lemma_bound_by_first_success(start, init);
        assert(reports.subrange(0, last) =~= init);
        assert forall|i: int| 0 <= i < last implies reports.subrange(0, i) == init.subrange(
            0,
            i,
        ) by {
            assert(reports.subrange(0, i) =~= init.subrange(0, i));
        }
        if run(start, reports).phase == AcquirePhase::Bound && start.phase != AcquirePhase::Bound {
            if run(start, init).phase == AcquirePhase::Bound {
                let i = choose|i: int|
                    0 <= i < init.len() && init[i].0 && (#[trigger] run(
                        start,
                        init.subrange(0, i),
                    )).phase == AcquirePhase::Binding;
                assert(reports[i].0 && run(start, reports.subrange(0, i)).phase
                    == AcquirePhase::Binding);
            } else {
                assert(reports[last].0 && run(start, reports.subrange(0, last)).phase
                    == AcquirePhase::Binding);
            }
        }
        if exists|i: int|
            0 <= i < reports.len() && reports[i].0 && (#[trigger] run(
                start,
                reports.subrange(0, i),
            )).phase == AcquirePhase::Binding {
            let i = choose|i: int|
                0 <= i < reports.len() && reports[i].0 && (#[trigger] run(
                    start,
                    reports.subrange(0, i),
                )).phase == AcquirePhase::Binding;
            if i < last {
                assert(init[i].0 && run(start, init.subrange(0, i)).phase
                    == AcquirePhase::Binding);
            }
        }
    }
}

/// A limit is kept: an allocation with a limit of at least one bind never
/// has more binds behind it than the limit.
pub proof fn lemma_limit_is_kept(
    policy: RetryPolicy,
    target: BindTarget,
    reports: Seq<(bool, [u8; 4])>,
)
    requires
        policy.max_attempts matches Some(most) && most >= 1,
    ensures
        policy.max_attempts matches Some(most) && run(
            first_allocation(policy, target),
            reports,
        ).attempts <= most,
        run(first_allocation(policy, target), reports).phase == AcquirePhase::Waiting
            ==> !exhausted(run(first_allocation(policy, target), reports)),
    decreases reports.len(),
{
    if reports.len() > 0 {
        lemma_limit_is_kept(policy, target, reports.drop_last());
        lemma_policy_is_kept(first_allocation(policy, target), reports.drop_last());
    }
}

/// Finds a free address for one port of a container by trial: it hands out
/// a bind at a random loopback address, and after each failure a pause and
/// a bind at another address, for as long as it takes or as the policy
/// allows.
pub struct AddressAllocator {
    policy: RetryPolicy,
    phase: AcquirePhase,
    target: BindTarget,
    attempts: u32,
}

impl View for AddressAllocator {
    type V = Allocation;

    closed spec fn view(&self) -> Allocation {
        Allocation {
            policy: self.policy,
            phase: self.phase,
            target: self.target,
            attempts: self.attempts,
        }
    }
}

impl AddressAllocator {
    #[verifier::type_invariant]
    spec fn well_formed(&self) -> bool {
        is_private_ip(self.target.ip)
    }

    /// What the allocator is waiting for.
    pub fn phase(&self) -> (phase: AcquirePhase)
        ensures
            phase == self@.phase,
    {
        self.phase
    }

    /// The target of the current bind, or of the last one.
    pub fn target(&self) -> (target: BindTarget)
        ensures
            target == self@.target,
            is_private_ip(target.ip),
    {
        proof {
            use_type_invariant(self);
        }
        self.target
    }

    /// The policy that the allocator was started with.
    pub fn policy(&self) -> (policy: RetryPolicy)
        ensures
            policy == self@.policy,
    {
        self.policy
    }

    /// The number of binds handed out so far.
    pub fn attempts(&self) -> (attempts: u32)
        ensures
            attempts == self@.attempts,
    {
        self.attempts
    }

    /// Starts the allocation for a port with the given first address.
    pub fn start_with(port: u16, protocol: Protocol, policy: RetryPolicy, first: [u8; 4]) -> (started:
        (AddressAllocator, AcquireAction))
        requires
            is_private_ip(first),
        ensures
            started.0@ == first_allocation(policy, BindTarget { ip: first, port, protocol }),
            started.1 == AcquireAction::Bind(BindTarget { ip: first, port, protocol }),
    {
        let target = BindTarget { ip: first, port, protocol };
        (
            AddressAllocator { policy, phase: AcquirePhase::Binding, target, attempts: 1 },
            AcquireAction::Bind(target),
        )
    }

    /// Starts the allocation for a port: the first action is a bind at a
    /// random loopback address.
    pub fn start(port: u16, protocol: Protocol, policy: RetryPolicy) -> (started: (
        AddressAllocator,
        AcquireAction,
    ))
        ensures
            started.0@ == first_allocation(policy, started.0@.target),
            started.0@.target.port == port,
            started.0@.target.protocol == protocol,
            is_private_ip(started.0@.target.ip),
            started.1 == AcquireAction::Bind(started.0@.target),
    {
        AddressAllocator::start_with(port, protocol, policy, random_private_ip())
    }

    /// Takes the report on the pending action and hands out the next one.
    /// `fresh` is the address of the next bind, where one is due.
    pub fn step_with(&mut self, succeeded: bool, fresh: [u8; 4]) -> (action: AcquireAction)
        requires
            is_private_ip(fresh),
        ensures
            final(self)@ == next_allocation(old(self)@, succeeded, fresh),
            action == pending_action(final(self)@),
            is_private_ip(final(self)@.target.ip),
    {
        proof {
            use_type_invariant(&*self);
        }
        match self.phase {
            AcquirePhase::Binding => {
                if succeeded {
                    self.phase = AcquirePhase::Bound;
                    AcquireAction::Done
                } else {
                    let exhausted = match self.policy.max_attempts {
                        Some(most) => self.attempts >= most,
                        None => false,
                    };
                    if exhausted {
                        self.phase = AcquirePhase::GivenUp;
                        AcquireAction::GiveUp
                    } else {
                        self.phase = AcquirePhase::Waiting;
                        AcquireAction::Backoff { millis: self.policy.backoff_millis }
                    }
                }
            },
            AcquirePhase::Waiting => {
                let target = BindTarget {
                    ip: fresh,
                    port: self.target.port,
                    protocol: self.target.protocol,
                };
                self.target = target;
                self.phase = AcquirePhase::Binding;
                if self.attempts < u32::MAX {
                    self.attempts = self.attempts + 1;
                }
                AcquireAction::Bind(target)
            },
            AcquirePhase::Bound => AcquireAction::Done,
            AcquirePhase::GivenUp => AcquireAction::GiveUp,
        }
    }

    /// Takes the report on the pending action and hands out the next one.
    /// Where a new bind is due, its address is drawn at random: the result
    /// is what `step_with` gives for one loopback address or another, which
    /// shows as the address of the new target.
    pub fn step(&mut self, succeeded: bool) -> (action: AcquireAction)
        ensures
            is_private_ip(final(self)@.target.ip),
            final(self)@ == next_allocation(old(self)@, succeeded, final(self)@.target.ip),
            action == pending_action(final(self)@),
    {
        proof {
            use_type_invariant(&*self);
        }
        match self.phase {
            AcquirePhase::Waiting => self.step_with(succeeded, random_private_ip()),
            _ => {
                let same = self.target.ip;
                self.step_with(succeeded, same)
            },
        }
    }
}

} // verus!
