//! Targets, their planning, and direct connections to them.

use crate::dns::engine;
use crate::dns::engine::DnsEngine;
use crate::dns::{DnsError, DnsErrorView};
use crate::error;
use crate::error::{Error, ErrorKind, ErrorView};
use crate::flow::{
    Destination, DestinationHost, DestinationView, FlowContext, FlowId, FlowView, HostView,
    NetworkContext, NetworkKind, NetworkView, SourceContext, SourceView, TransportProtocol,
};
use crate::net::{IpAddr, SocketAddr};
use crate::plan::ExecutionAction;
use crate::policy;
use crate::policy::EngineView;
use crate::runtime;
use crate::runtime::Runtime;
use crate::time::{Duration, Instant};
use vstd::prelude::*;
use vstd::string::*;

verus! {

pub const CONNECT_TIMEOUT_SECS: u64 = 10;

/// Where a flow wants to go.
#[derive(Debug, PartialEq, Eq)]
pub struct Target {
    pub host: DestinationHost,
    pub port: u16,
}

impl View for Target {
    type V = DestinationView;

    open spec fn view(&self) -> DestinationView {
        DestinationView { host: self.host@, port: self.port }
    }
}

impl Clone for Target {
    fn clone(&self) -> (r: Target)
        ensures
            r@ == self@,
    {
        Target { host: self.host.clone(), port: self.port }
    }
}

/// The target that a host and a port make; port zero makes none.
pub open spec fn target(host: HostView, port: u16) -> Result<DestinationView, ErrorView> {
    if port == 0 {
        Err(error::failure(ErrorKind::InvalidInput, "destination port must not be zero"@))
    } else {
        Ok(DestinationView { host, port })
    }
}

/// The flow towards a target, with nothing known of its source and network.
pub open spec fn flow_to(target: DestinationView, transport: TransportProtocol, id: FlowId) -> FlowView {
    FlowView {
        id,
        source: SourceView { uid: None, package: None },
        destination: target,
        transport,
        network: NetworkView { kind: NetworkKind::Unknown, interface: None },
    }
}

impl Target {
    pub fn new(host: DestinationHost, port: u16) -> (r: Result<Target, Error>)
        ensures
            match r {
                Ok(t) => target(host@, port) == Ok::<DestinationView, ErrorView>(t@),
                Err(e) => target(host@, port) == Err::<DestinationView, ErrorView>(e@),
            },
    {
        if port == 0 {
            return Err(Error::new(ErrorKind::InvalidInput, "destination port must not be zero"));
        }
        Ok(Target { host, port })
    }

    pub fn flow(&self, transport: TransportProtocol, id: FlowId) -> (r: FlowContext)
        ensures
            r@ == flow_to(self@, transport, id),
    {
        FlowContext::new(
            id,
            SourceContext::default(),
            Destination { host: self.host.clone(), port: self.port },
            transport,
            NetworkContext::default(),
        )
    }
}

/// Identifiers of flows, one after the other.
#[derive(Debug)]
pub struct FlowIds {
    next: u64,
}

impl View for FlowIds {
    type V = u64;

    closed spec fn view(&self) -> u64 {
        self.next
    }
}

impl FlowIds {
    pub fn new() -> (r: FlowIds)
        ensures
            r@ == 1,
    {
        FlowIds { next: 1 }
    }

    /// The next identifier; after the last one they start again.
    pub fn take(&mut self) -> (r: FlowId)
        ensures
            r.value() == old(self)@,
            final(self)@ == vstd::wrapping::u64_specs::wrapping_add(old(self)@, 1),
    {
        let id: u64 = self.next;
        self.next = self.next.wrapping_add(1);
        FlowId::new(id)
    }
}

/// What the policy does with a flow towards the target.
pub fn plan_action(
    runtime: &Runtime,
    target: &Target,
    transport: TransportProtocol,
    id: FlowId,
) -> (r: ExecutionAction)
    ensures
        r@ == runtime::plan_of(runtime@, flow_to(target@, transport, id)).action,
{
    runtime.plan(&target.flow(transport, id)).action
}

/// No matcher looks at the identifier of a flow.
proof fn lemma_matcher_ignores_id(m: policy::MatcherView, flow: FlowView, id: FlowId)
    ensures
        m.holds(flow) == m.holds(FlowView { id, ..flow }),
    decreases m,
{
    let other = FlowView { id, ..flow };
    match m {
        policy::MatcherView::All(v) => {
            assert forall|i: int| 0 <= i < v.len() implies v[i].holds(flow) == #[trigger] v[i].holds(
                other,
            ) by {
                lemma_matcher_ignores_id(v[i], flow, id);
            }
            if m.holds(flow) {
                assert forall|i: int| 0 <= i < v.len() implies (#[trigger] v[i]).holds(other) by {
                    assert(v[i].holds(flow));
                }
            }
            if m.holds(other) {
                assert forall|i: int| 0 <= i < v.len() implies (#[trigger] v[i]).holds(flow) by {
                    assert(v[i].holds(other));
                }
            }
        },
        policy::MatcherView::AnyOf(v) => {
            assert forall|i: int| 0 <= i < v.len() implies v[i].holds(flow) == #[trigger] v[i].holds(
                other,
            ) by {
                lemma_matcher_ignores_id(v[i], flow, id);
            }
            if m.holds(flow) {
                let i = choose|i: int| 0 <= i < v.len() && (#[trigger] v[i]).holds(flow);
                assert(v[i].holds(other));
            }
            if m.holds(other) {
                let i = choose|i: int| 0 <= i < v.len() && (#[trigger] v[i]).holds(other);
                assert(v[i].holds(other));
                assert(v[i].holds(flow));
            }
        },
        policy::MatcherView::Not(inner) => lemma_matcher_ignores_id(*inner, flow, id),
        _ => {},
    }
}

proof fn lemma_tier_ignores_id(
    rules: Seq<policy::RuleView>,
    tier: policy::PolicyTier,
    flow: FlowView,
    id: FlowId,
)
    ensures
        policy::first_in_tier(rules, tier, flow) == policy::first_in_tier(
            rules,
            tier,
            FlowView { id, ..flow },
        ),
    decreases rules.len(),
{
    if rules.len() > 0 {
        lemma_matcher_ignores_id(rules[0].matcher, flow, id);
        lemma_tier_ignores_id(rules.drop_first(), tier, flow, id);
    }
}

proof fn lemma_decision_ignores_id(
    engine: EngineView,
    flow: FlowView,
    id: FlowId,
    rank: nat,
)
    ensures
        policy::decision_from(engine.rules, engine.default_action, flow, rank)
            == policy::decision_from(
            engine.rules,
            engine.default_action,
            FlowView { id, ..flow },
            rank,
        ),
    decreases 5 - rank,
{
    if rank < 5 {
        lemma_tier_ignores_id(engine.rules, policy::PolicyTier::ranked(rank), flow, id);
        lemma_decision_ignores_id(engine, flow, id, rank + 1);
    }
}

/// What is done with a target depends on the target and the transport alone, not
/// on which flow it is.
pub proof fn law_action_does_not_depend_on_the_flow_id(
    policy: EngineView,
    target: DestinationView,
    transport: TransportProtocol,
    a: FlowId,
    b: FlowId,
)
    ensures
        runtime::plan_of(policy, flow_to(target, transport, a)).action == runtime::plan_of(
            policy,
            flow_to(target, transport, b),
        ).action,
{
    lemma_decision_ignores_id(policy, flow_to(target, transport, a), b, 0);
}

/// Addresses with one port.
pub open spec fn with_port(list: Seq<IpAddr>, port: u16) -> Seq<SocketAddr> {
    Seq::new(list.len(), |i: int| SocketAddr::spec_new(list[i], port))
}

/// The socket addresses of a domain that resolved like this.
pub open spec fn domain_sockets(resolved: Result<Seq<IpAddr>, DnsErrorView>, port: u16) -> Result<
    Seq<SocketAddr>,
    ErrorView,
> {
    match resolved {
        Err(e) => Err(error::failure(ErrorKind::AddrNotAvailable, e.message)),
        Ok(list) => if list.len() == 0 {
            Err(
                error::failure(
                    ErrorKind::AddrNotAvailable,
                    "destination resolved to no usable addresses"@,
                ),
            )
        } else {
            Ok(with_port(list, port))
        },
    }
}

/// A returned list or error is the one that the model gives.
pub open spec fn sockets(
    r: Result<Vec<SocketAddr>, Error>,
    m: Result<Seq<SocketAddr>, ErrorView>,
) -> bool {
    match (r, m) {
        (Ok(list), Ok(v)) => list@ == v,
        (Err(e), Err(v)) => e@ == v,
        _ => false,
    }
}

/// The socket addresses of a domain that resolved like this.
pub fn domain_addresses(resolved: Result<Vec<IpAddr>, DnsError>, port: u16) -> (r: Result<
    Vec<SocketAddr>,
    Error,
>)
    ensures
        sockets(r, domain_sockets(engine::outcome(resolved), port)),
{
    match resolved {
        Err(e) => Err(Error::new(ErrorKind::AddrNotAvailable, e.text())),
        Ok(list) => {
            if list.len() == 0 {
                return Err(
                    Error::new(
                        ErrorKind::AddrNotAvailable,
                        "destination resolved to no usable addresses",
                    ),
                );
            }
            let mut out: Vec<SocketAddr> = Vec::new();
            let mut i: usize = 0;
            while i < list.len()
                invariant
                    i <= list@.len(),
                    out@ == with_port(list@, port).take(i as int),
                decreases list@.len() - i,
            {
                out.push(SocketAddr::new(list[i], port));
                i = i + 1;
                assert(with_port(list@, port).take(i as int) == with_port(list@, port).take(
                    i - 1,
                ).push(with_port(list@, port)[i - 1]));
            }
            assert(with_port(list@, port).take(i as int) == with_port(list@, port));
            Ok(out)
        },
    }
}

/// What resolving a target returns and makes of the DNS engine: an address stands
/// for itself, and a domain is resolved.
pub open spec fn resolves_to(
    target: DestinationView,
    before: engine::EngineView,
    now: Instant,
    after: engine::EngineView,
    result: Result<Seq<SocketAddr>, ErrorView>,
) -> bool {
    match target.host {
        HostView::Ip(a) => after == before && result == Ok::<Seq<SocketAddr>, ErrorView>(
            seq![SocketAddr::spec_new(a, target.port)],
        ),
        HostView::Domain(d) => exists|resolved: Result<Seq<IpAddr>, DnsErrorView>|
            #![trigger domain_sockets(resolved, target.port)]
            before.resolves(d, now, resolved, after) && result == domain_sockets(
                resolved,
                target.port,
            ),
    }
}

/// The socket addresses of a target.
pub fn resolve_target(target: &Target, dns: &mut DnsEngine, now: Instant) -> (r: Result<
    Vec<SocketAddr>,
    Error,
>)
    requires
        old(dns).wf(),
    ensures
        final(dns).wf(),
        match r {
            Ok(list) => resolves_to(target@, old(dns)@, now, final(dns)@, Ok(list@)),
            Err(e) => resolves_to(target@, old(dns)@, now, final(dns)@, Err(e@)),
        },
        r matches Ok(list) ==> 1 <= list@.len() <= 16,
{
    match &target.host {
        DestinationHost::Ip(a) => {
            let mut out: Vec<SocketAddr> = Vec::new();
            out.push(SocketAddr::new(*a, target.port));
            assert(out@ == seq![SocketAddr::spec_new(*a, target.port)]);
            Ok(out)
        },
        DestinationHost::Domain(d) => {
            let resolved = dns.resolve(d.as_str(), now);
            let ghost model = engine::outcome(resolved);
            let r = domain_addresses(resolved, target.port);
            assert(sockets(r, domain_sockets(model, target.port)));
            r
        },
    }
}

/// Connecting to the addresses of a target, one after the other, until a deadline.
#[derive(Debug)]
pub struct ConnectAttempts {
    addresses: Vec<SocketAddr>,
    next: usize,
    deadline: u128,
    last_error: Option<Error>,
}

#[verifier::ext_equal]
pub struct AttemptsView {
    pub addresses: Seq<SocketAddr>,
    pub deadline: nat,
    pub last_error: Option<ErrorView>,
}

impl View for ConnectAttempts {
    type V = AttemptsView;

    closed spec fn view(&self) -> AttemptsView {
        AttemptsView {
            addresses: self.addresses@.skip(self.next as int),
            deadline: self.deadline as nat,
            last_error: match self.last_error {
                Some(e) => Some(e@),
                None => None,
            },
        }
    }
}

/// What to do next to reach a target.
#[derive(Debug)]
pub enum ConnectStep {
    Try(SocketAddr, Duration),
    Fail(Error),
}

pub enum ConnectStepView {
    Try(SocketAddr, nat),
    Fail(ErrorView),
}

impl View for ConnectStep {
    type V = ConnectStepView;

    open spec fn view(&self) -> ConnectStepView {
        match self {
            ConnectStep::Try(a, left) => ConnectStepView::Try(*a, left.nanos as nat),
            ConnectStep::Fail(e) => ConnectStepView::Fail(e@),
        }
    }
}

impl AttemptsView {
    /// What is left to try, and the next step: the first address while there is time.
    pub open spec fn next(self, now: Instant) -> (AttemptsView, ConnectStepView) {
        if self.addresses.len() > 0 && now.nanos < self.deadline {
            (
                AttemptsView { addresses: self.addresses.drop_first(), ..self },
                ConnectStepView::Try(self.addresses[0], (self.deadline - now.nanos) as nat),
            )
        } else {
            (
                self,
                ConnectStepView::Fail(
                    match self.last_error {
                        Some(e) => e,
                        None => error::failure(
                            ErrorKind::TimedOut,
                            "no resolved address connected before timeout"@,
                        ),
                    },
                ),
            )
        }
    }

    /// The attempts after one of them failed.
    pub open spec fn with_failure(self, e: ErrorView) -> AttemptsView {
        AttemptsView { last_error: Some(e), ..self }
    }
}

impl ConnectAttempts {
    pub closed spec fn wf(self) -> bool {
        self.next <= self.addresses@.len()
    }

    pub fn new(addresses: Vec<SocketAddr>, now: Instant) -> (r: ConnectAttempts)
        ensures
            r.wf(),
            r@ == (AttemptsView {
                addresses: addresses@,
                deadline: now.nanos as nat + 10_000_000_000,
                last_error: None,
            }),
    {
        let deadline: u128 = now.nanos as u128 + Duration::from_secs(CONNECT_TIMEOUT_SECS).nanos;
        let r = ConnectAttempts { addresses, next: 0, deadline, last_error: None };
        assert(r@.addresses == addresses@);
        r
    }

    /// The next address with the time that is left for it; without an address or
    /// without time, the last failure.
    pub fn step(&mut self, now: Instant) -> (r: ConnectStep)
        requires
            old(self).wf(),
        ensures
            final(self).wf(),
            (final(self)@, r@) == old(self)@.next(now),
    {
        if self.next < self.addresses.len() && (now.nanos as u128) < self.deadline {
            let address = self.addresses[self.next];
            self.next = self.next + 1;
            assert(self@.addresses == old(self)@.addresses.drop_first());
            return ConnectStep::Try(
                address,
                Duration { nanos: self.deadline - now.nanos as u128 },
            );
        }
        match &self.last_error {
            Some(e) => ConnectStep::Fail(e.clone()),
            None => ConnectStep::Fail(
                Error::new(ErrorKind::TimedOut, "no resolved address connected before timeout"),
            ),
        }
    }

    /// An address could not be reached.
    pub fn failed(&mut self, error: Error)
        requires
            old(self).wf(),
        ensures
            final(self).wf(),
            final(self)@ == old(self)@.with_failure(error@),
    {
        self.last_error = Some(error);
    }
}

/// A flow to a target is one to this target over this transport, of which nothing else
/// is known: rules on who sent it or over which network do not apply to it.
pub proof fn law_flow_is_known_by_its_target(
    target: DestinationView,
    transport: TransportProtocol,
    id: FlowId,
)
    ensures
        ({
            let flow = flow_to(target, transport, id);
            &&& flow.id == id
            &&& flow.destination == target
            &&& flow.transport == transport
            &&& flow.source.uid is None && flow.source.package is None
            &&& flow.network.kind == NetworkKind::Unknown && flow.network.interface is None
        }),
{
}

/// A target is any host with a port other than zero.
pub proof fn law_only_port_zero_is_no_target(host: HostView, port: u16)
    ensures
        target(host, port) is Err <==> port == 0,
        target(host, port) matches Ok(t) ==> t.host == host && t.port == port,
{
}

/// The sockets of a domain are the addresses that it resolves to, in order, each with
/// the port of the target; a domain that does not resolve has none.
pub proof fn law_sockets_are_the_resolved_addresses(
    resolved: Result<Seq<IpAddr>, DnsErrorView>,
    port: u16,
)
    ensures
        domain_sockets(resolved, port) is Ok <==> (resolved matches Ok(list) && list.len() > 0),
        domain_sockets(resolved, port) matches Ok(sockets) ==> {
            let list = resolved->Ok_0;
            &&& sockets.len() == list.len()
            &&& forall|i: int|
                0 <= i < list.len() ==> (#[trigger] sockets[i]).ip == list[i] && sockets[i].port
                    == port
        },
        domain_sockets(resolved, port) matches Err(e) ==> e.kind == ErrorKind::AddrNotAvailable,
{
}

/// An address is its own socket: it is asked of nobody, and nothing is remembered.
pub proof fn law_addresses_are_not_resolved(
    address: IpAddr,
    port: u16,
    before: engine::EngineView,
    now: Instant,
    after: engine::EngineView,
    result: Result<Seq<SocketAddr>, ErrorView>,
)
    requires
        resolves_to(
            DestinationView { host: HostView::Ip(address), port },
            before,
            now,
            after,
            result,
        ),
    ensures
        after == before,
        result matches Ok(sockets) && sockets.len() == 1 && sockets[0].ip == address
            && sockets[0].port == port,
{
}

/// The addresses of a target are tried in order while its ten seconds last, each with the time
/// that is left of them. When no address or no time is left, the last failure is the answer,
/// and a timeout where there was none.
pub proof fn law_addresses_are_tried_in_order(attempts: AttemptsView, now: Instant, e: ErrorView)
    ensures
        ({
            let (after, step) = attempts.next(now);
            let goes_on = attempts.addresses.len() > 0 && now.nanos < attempts.deadline;
            &&& step is Try <==> goes_on
            &&& step matches ConnectStepView::Try(a, left) ==> {
                &&& seq![a] + after.addresses == attempts.addresses
                &&& now.nanos + left == attempts.deadline
            }
            &&& step matches ConnectStepView::Fail(f) ==> {
                &&& attempts.last_error is Some ==> attempts.last_error == Some(f)
                &&& attempts.last_error is None ==> f.kind == ErrorKind::TimedOut
                &&& after == attempts
            }
            &&& after.deadline == attempts.deadline
            &&& after.last_error == attempts.last_error
            &&& after.with_failure(e).addresses == after.addresses
            &&& after.with_failure(e).deadline == after.deadline
            &&& after.with_failure(e).last_error == Some(e)
        }),
{
    if attempts.addresses.len() > 0 {
        assert(seq![attempts.addresses[0]] + attempts.addresses.drop_first()
            =~= attempts.addresses);
    }
}

/// All addresses of a target share ten seconds from the start.
pub proof fn law_attempts_share_ten_seconds(
    addresses: Vec<SocketAddr>,
    now: Instant,
    r: ConnectAttempts,
)
    requires
        call_ensures(ConnectAttempts::new, (addresses, now), r),
    ensures
        r@.addresses == addresses@,
        r@.deadline == now.nanos + 10_000_000_000,
        r@.last_error is None,
{
}

} // verus!
