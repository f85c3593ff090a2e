//! From a target to the endpoint that may carry it.

use crate::flow::{DestinationView, FlowId, TransportProtocol};
use crate::outbound;
use crate::outbound::{OutboundRegistry, ProxyEndpointView};
use crate::plan::{Endpoint, EndpointView, ExecutionAction, ExecutionView, RejectReason};
use crate::policy::{ActionView, EngineView};
use crate::proxy;
use crate::proxy::Target;
use crate::runtime;
use crate::runtime::Runtime;
use vstd::prelude::*;

verus! {

/// What the policy does with a stream to the target.
pub open spec fn planned(
    policy: EngineView,
    target: DestinationView,
    transport: TransportProtocol,
    id: FlowId,
) -> ExecutionView {
    runtime::plan_of(policy, proxy::flow_to(target, transport, id)).action
}

/// The endpoint of a stream, or why there is none.
pub fn stream_endpoint(runtime: &Runtime, target: &Target, id: FlowId) -> (r: Result<
    Endpoint,
    RejectReason,
>)
    ensures
        match r {
            Ok(e) => planned(runtime@, target@, TransportProtocol::Tcp, id)
                == (ExecutionView::Route { endpoint: e@ }),
            Err(reason) => planned(runtime@, target@, TransportProtocol::Tcp, id)
                == (ExecutionView::Reject { reason }),
        },
{
    match proxy::plan_action(runtime, target, TransportProtocol::Tcp, id) {
        ExecutionAction::Route { endpoint } => Ok(endpoint),
        ExecutionAction::Reject { reason } => Err(reason),
    }
}

/// What a client's request for a stream leads to.
#[derive(Debug)]
pub enum StreamPlan {
    /// A stream over the endpoint.
    Open(Endpoint),
    /// Nothing but this answer.
    Refuse(Vec<u8>),
}

#[verifier::ext_equal]
pub enum StreamPlanView {
    Open(EndpointView),
    Refuse(Seq<u8>),
}

impl View for StreamPlan {
    type V = StreamPlanView;

    open spec fn view(&self) -> StreamPlanView {
        match self {
            StreamPlan::Open(e) => StreamPlanView::Open(e@),
            StreamPlan::Refuse(b) => StreamPlanView::Refuse(b@),
        }
    }
}

/// The policy decides: a stream is opened over the endpoint that it picks, and a
/// request that it rejects gets the refusal.
pub open spec fn stream_plan(
    policy: EngineView,
    target: DestinationView,
    id: FlowId,
    refusal: Seq<u8>,
) -> StreamPlanView {
    match planned(policy, target, TransportProtocol::Tcp, id) {
        ExecutionView::Route { endpoint } => StreamPlanView::Open(endpoint),
        ExecutionView::Reject { reason } => StreamPlanView::Refuse(refusal),
    }
}

pub fn plan_stream(runtime: &Runtime, target: &Target, id: FlowId, refusal: Vec<u8>) -> (r:
    StreamPlan)
    ensures
        r@ == stream_plan(runtime@, target@, id, refusal@),
{
    match stream_endpoint(runtime, target, id) {
        Ok(endpoint) => StreamPlan::Open(endpoint),
        Err(_) => StreamPlan::Refuse(refusal),
    }
}

/// Whether datagrams can go through the endpoint.
pub open spec fn carries_datagrams<D>(
    registry: Seq<ProxyEndpointView<D>>,
    endpoint: EndpointView,
) -> bool {
    match endpoint {
        EndpointView::Direct => true,
        EndpointView::Proxy(id) => outbound::lookup(registry, id) matches Some(e) && e.datagram
            is Some,
    }
}

/// The endpoint of a datagram, unless the policy rejects it or the endpoint that
/// the policy picks cannot carry it.
pub open spec fn datagram_route<D>(
    policy: EngineView,
    registry: Seq<ProxyEndpointView<D>>,
    target: DestinationView,
    id: FlowId,
) -> Option<EndpointView> {
    match planned(policy, target, TransportProtocol::Udp, id) {
        ExecutionView::Route { endpoint } => if carries_datagrams(registry, endpoint) {
            Some(endpoint)
        } else {
            None
        },
        ExecutionView::Reject { reason } => None,
    }
}

pub fn datagram_endpoint<D>(
    runtime: &Runtime,
    outbounds: &OutboundRegistry<D>,
    target: &Target,
    id: FlowId,
) -> (r: Option<Endpoint>)
    ensures
        match r {
            Some(e) => datagram_route(runtime@, outbounds@, target@, id) == Some(e@),
            None => datagram_route(runtime@, outbounds@, target@, id) is None,
        },
{
    match proxy::plan_action(runtime, target, TransportProtocol::Udp, id) {
        ExecutionAction::Reject { .. } => None,
        ExecutionAction::Route { endpoint } => match outbounds.capabilities(&endpoint) {
            Some(capabilities) => if capabilities.supports_udp() {
                Some(endpoint)
            } else {
                None
            },
            None => None,
        },
    }
}

/// A datagram goes nowhere but to the endpoint that the policy picked for it: one
/// that a proxy cannot carry does not go out directly.
pub proof fn law_datagrams_do_not_fall_back_to_direct<D>(
    policy: EngineView,
    registry: Seq<ProxyEndpointView<D>>,
    target: DestinationView,
    id: FlowId,
)
    ensures
        datagram_route(policy, registry, target, id) matches Some(e) ==> planned(
            policy,
            target,
            TransportProtocol::Udp,
            id,
        ) == (ExecutionView::Route { endpoint: e }),
        (planned(policy, target, TransportProtocol::Udp, id) matches ExecutionView::Route {
            endpoint,
        } && !carries_datagrams(registry, endpoint)) ==> datagram_route(
            policy,
            registry,
            target,
            id,
        ) is None,
{
}

/// A stream is opened over the endpoint that the policy routes it to as a TCP flow, and
/// refused exactly where the policy rejects it.
pub proof fn law_streams_go_where_the_policy_says(
    policy: EngineView,
    target: DestinationView,
    id: FlowId,
    refusal: Seq<u8>,
)
    ensures
        ({
            let flow = proxy::flow_to(target, TransportProtocol::Tcp, id);
            match policy.decides(flow).action {
                ActionView::Route(endpoint) => stream_plan(policy, target, id, refusal)
                    == StreamPlanView::Open(endpoint),
                ActionView::Reject(_) => stream_plan(policy, target, id, refusal)
                    == StreamPlanView::Refuse(refusal),
            }
        }),
{
}

/// A datagram goes over the endpoint that the policy routes it to as a UDP flow, where
/// that endpoint can carry it, and nowhere otherwise. Directly any datagram can go; over
/// a proxy it can where the proxy is registered with a way to carry datagrams.
pub proof fn law_datagrams_go_where_the_policy_says<D>(
    policy: EngineView,
    registry: Seq<ProxyEndpointView<D>>,
    target: DestinationView,
    id: FlowId,
)
    ensures
        ({
            let flow = proxy::flow_to(target, TransportProtocol::Udp, id);
            match policy.decides(flow).action {
                ActionView::Route(EndpointView::Direct) => datagram_route(
                    policy,
                    registry,
                    target,
                    id,
                ) == Some(EndpointView::Direct),
                ActionView::Route(EndpointView::Proxy(name)) => datagram_route(
                    policy,
                    registry,
                    target,
                    id,
                ) == (if outbound::lookup(registry, name) matches Some(e) && e.datagram is Some {
                    Some(EndpointView::Proxy(name))
                } else {
                    None
                }),
                ActionView::Reject(_) => datagram_route(policy, registry, target, id) is None,
            }
        }),
{
}

} // verus!
