//! The course of a SOCKS5 UDP association: what is done after each event.
//!
//! In each round the control connection comes first, then the datagrams of the
//! client, then those of the routes, then replies that wait, then what the
//! client-facing socket waits for.

use crate::datagram::{DatagramRouteSet, ReceivedDatagram, ReceivedView, RouteView};
use crate::dispatch;
use crate::error::{Error, ErrorKind, ErrorView};
use crate::flow::{DestinationView, FlowId};
use crate::idle;
use crate::net::SocketAddr;
use crate::outbound::{OutboundRegistry, ProxyEndpointView};
use crate::plan::{Endpoint, EndpointView};
use crate::policy::EngineView;
use crate::proxy::Target;
use crate::runtime::Runtime;
use crate::socks5;
use crate::socks5::association;
use crate::socks5::association::{
    AssociationView, Batch, ControlCheck, ControlStep, ControlStepView, ReadyEvent, UdpAssociation,
    MAX_CONTROL_READS, MAX_UDP_EVENT_BURST,
};
use crate::time::{Duration, Instant};
use vstd::prelude::*;

verus! {

#[verifier::ext_equal]
pub struct BatchView {
    pub control: Seq<ReadyEvent>,
    pub client_readable: bool,
    pub outbound: Seq<usize>,
    pub client_writable: bool,
}

impl View for Batch {
    type V = BatchView;

    open spec fn view(&self) -> BatchView {
        BatchView {
            control: self.control@,
            client_readable: self.client_readable,
            outbound: self.outbound@,
            client_writable: self.client_writable,
        }
    }
}

/// What a batch of events asks for.
pub open spec fn batch_of<E>(events: Seq<ReadyEvent>, routes: Seq<RouteView<E>>) -> BatchView {
    BatchView {
        control: association::control_events(events),
        client_readable: association::client_is_readable(events),
        outbound: association::outbound_tokens(events, routes),
        client_writable: association::client_is_writable(events),
    }
}

/// What the association waits for.
#[derive(Debug)]
pub enum Phase {
    Poll,
    Control { batch: Batch, index: usize, check: ControlCheck },
    ClientRead { batch: Batch, left: usize },
    ClientSend { batch: Batch, left: usize, source: SocketAddr },
    RouteRead { batch: Batch, index: usize, left: usize },
    ReplySend { batch: Batch, index: usize, left: usize, packet: Vec<u8>, client: SocketAddr },
    Flush { sent_any: bool },
    Interest,
    Ended,
}

#[verifier::ext_equal]
pub enum PhaseView {
    Poll,
    Control { batch: BatchView, index: usize, check: ControlCheck },
    ClientRead { batch: BatchView, left: usize },
    ClientSend { batch: BatchView, left: usize, source: SocketAddr },
    RouteRead { batch: BatchView, index: usize, left: usize },
    ReplySend { batch: BatchView, index: usize, left: usize, packet: Seq<u8>, client: SocketAddr },
    Flush { sent_any: bool },
    Interest,
    Ended,
}

impl View for Phase {
    type V = PhaseView;

    open spec fn view(&self) -> PhaseView {
        match self {
            Phase::Poll => PhaseView::Poll,
            Phase::Control { batch, index, check } => PhaseView::Control {
                batch: batch@,
                index: *index,
                check: *check,
            },
            Phase::ClientRead { batch, left } => PhaseView::ClientRead {
                batch: batch@,
                left: *left,
            },
            Phase::ClientSend { batch, left, source } => PhaseView::ClientSend {
                batch: batch@,
                left: *left,
                source: *source,
            },
            Phase::RouteRead { batch, index, left } => PhaseView::RouteRead {
                batch: batch@,
                index: *index,
                left: *left,
            },
            Phase::ReplySend { batch, index, left, packet, client } => PhaseView::ReplySend {
                batch: batch@,
                index: *index,
                left: *left,
                packet: packet@,
                client: *client,
            },
            Phase::Flush { sent_any } => PhaseView::Flush { sent_any: *sent_any },
            Phase::Interest => PhaseView::Interest,
            Phase::Ended => PhaseView::Ended,
        }
    }
}

/// What is to be done next.
#[derive(Debug)]
pub enum RelayAction {
    Poll(Duration),
    ReadControl,
    ReceiveClient,
    /// Send the payload to the target over the route of the endpoint.
    Send { endpoint: Endpoint, target: Target, payload: Vec<u8> },
    /// Receive from the route that owns the token.
    ReceiveRoute(usize),
    SendClient { packet: Vec<u8>, client: SocketAddr },
    /// Let the client-facing socket wait for writability, or no longer.
    SetWritable(bool),
    Finish(Result<(), Error>),
}

#[verifier::ext_equal]
pub enum RelayActionView {
    Poll(Duration),
    ReadControl,
    ReceiveClient,
    Send { endpoint: EndpointView, target: DestinationView, payload: Seq<u8> },
    ReceiveRoute(usize),
    SendClient { packet: Seq<u8>, client: SocketAddr },
    SetWritable(bool),
    Finish(Result<(), ErrorView>),
}

impl View for RelayAction {
    type V = RelayActionView;

    open spec fn view(&self) -> RelayActionView {
        match self {
            RelayAction::Poll(d) => RelayActionView::Poll(*d),
            RelayAction::ReadControl => RelayActionView::ReadControl,
            RelayAction::ReceiveClient => RelayActionView::ReceiveClient,
            RelayAction::Send { endpoint, target, payload } => RelayActionView::Send {
                endpoint: endpoint@,
                target: target@,
                payload: payload@,
            },
            RelayAction::ReceiveRoute(t) => RelayActionView::ReceiveRoute(*t),
            RelayAction::SendClient { packet, client } => RelayActionView::SendClient {
                packet: packet@,
                client: *client,
            },
            RelayAction::SetWritable(w) => RelayActionView::SetWritable(*w),
            RelayAction::Finish(Ok(_)) => RelayActionView::Finish(Ok(())),
            RelayAction::Finish(Err(e)) => RelayActionView::Finish(Err(e@)),
        }
    }
}

/// What came of an action.
#[derive(Debug)]
pub enum RelayEvent {
    Polled(Vec<ReadyEvent>),
    PollFailed(Error),
    ControlRead(Result<usize, Error>),
    ClientReceived { source: SocketAddr, packet: Vec<u8> },
    ClientReadFailed(Error),
    /// The datagram was sent over its route, or could not be.
    Sent(bool),
    RouteReceived { received: ReceivedDatagram, payload: Vec<u8> },
    RouteIdle,
    RouteFailed(Error),
    ClientSent(Result<usize, Error>),
    InterestSet,
    InterestFailed(Error),
}

#[verifier::ext_equal]
pub enum RelayEventView {
    Polled(Seq<ReadyEvent>),
    PollFailed(ErrorView),
    ControlRead(Result<usize, Error>),
    ClientReceived { source: SocketAddr, packet: Seq<u8> },
    ClientReadFailed(ErrorView),
    Sent(bool),
    RouteReceived { received: ReceivedView, payload: Seq<u8> },
    RouteIdle,
    RouteFailed(ErrorView),
    ClientSent(Result<nat, ErrorKind>),
    InterestSet,
    InterestFailed(ErrorView),
}

impl View for RelayEvent {
    type V = RelayEventView;

    open spec fn view(&self) -> RelayEventView {
        match self {
            RelayEvent::Polled(v) => RelayEventView::Polled(v@),
            RelayEvent::PollFailed(e) => RelayEventView::PollFailed(e@),
            RelayEvent::ControlRead(r) => RelayEventView::ControlRead(*r),
            RelayEvent::ClientReceived { source, packet } => RelayEventView::ClientReceived {
                source: *source,
                packet: packet@,
            },
            RelayEvent::ClientReadFailed(e) => RelayEventView::ClientReadFailed(e@),
            RelayEvent::Sent(ok) => RelayEventView::Sent(*ok),
            RelayEvent::RouteReceived { received, payload } => RelayEventView::RouteReceived {
                received: received@,
                payload: payload@,
            },
            RelayEvent::RouteIdle => RelayEventView::RouteIdle,
            RelayEvent::RouteFailed(e) => RelayEventView::RouteFailed(e@),
            RelayEvent::ClientSent(r) => RelayEventView::ClientSent(association::sent(*r)),
            RelayEvent::InterestSet => RelayEventView::InterestSet,
            RelayEvent::InterestFailed(e) => RelayEventView::InterestFailed(e@),
        }
    }
}

/// An association in its course.
#[verifier::ext_equal]
pub struct RelayView {
    pub association: AssociationView,
    pub phase: PhaseView,
}

pub type Turn = (RelayView, RelayActionView);

pub open spec fn finish(a: AssociationView, result: Result<(), ErrorView>) -> Turn {
    (
        RelayView { association: a, phase: PhaseView::Ended },
        RelayActionView::Finish(result),
    )
}

/// A new round, unless the association was idle for too long.
pub open spec fn to_poll(a: AssociationView, now: Instant) -> Turn {
    let unused = idle::unused(a.last_activity, now);
    if unused >= 120_000_000_000 {
        finish(a, Ok(()))
    } else {
        (
            RelayView { association: a, phase: PhaseView::Poll },
            RelayActionView::Poll(Duration { nanos: (120_000_000_000 - unused) as u128 }),
        )
    }
}

pub open spec fn to_interest(a: AssociationView, now: Instant) -> Turn {
    let wants = a.pending.len() > 0;
    let after = AssociationView { relay_writable: wants, ..a };
    if wants != a.relay_writable {
        (
            RelayView { association: after, phase: PhaseView::Interest },
            RelayActionView::SetWritable(wants),
        )
    } else {
        to_poll(after, now)
    }
}

/// The first reply that waits is tried; without one, what was sent counts as use.
pub open spec fn to_pending(a: AssociationView, sent_any: bool, now: Instant) -> Turn {
    if a.pending.len() > 0 {
        (
            RelayView { association: a, phase: PhaseView::Flush { sent_any } },
            RelayActionView::SendClient { packet: a.pending[0].0, client: a.pending[0].1 },
        )
    } else {
        after_flush(a, sent_any, now)
    }
}

pub open spec fn after_flush(a: AssociationView, sent_any: bool, now: Instant) -> Turn {
    to_interest(
        if sent_any {
            AssociationView { last_activity: now, ..a }
        } else {
            a
        },
        now,
    )
}

pub open spec fn to_flush(a: AssociationView, writable: bool, now: Instant) -> Turn {
    if writable {
        to_pending(a, false, now)
    } else {
        to_interest(a, now)
    }
}

/// The route of the next token that is ready.
pub open spec fn to_route(a: AssociationView, batch: BatchView, index: nat, now: Instant) -> Turn {
    if index < batch.outbound.len() {
        (
            RelayView {
                association: a,
                phase: PhaseView::RouteRead {
                    batch,
                    index: index as usize,
                    left: (MAX_UDP_EVENT_BURST - 1) as usize,
                },
            },
            RelayActionView::ReceiveRoute(batch.outbound[index as int]),
        )
    } else {
        to_flush(a, batch.client_writable, now)
    }
}

/// The same route again, as long as turns are left.
pub open spec fn route_again(
    a: AssociationView,
    batch: BatchView,
    index: usize,
    left: usize,
    now: Instant,
) -> Turn {
    if left > 0 {
        (
            RelayView {
                association: a,
                phase: PhaseView::RouteRead { batch, index, left: (left - 1) as usize },
            },
            RelayActionView::ReceiveRoute(batch.outbound[index as int]),
        )
    } else {
        to_route(a, batch, index as nat + 1, now)
    }
}

pub open spec fn to_client(a: AssociationView, batch: BatchView, now: Instant) -> Turn {
    if batch.client_readable {
        (
            RelayView {
                association: a,
                phase: PhaseView::ClientRead {
                    batch,
                    left: (MAX_UDP_EVENT_BURST - 1) as usize,
                },
            },
            RelayActionView::ReceiveClient,
        )
    } else {
        to_route(a, batch, 0, now)
    }
}

pub open spec fn client_again(
    a: AssociationView,
    batch: BatchView,
    left: usize,
    now: Instant,
) -> Turn {
    if left > 0 {
        (
            RelayView {
                association: a,
                phase: PhaseView::ClientRead { batch, left: (left - 1) as usize },
            },
            RelayActionView::ReceiveClient,
        )
    } else {
        to_route(a, batch, 0, now)
    }
}

/// The next event of the control connection.
pub open spec fn to_control(a: AssociationView, batch: BatchView, index: nat, now: Instant) -> Turn
    decreases batch.control.len() - index,
{
    if index >= batch.control.len() {
        to_client(a, batch, now)
    } else if batch.control[index as int].closed {
        finish(a, Ok(()))
    } else if batch.control[index as int].readable {
        (
            RelayView {
                association: a,
                phase: PhaseView::Control {
                    batch,
                    index: index as usize,
                    check: ControlCheck { reads_left: MAX_CONTROL_READS },
                },
            },
            RelayActionView::ReadControl,
        )
    } else {
        to_control(a, batch, index + 1, now)
    }
}

pub open spec fn after_poll<E>(
    a: AssociationView,
    events: Seq<ReadyEvent>,
    routes: Seq<RouteView<E>>,
    now: Instant,
) -> Turn {
    if events.len() == 0 {
        finish(a, Ok(()))
    } else {
        to_control(a, batch_of(events, routes), 0, now)
    }
}

pub open spec fn after_control(
    a: AssociationView,
    batch: BatchView,
    index: usize,
    check: ControlCheck,
    result: Result<usize, Error>,
    now: Instant,
) -> Turn {
    let (next, step) = check.next(result);
    match step {
        ControlStepView::Closed => finish(a, Ok(())),
        ControlStepView::Open => to_control(a, batch, index as nat + 1, now),
        ControlStepView::Read => (
            RelayView { association: a, phase: PhaseView::Control { batch, index, check: next } },
            RelayActionView::ReadControl,
        ),
        ControlStepView::Fail(e) => finish(a, Err(e)),
    }
}

pub open spec fn after_client<D>(
    a: AssociationView,
    batch: BatchView,
    left: usize,
    source: SocketAddr,
    packet: Seq<u8>,
    policy: EngineView,
    registry: Seq<ProxyEndpointView<D>>,
    id: FlowId,
    now: Instant,
) -> Turn {
    if !association::is_from_client(source, a.control_ip, a.client) {
        client_again(a, batch, left, now)
    } else {
        match association::client_route(policy, registry, packet, id) {
            None => client_again(a, batch, left, now),
            Some((endpoint, target, payload)) => (
                RelayView {
                    association: a,
                    phase: PhaseView::ClientSend { batch, left, source },
                },
                RelayActionView::Send { endpoint, target, payload },
            ),
        }
    }
}

pub open spec fn after_route(
    a: AssociationView,
    batch: BatchView,
    index: usize,
    left: usize,
    source: DestinationView,
    payload: Seq<u8>,
    now: Instant,
) -> Turn {
    match a.client {
        None => route_again(a, batch, index, left, now),
        Some(client) => match socks5::udp_response(source, payload) {
            Err(e) => finish(a, Err(e)),
            Ok(packet) => (
                RelayView {
                    association: a,
                    phase: PhaseView::ReplySend { batch, index, left, packet, client },
                },
                RelayActionView::SendClient { packet, client },
            ),
        },
    }
}

pub open spec fn after_flush_attempt(
    a: AssociationView,
    sent_any: bool,
    result: Result<nat, ErrorKind>,
    now: Instant,
) -> Turn {
    let went_out = result == Ok::<nat, ErrorKind>(a.pending[0].0.len());
    let after = a.flushed(result);
    if AssociationView::flush_goes_on(result) {
        to_pending(after, sent_any || went_out, now)
    } else {
        after_flush(after, sent_any, now)
    }
}

/// What surrounds the association.
pub struct Surroundings<E, D> {
    pub policy: EngineView,
    pub registry: Seq<ProxyEndpointView<D>>,
    pub routes: Seq<RouteView<E>>,
    pub id: FlowId,
    pub now: Instant,
}

impl RelayView {
    pub open spec fn wf(self) -> bool {
        &&& self.association.wf()
        &&& match self.phase {
            PhaseView::Control { batch, index, check } => index < batch.control.len(),
            PhaseView::RouteRead { batch, index, left } => index < batch.outbound.len(),
            PhaseView::ReplySend { batch, index, left, packet, client } => index
                < batch.outbound.len() && self.association.client == Some(client),
            PhaseView::Flush { sent_any } => self.association.pending.len() > 0,
            PhaseView::ClientSend { batch, left, source } => association::is_from_client(
                source,
                self.association.control_ip,
                self.association.client,
            ),
            _ => true,
        }
    }

    /// Whether the event can follow the last action.
    pub open spec fn expects(self, event: RelayEventView) -> bool {
        match self.phase {
            PhaseView::Poll => event is Polled || event is PollFailed,
            PhaseView::Control { .. } => event is ControlRead,
            PhaseView::ClientRead { .. } => event is ClientReceived || event is ClientReadFailed,
            PhaseView::ClientSend { .. } => event is Sent,
            PhaseView::RouteRead { .. } => event is RouteReceived || event is RouteIdle || event
                is RouteFailed,
            PhaseView::ReplySend { .. } => event is ClientSent,
            PhaseView::Flush { .. } => event is ClientSent,
            PhaseView::Interest => event is InterestSet || event is InterestFailed,
            PhaseView::Ended => false,
        }
    }

    /// What an event leads to.
    pub open spec fn next<E, D>(self, event: RelayEventView, s: Surroundings<E, D>) -> Turn {
        let a = self.association;
        match (self.phase, event) {
            (PhaseView::Poll, RelayEventView::Polled(events)) => after_poll(
                a,
                events,
                s.routes,
                s.now,
            ),
            (PhaseView::Poll, RelayEventView::PollFailed(e)) => if e.kind
                == ErrorKind::Interrupted {
                to_poll(a, s.now)
            } else {
                finish(a, Err(e))
            },
            (PhaseView::Control { batch, index, check }, RelayEventView::ControlRead(result))
                => after_control(a, batch, index, check, result, s.now),
            (
                PhaseView::ClientRead { batch, left },
                RelayEventView::ClientReceived { source, packet },
            ) => after_client(
                a,
                batch,
                left,
                source,
                packet,
                s.policy,
                s.registry,
                s.id,
                s.now,
            ),
            (PhaseView::ClientRead { batch, left }, RelayEventView::ClientReadFailed(e)) => {
                if e.kind == ErrorKind::WouldBlock {
                    to_route(a, batch, 0, s.now)
                } else if e.kind == ErrorKind::Interrupted {
                    client_again(a, batch, left, s.now)
                } else {
                    finish(a, Err(e))
                }
            },
            (PhaseView::ClientSend { batch, left, source }, RelayEventView::Sent(ok)) => {
                client_again(
                    if ok {
                        AssociationView { client: Some(source), last_activity: s.now, ..a }
                    } else {
                        a
                    },
                    batch,
                    left,
                    s.now,
                )
            },
            (
                PhaseView::RouteRead { batch, index, left },
                RelayEventView::RouteReceived { received, payload },
            ) => after_route(a, batch, index, left, received.source, payload, s.now),
            (PhaseView::RouteRead { batch, index, left }, RelayEventView::RouteIdle) => to_route(
                a,
                batch,
                index as nat + 1,
                s.now,
            ),
            (PhaseView::RouteRead { batch, index, left }, RelayEventView::RouteFailed(e))
                => finish(a, Err(e)),
            (
                PhaseView::ReplySend { batch, index, left, packet, client },
                RelayEventView::ClientSent(result),
            ) => route_again(
                a.replied(packet, client, result, s.now),
                batch,
                index,
                left,
                s.now,
            ),
            (PhaseView::Flush { sent_any }, RelayEventView::ClientSent(result))
                => after_flush_attempt(a, sent_any, result, s.now),
            (PhaseView::Interest, RelayEventView::InterestSet) => to_poll(a, s.now),
            (PhaseView::Interest, RelayEventView::InterestFailed(e)) => finish(a, Err(e)),
            _ => finish(a, Ok(())),
        }
    }
}

/// A SOCKS5 UDP association in its course.
#[derive(Debug)]
pub struct UdpRelay {
    association: UdpAssociation,
    phase: Phase,
}

impl View for UdpRelay {
    type V = RelayView;

    closed spec fn view(&self) -> RelayView {
        RelayView { association: self.association@, phase: self.phase@ }
    }
}

impl UdpRelay {
    /// Starts the first round.
    pub fn start(association: UdpAssociation, now: Instant) -> (r: (UdpRelay, RelayAction))
        requires
            association@.wf(),
        ensures
            r.0@.wf(),
            (r.0@, r.1@) == to_poll(association@, now),
    {
        let mut relay = UdpRelay { association, phase: Phase::Ended };
        let action = relay.poll(now);
        (relay, action)
    }

    fn finish(&mut self, result: Result<(), Error>) -> (r: RelayAction)
        requires
            old(self)@.association.wf(),
        ensures
            final(self)@.wf(),
            (final(self)@, r@) == finish(
                old(self)@.association,
                match result {
                    Ok(_) => Ok(()),
                    Err(e) => Err(e@),
                },
            ),
    {
        self.phase = Phase::Ended;
        RelayAction::Finish(result)
    }

    fn poll(&mut self, now: Instant) -> (r: RelayAction)
        requires
            old(self)@.association.wf(),
        ensures
            final(self)@.wf(),
            (final(self)@, r@) == to_poll(old(self)@.association, now),
    {
        match self.association.remaining(now) {
            None => self.finish(Ok(())),
            Some(left) => {
                self.phase = Phase::Poll;
                RelayAction::Poll(left)
            },
        }
    }

    fn interest(&mut self, now: Instant) -> (r: RelayAction)
        requires
            old(self)@.association.wf(),
        ensures
            final(self)@.wf(),
            (final(self)@, r@) == to_interest(old(self)@.association, now),
    {
        match self.association.interest_change() {
            Some(wants) => {
                self.phase = Phase::Interest;
                RelayAction::SetWritable(wants)
            },
            None => self.poll(now),
        }
    }

    fn leave_flush(&mut self, sent_any: bool, now: Instant) -> (r: RelayAction)
        requires
            old(self)@.association.wf(),
        ensures
            final(self)@.wf(),
            (final(self)@, r@) == after_flush(old(self)@.association, sent_any, now),
    {
        if sent_any {
            self.association.touch(now);
        }
        self.interest(now)
    }

    fn pending(&mut self, sent_any: bool, now: Instant) -> (r: RelayAction)
        requires
            old(self)@.association.wf(),
        ensures
            final(self)@.wf(),
            (final(self)@, r@) == to_pending(old(self)@.association, sent_any, now),
    {
        match self.association.next_pending() {
            Some((packet, client)) => {
                let packet = crate::bytes::to_bytes(packet);
                self.phase = Phase::Flush { sent_any };
                RelayAction::SendClient { packet, client }
            },
            None => self.leave_flush(sent_any, now),
        }
    }

    fn flush(&mut self, writable: bool, now: Instant) -> (r: RelayAction)
        requires
            old(self)@.association.wf(),
        ensures
            final(self)@.wf(),
            (final(self)@, r@) == to_flush(old(self)@.association, writable, now),
    {
        if writable {
            self.pending(false, now)
        } else {
            self.interest(now)
        }
    }

    fn route(&mut self, batch: Batch, index: usize, now: Instant) -> (r: RelayAction)
        requires
            old(self)@.association.wf(),
        ensures
            final(self)@.wf(),
            (final(self)@, r@) == to_route(old(self)@.association, batch@, index as nat, now),
    {
        if index < batch.outbound.len() {
            let token: usize = batch.outbound[index];
            self.phase = Phase::RouteRead { batch, index, left: MAX_UDP_EVENT_BURST - 1 };
            RelayAction::ReceiveRoute(token)
        } else {
            self.flush(batch.client_writable, now)
        }
    }

    fn same_route(&mut self, batch: Batch, index: usize, left: usize, now: Instant) -> (r:
        RelayAction)
        requires
            old(self)@.association.wf(),
            index < batch@.outbound.len(),
        ensures
            final(self)@.wf(),
            (final(self)@, r@) == route_again(old(self)@.association, batch@, index, left, now),
    {
        assert(batch.outbound.len() == batch.outbound@.len());
        if left > 0 {
            let token: usize = batch.outbound[index];
            self.phase = Phase::RouteRead { batch, index, left: left - 1 };
            RelayAction::ReceiveRoute(token)
        } else {
            self.route(batch, index + 1, now)
        }
    }

    fn client(&mut self, batch: Batch, now: Instant) -> (r: RelayAction)
        requires
            old(self)@.association.wf(),
        ensures
            final(self)@.wf(),
            (final(self)@, r@) == to_client(old(self)@.association, batch@, now),
    {
        if batch.client_readable {
            self.phase = Phase::ClientRead { batch, left: MAX_UDP_EVENT_BURST - 1 };
            RelayAction::ReceiveClient
        } else {
            self.route(batch, 0, now)
        }
    }

    fn same_client(&mut self, batch: Batch, left: usize, now: Instant) -> (r: RelayAction)
        requires
            old(self)@.association.wf(),
        ensures
            final(self)@.wf(),
            (final(self)@, r@) == client_again(old(self)@.association, batch@, left, now),
    {
        if left > 0 {
            self.phase = Phase::ClientRead { batch, left: left - 1 };
            RelayAction::ReceiveClient
        } else {
            self.route(batch, 0, now)
        }
    }

    fn control(&mut self, batch: Batch, index: usize, now: Instant) -> (r: RelayAction)
        requires
            old(self)@.association.wf(),
            index <= batch@.control.len(),
        ensures
            final(self)@.wf(),
            (final(self)@, r@) == to_control(old(self)@.association, batch@, index as nat, now),
    {
        let mut i: usize = index;
        while i < batch.control.len()
            invariant
                i <= batch@.control.len(),
                self@.association == old(self)@.association,
                old(self)@.association.wf(),
                to_control(old(self)@.association, batch@, i as nat, now) == to_control(
                    old(self)@.association,
                    batch@,
                    index as nat,
                    now,
                ),
            decreases batch@.control.len() - i,
        {
            let event = batch.control[i];
            let (check, step) = ControlCheck::start(event.closed, event.readable);
            match step {
                ControlStep::Closed => {
                    return self.finish(Ok(()));
                },
                ControlStep::Read => {
                    self.phase = Phase::Control { batch, index: i, check };
                    return RelayAction::ReadControl;
                },
                ControlStep::Open => {},
                ControlStep::Fail(e) => {
                    return self.finish(Err(e));
                },
            }
            i = i + 1;
        }
        self.client(batch, now)
    }

    /// Takes what came of the last action; gives the next one.
    pub fn step<E, D>(
        &mut self,
        event: RelayEvent,
        runtime: &Runtime,
        outbounds: &OutboundRegistry<D>,
        routes: &DatagramRouteSet<E>,
        id: FlowId,
        now: Instant,
    ) -> (r: RelayAction)
        requires
            old(self)@.wf(),
            old(self)@.expects(event@),
        ensures
            final(self)@.wf(),
            (final(self)@, r@) == old(self)@.next(
                event@,
                Surroundings {
                    policy: runtime@,
                    registry: outbounds@,
                    routes: routes@,
                    id,
                    now,
                },
            ),
    {
        let mut phase = Phase::Ended;
        std::mem::swap(&mut phase, &mut self.phase);
        match (phase, event) {
            (Phase::Poll, RelayEvent::Polled(events)) => {
                if events.len() == 0 {
                    return self.finish(Ok(()));
                }
                let batch = Batch::of(events.as_slice(), routes);
                assert(batch@ =~= batch_of(events@, routes@));
                self.control(batch, 0, now)
            },
            (Phase::Poll, RelayEvent::PollFailed(e)) => {
                if e.kind == ErrorKind::Interrupted {
                    self.poll(now)
                } else {
                    self.finish(Err(e))
                }
            },
            (Phase::Control { batch, index, check }, RelayEvent::ControlRead(result)) => {
                let mut check = check;
                assert(batch.control.len() == batch.control@.len());
                match check.step(result) {
                    ControlStep::Closed => self.finish(Ok(())),
                    ControlStep::Open => self.control(batch, index + 1, now),
                    ControlStep::Read => {
                        self.phase = Phase::Control { batch, index, check };
                        RelayAction::ReadControl
                    },
                    ControlStep::Fail(e) => self.finish(Err(e)),
                }
            },
            (Phase::ClientRead { batch, left }, RelayEvent::ClientReceived { source, packet })
                => {
                if !self.association.accepts(source) {
                    return self.same_client(batch, left, now);
                }
                match association::route_client_packet(
                    runtime,
                    outbounds,
                    packet.as_slice(),
                    id,
                ) {
                    None => self.same_client(batch, left, now),
                    Some((endpoint, target, payload)) => {
                        let payload = crate::bytes::to_bytes(payload);
                        self.phase = Phase::ClientSend { batch, left, source };
                        RelayAction::Send { endpoint, target, payload }
                    },
                }
            },
            (Phase::ClientRead { batch, left }, RelayEvent::ClientReadFailed(e)) => {
                if e.kind == ErrorKind::WouldBlock {
                    self.route(batch, 0, now)
                } else if e.kind == ErrorKind::Interrupted {
                    self.same_client(batch, left, now)
                } else {
                    self.finish(Err(e))
                }
            },
            (Phase::ClientSend { batch, left, source }, RelayEvent::Sent(ok)) => {
                if ok {
                    self.association.packet_sent(source, now);
                }
                self.same_client(batch, left, now)
            },
            (
                Phase::RouteRead { batch, index, left },
                RelayEvent::RouteReceived { received, payload },
            ) => match self.association.reply_packet(&received, payload.as_slice()) {
                Err(e) => self.finish(Err(e)),
                Ok(None) => self.same_route(batch, index, left, now),
                Ok(Some((packet, client))) => {
                    let copy = crate::bytes::to_bytes(packet.as_slice());
                    self.phase = Phase::ReplySend { batch, index, left, packet: copy, client };
                    RelayAction::SendClient { packet, client }
                },
            },
            (Phase::RouteRead { batch, index, .. }, RelayEvent::RouteIdle) => {
                assert(batch.outbound.len() == batch.outbound@.len());
                self.route(batch, index + 1, now)
            },
            (Phase::RouteRead { .. }, RelayEvent::RouteFailed(e)) => self.finish(Err(e)),
            (
                Phase::ReplySend { batch, index, left, packet, client },
                RelayEvent::ClientSent(result),
            ) => {
                self.association.reply_attempted(packet, client, result, now);
                self.same_route(batch, index, left, now)
            },
            (Phase::Flush { sent_any }, RelayEvent::ClientSent(result)) => {
                let (again, went_out) = self.association.flush_attempted(result);
                if again {
                    self.pending(sent_any || went_out, now)
                } else {
                    self.leave_flush(sent_any, now)
                }
            },
            (Phase::Interest, RelayEvent::InterestSet) => self.poll(now),
            (Phase::Interest, RelayEvent::InterestFailed(e)) => self.finish(Err(e)),
            _ => self.finish(Ok(())),
        }
    }
}

/// A read of the control connection that finds it gone.
pub open spec fn finds_it_gone(result: Result<usize, Error>) -> bool {
    match result {
        Ok(n) => n == 0,
        Err(e) => association::is_gone(e@.kind),
    }
}

/// A closed control connection ends the association before any datagram of the
/// same round is looked at. Of the control events of a round the first that says
/// anything is acted on: one that says "closed" ends it at once, and one that says
/// "readable" has the connection read, which ends it where nothing is left to read
/// or the connection is gone.
pub proof fn law_control_close_comes_first<E, D>(
    relay: RelayView,
    events: Seq<ReadyEvent>,
    k: int,
    polled: Surroundings<E, D>,
    result: Result<usize, Error>,
    read: Surroundings<E, D>,
)
    requires
        relay.phase is Poll,
        0 <= k < association::control_events(events).len(),
        association::control_events(events)[k].closed || association::control_events(
            events,
        )[k].readable,
        forall|i: int|
            0 <= i < k ==> !(#[trigger] association::control_events(events)[i]).closed
                && !association::control_events(events)[i].readable,
    ensures
        ({
            let (after, action) = relay.next(RelayEventView::Polled(events), polled);
            if association::control_events(events)[k].closed {
                (after, action) == finish(relay.association, Ok(()))
            } else {
                &&& action == RelayActionView::ReadControl
                &&& after.association == relay.association
                &&& finds_it_gone(result) ==> after.next(RelayEventView::ControlRead(result), read)
                    == finish(relay.association, Ok(()))
            }
        }),
{
    let batch = batch_of(events, polled.routes);
    lemma_silent_events(relay.association, batch, 0, k as nat, polled.now);
}

/// Whichever read of the control connection finds it gone ends the association.
pub proof fn law_lost_control_ends_the_association<E, D>(
    relay: RelayView,
    result: Result<usize, Error>,
    s: Surroundings<E, D>,
)
    requires
        relay.phase is Control,
        finds_it_gone(result),
    ensures
        relay.next(RelayEventView::ControlRead(result), s) == finish(relay.association, Ok(())),
{
}

/// Control events that say nothing are passed over.
proof fn lemma_silent_events(
    a: AssociationView,
    batch: BatchView,
    from: nat,
    to: nat,
    now: Instant,
)
    requires
        from <= to <= batch.control.len(),
        forall|i: int|
            from <= i < to ==> !(#[trigger] batch.control[i]).closed && !batch.control[i].readable,
    ensures
        to_control(a, batch, from, now) == to_control(a, batch, to, now),
    decreases to - from,
{
    if from < to {
        lemma_silent_events(a, batch, from + 1, to, now);
    }
}

/// Only the client gets replies, and its address does not change once it is known.
pub proof fn law_replies_go_to_the_client<E, D>(
    relay: RelayView,
    event: RelayEventView,
    s: Surroundings<E, D>,
)
    requires
        relay.wf(),
        relay.expects(event),
    ensures
        relay.next(event, s).1 matches RelayActionView::SendClient { packet, client }
            ==> relay.next(event, s).0.association.client == Some(client),
        relay.association.client is Some ==> relay.next(event, s).0.association.client
            == relay.association.client,
{
    if let (PhaseView::Poll, RelayEventView::Polled(events)) = (relay.phase, event) {
        lemma_control_keeps(relay.association, batch_of(events, s.routes), 0, s.now);
    }
    if let PhaseView::Control { batch, index, check } = relay.phase {
        lemma_control_keeps(relay.association, batch, index as nat + 1, s.now);
    }
}

proof fn lemma_control_keeps(a: AssociationView, batch: BatchView, index: nat, now: Instant)
    requires
        a.wf(),
    ensures
        to_control(a, batch, index, now).1 matches RelayActionView::SendClient { packet, client }
            ==> a.client == Some(client),
        to_control(a, batch, index, now).0.association.client == a.client,
    decreases batch.control.len() - index,
{
    if index < batch.control.len() {
        lemma_control_keeps(a, batch, index + 1, now);
    }
}

/// A datagram is sent only where the client has sent it.
pub proof fn law_only_the_client_sends<E, D>(
    relay: RelayView,
    event: RelayEventView,
    s: Surroundings<E, D>,
)
    requires
        relay.wf(),
        relay.expects(event),
    ensures
        relay.next(event, s).1 is Send ==> (event matches RelayEventView::ClientReceived {
            source,
            packet,
        } && association::is_from_client(
            source,
            relay.association.control_ip,
            relay.association.client,
        )),
{
    if let (PhaseView::Poll, RelayEventView::Polled(events)) = (relay.phase, event) {
        lemma_control_sends_nothing(relay.association, batch_of(events, s.routes), 0, s.now);
    }
    if let PhaseView::Control { batch, index, check } = relay.phase {
        lemma_control_sends_nothing(relay.association, batch, index as nat + 1, s.now);
    }
}

proof fn lemma_control_sends_nothing(
    a: AssociationView,
    batch: BatchView,
    index: nat,
    now: Instant,
)
    ensures
        !(to_control(a, batch, index, now).1 is Send),
    decreases batch.control.len() - index,
{
    if index < batch.control.len() {
        lemma_control_sends_nothing(a, batch, index + 1, now);
    }
}

/// A datagram of the client is sent on exactly when it comes from the client and is a request
/// that the policy routes: over the endpoint that the policy names, to the target of the
/// request, with its payload. Datagrams of others change nothing.
#[verifier::rlimit(30)]
pub proof fn law_client_datagrams_are_sent_on<E, D>(
    relay: RelayView,
    source: SocketAddr,
    packet: Seq<u8>,
    s: Surroundings<E, D>,
)
    requires
        relay.phase is ClientRead,
    ensures
        ({
            let (after, action) = relay.next(RelayEventView::ClientReceived { source, packet }, s);
            let a = relay.association;
            let own = match a.client {
                Some(c) => source == c,
                None => source.ip == a.control_ip,
            };
            match socks5::udp_request(packet) {
                Ok((target, payload)) if own => match dispatch::datagram_route(
                    s.policy,
                    s.registry,
                    target,
                    s.id,
                ) {
                    Some(endpoint) => action == (RelayActionView::Send {
                        endpoint,
                        target,
                        payload,
                    }) && after.association == a && (after.phase matches PhaseView::ClientSend {
                        batch,
                        left,
                        source: from,
                    } && from == source),
                    None => !(action is Send) && after.association.client == a.client,
                },
                _ => !(action is Send) && after.association.client == a.client,
            }
        }),
{
}

/// The first sender whose datagram went out is the client from then on, and the association is
/// in use; a datagram that could not be sent changes neither.
pub proof fn law_first_sender_becomes_the_client<E, D>(
    relay: RelayView,
    ok: bool,
    s: Surroundings<E, D>,
)
    requires
        relay.phase is ClientSend,
    ensures
        ({
            let (after, action) = relay.next(RelayEventView::Sent(ok), s);
            &&& ok ==> after.association.client == Some(relay.phase->ClientSend_source)
                && after.association.last_activity == s.now
            &&& !ok ==> after.association.client == relay.association.client
                && after.association.last_activity == relay.association.last_activity
            &&& after.association.pending == relay.association.pending
            &&& after.association.control_ip == relay.association.control_ip
            &&& relay.phase->ClientSend_left > 0 ==> action is ReceiveClient
        }),
{
}

/// What a path received goes to the client, wrapped with the address that it came from. It is
/// dropped while there is no client, and ends the association when it cannot be wrapped.
#[verifier::rlimit(30)]
pub proof fn law_received_datagrams_go_to_the_client<E, D>(
    relay: RelayView,
    received: ReceivedView,
    payload: Seq<u8>,
    s: Surroundings<E, D>,
)
    requires
        relay.wf(),
        relay.phase is RouteRead,
    ensures
        ({
            let (after, action) = relay.next(
                RelayEventView::RouteReceived { received, payload },
                s,
            );
            match relay.association.client {
                None => !(action is SendClient) && !(action matches RelayActionView::Finish(
                    Err(_),
                )),
                Some(client) => match socks5::udp_response(received.source, payload) {
                    Ok(packet) => action == (RelayActionView::SendClient { packet, client })
                        && after.association == relay.association,
                    Err(e) => action == RelayActionView::Finish(Err(e)),
                },
            }
        }),
{
}

/// Whatever comes of a reply, the path is read on, and what waits for the client is what
/// waited and, where its socket would not take it, the reply.
pub proof fn law_replies_are_sent_or_wait<E, D>(
    relay: RelayView,
    result: Result<nat, ErrorKind>,
    s: Surroundings<E, D>,
)
    requires
        relay.wf(),
        relay.phase is ReplySend,
        relay.phase->ReplySend_left > 0,
    ensures
        ({
            let (after, action) = relay.next(RelayEventView::ClientSent(result), s);
            &&& after.association == relay.association.replied(
                relay.phase->ReplySend_packet,
                relay.phase->ReplySend_client,
                result,
                s.now,
            )
            &&& action == RelayActionView::ReceiveRoute(
                relay.phase->ReplySend_batch.outbound[relay.phase->ReplySend_index as int],
            )
        }),
{
}

/// When the client's socket can be written again, the replies that wait go out, first come
/// first, until it would block; then it is no longer waited for exactly when none is left.
#[verifier::rlimit(30)]
pub proof fn law_waiting_replies_go_out_first_to_last<E, D>(
    relay: RelayView,
    result: Result<nat, ErrorKind>,
    s: Surroundings<E, D>,
)
    requires
        relay.wf(),
        relay.phase is Flush,
    ensures
        ({
            let (after, action) = relay.next(RelayEventView::ClientSent(result), s);
            let left = relay.association.flushed(result).pending;
            let goes_on = result != Err::<nat, ErrorKind>(ErrorKind::WouldBlock) && left.len() > 0;
            &&& after.association.pending == left
            &&& action is SendClient <==> goes_on
            &&& goes_on ==> action == (RelayActionView::SendClient {
                packet: left[0].0,
                client: left[0].1,
            })
            &&& !goes_on ==> after.association.relay_writable == (left.len() > 0)
            &&& action matches RelayActionView::SetWritable(w) ==> w == (left.len() > 0) && w
                != relay.association.relay_writable
        }),
{
}

/// The relay waits for what is left of 120 seconds since the association was last in use, and
/// ends without an error once they are over.
pub proof fn law_relay_ends_when_nobody_speaks(a: AssociationView, now: Instant)
    ensures
        ({
            let (after, action) = to_poll(a, now);
            let over = now.nanos >= a.last_activity.nanos + 120_000_000_000;
            &&& over ==> action == RelayActionView::Finish(Ok(())) && after.phase is Ended
            &&& !over ==> after.phase is Poll
            &&& !over && now.nanos >= a.last_activity.nanos ==> (action
                matches RelayActionView::Poll(d) && now.nanos + d.nanos == a.last_activity.nanos
                + 120_000_000_000)
            &&& !over && now.nanos < a.last_activity.nanos ==> (action
                matches RelayActionView::Poll(d) && d.nanos == 120_000_000_000)
            &&& after.association == a
        }),
{
}

/// The client's socket waits to be written exactly while a reply waits, and the change is told
/// once.
pub proof fn law_client_socket_waits_while_replies_do(a: AssociationView, now: Instant)
    ensures
        ({
            let (after, action) = to_interest(a, now);
            let wants = a.pending.len() > 0;
            &&& after.association.relay_writable == wants
            &&& after.association.pending == a.pending
            &&& action is SetWritable <==> wants != a.relay_writable
            &&& action matches RelayActionView::SetWritable(w) ==> w == wants
        }),
{
}

/// A wait that saw nothing ends the association, as its time is over. An interrupted wait or
/// read is begun again, the end of what a socket holds leads on to the next, and every other
/// failure ends the association with that failure.
#[verifier::rlimit(30)]
pub proof fn law_failures_end_the_association<E, D>(
    relay: RelayView,
    e: ErrorView,
    s: Surroundings<E, D>,
)
    requires
        relay.wf(),
    ensures
        relay.phase is Poll ==> relay.next(RelayEventView::Polled(Seq::empty()), s) == finish(
            relay.association,
            Ok(()),
        ),
        relay.phase is Poll && e.kind != ErrorKind::Interrupted ==> relay.next(
            RelayEventView::PollFailed(e),
            s,
        ).1 == RelayActionView::Finish(Err(e)),
        relay.phase is Poll && e.kind == ErrorKind::Interrupted ==> relay.next(
            RelayEventView::PollFailed(e),
            s,
        ) == to_poll(relay.association, s.now),
        relay.phase is ClientRead && e.kind != ErrorKind::Interrupted && e.kind
            != ErrorKind::WouldBlock ==> relay.next(RelayEventView::ClientReadFailed(e), s).1
            == RelayActionView::Finish(Err(e)),
        relay.phase is ClientRead && e.kind == ErrorKind::WouldBlock ==> !(relay.next(
            RelayEventView::ClientReadFailed(e),
            s,
        ).1 is ReceiveClient),
        relay.phase is ClientRead && e.kind == ErrorKind::Interrupted
            && relay.phase->ClientRead_left > 0 ==> relay.next(
            RelayEventView::ClientReadFailed(e),
            s,
        ).1 is ReceiveClient,
        relay.phase is RouteRead ==> relay.next(RelayEventView::RouteFailed(e), s).1
            == RelayActionView::Finish(Err(e)),
        relay.phase is Interest ==> relay.next(RelayEventView::InterestFailed(e), s).1
            == RelayActionView::Finish(Err(e)),
        relay.phase is Interest ==> relay.next(RelayEventView::InterestSet, s) == to_poll(
            relay.association,
            s.now,
        ),
{
}

/// When the control connection is quiet, a readable client socket is read first, at most 32
/// times, then each path that has something, at most 32 times, in order.
#[verifier::rlimit(30)]
pub proof fn law_client_is_read_before_the_paths(a: AssociationView, batch: BatchView, now: Instant)
    requires
        batch.outbound.len() <= usize::MAX,
    ensures
        batch.client_readable ==> to_client(a, batch, now).1 is ReceiveClient && to_client(
            a,
            batch,
            now,
        ).0.phase == (PhaseView::ClientRead { batch, left: 31 }),
        !batch.client_readable && batch.outbound.len() > 0 ==> to_client(a, batch, now).1
            == RelayActionView::ReceiveRoute(batch.outbound[0]) && to_client(a, batch, now).0.phase
            == (PhaseView::RouteRead { batch, index: 0, left: 31 }),
        to_client(a, batch, now).1 is ReceiveClient ==> batch.client_readable,
        forall|i: nat|
            #![trigger to_route(a, batch, i, now)]
            i < batch.outbound.len() ==> to_route(a, batch, i, now).1
                == RelayActionView::ReceiveRoute(batch.outbound[i as int]) && to_route(
                a,
                batch,
                i,
                now,
            ).0.phase == (PhaseView::RouteRead { batch, index: i as usize, left: 31 }),
        batch.outbound.len() == 0 && !batch.client_readable && batch.client_writable
            && a.pending.len() > 0 ==> to_client(a, batch, now).1 == (RelayActionView::SendClient {
            packet: a.pending[0].0,
            client: a.pending[0].1,
        }),
{
}

} // verus!
